use git_craft::render::timestamps::{frame_wall_ticks, pass_ticks};

#[test]
fn pass_ticks_converts_begin_end_pairs() {
    assert_eq!(pass_ticks(&[0, 1_000_000, 2_000_000, 5_000_000]), vec![Some(1_000_000), Some(3_000_000)]);
}

#[test]
fn invalid_pass_samples_yield_none() {
    // end == begin (pass skipped) and end < begin (bad sample) never wrap.
    assert_eq!(pass_ticks(&[5, 5, 9, 3]), vec![None, None]);
    // A trailing lone tick is not a pass.
    assert_eq!(pass_ticks(&[1, 4, 7]), vec![Some(3)]);
}

#[test]
fn frame_wall_uses_first_begin_and_last_end() {
    let ticks = [100u64, 1_100_100, 500_000, 2_600_100];
    assert_eq!(frame_wall_ticks(&ticks), Some(2_600_000));
    // Summing the overlapping passes overcounts the wall-clock span.
    let sum: u64 = pass_ticks(&ticks).into_iter().flatten().sum();
    assert!(sum > 2_600_000);
}

#[test]
fn frame_wall_skips_unwritten_and_bad_passes() {
    assert_eq!(frame_wall_ticks(&[0, 0, 1_000_000, 3_000_000]), Some(2_000_000));
    assert_eq!(frame_wall_ticks(&[0, 5_000_000, 1_000, 6_000_000]), Some(5_999_000));
    assert_eq!(frame_wall_ticks(&[0, 0, 0, 0]), None);
    assert_eq!(frame_wall_ticks(&[]), None);
    assert_eq!(frame_wall_ticks(&[5, 3, 9, 2]), None);
}

#[test]
fn a_single_pass_frame_equals_its_pass() {
    let ticks = [500u64, 1_500_500];
    assert_eq!(frame_wall_ticks(&ticks), pass_ticks(&ticks)[0]);
}
