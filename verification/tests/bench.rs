use git_craft::bench::{parse_bench_args, parse_usize, DEFAULT_FRAMES};

fn args(a: &[&str]) -> Vec<String> {
    a.iter().map(|s| s.to_string()).collect()
}

#[test]
fn parse_bench_args_detects_native_bench_flag() {
    // --native-bench implies --bench and sets native_res.
    let cfg = parse_bench_args(args(&["prog", "--bench", "--native-bench"])).unwrap();
    assert!(cfg.native_res, "native_res should be true");
    assert_eq!(cfg.frames, DEFAULT_FRAMES);
}

#[test]
fn native_bench_without_bench_is_none() {
    // --native-bench alone does NOT activate bench mode (--bench required).
    let result = parse_bench_args(args(&["prog", "--native-bench"]));
    assert!(result.is_none());
}

#[test]
fn native_bench_combines_with_bench_frames() {
    let cfg = parse_bench_args(args(&["prog", "--bench", "--native-bench", "--bench-frames", "100"])).unwrap();
    assert!(cfg.native_res);
    assert_eq!(cfg.frames, 100);
}

#[test]
fn non_native_bench_has_native_res_false() {
    let cfg = parse_bench_args(args(&["prog", "--bench"])).unwrap();
    assert!(!cfg.native_res);
}

#[test]
fn parse_bench_args_detects_flag_and_frames() {
    let none = parse_bench_args(args(&["prog"]));
    assert!(none.is_none());
    let default = parse_bench_args(args(&["prog", "--bench"])).unwrap();
    assert_eq!(default.frames, DEFAULT_FRAMES);
    let custom = parse_bench_args(args(&["prog", "--bench", "--bench-frames", "120"])).unwrap();
    assert_eq!(custom.frames, 120);
    // Bad frame count falls back to the default.
    let bad = parse_bench_args(args(&["prog", "--bench", "--bench-frames", "oops"])).unwrap();
    assert_eq!(bad.frames, DEFAULT_FRAMES);
    // No --bench → None even with --bench-frames present.
    assert!(parse_bench_args(args(&["prog", "--bench-frames", "9"])).is_none());
}

#[test]
fn frame_count_parses_plain_decimal_only() {
    assert_eq!(parse_usize(&"0".to_string()), Some(0));
    assert_eq!(parse_usize(&"600".to_string()), Some(600));
    assert_eq!(parse_usize(&"+7".to_string()), Some(7));
    assert_eq!(parse_usize(&"".to_string()), None);
    assert_eq!(parse_usize(&"-1".to_string()), None);
    assert_eq!(parse_usize(&"1x".to_string()), None);
    assert_eq!(parse_usize(&"99999999999999999999999".to_string()), None);
}

#[test]
fn zero_frames_keeps_the_default_and_the_last_valid_count_wins() {
    let cfg = parse_bench_args(args(&["prog", "--bench-frames", "0", "--bench"])).unwrap();
    assert_eq!(cfg.frames, DEFAULT_FRAMES);
    let cfg = parse_bench_args(args(&["prog", "--bench-frames", "5", "--bench", "--bench-frames", "7"])).unwrap();
    assert_eq!(cfg.frames, 7);
    let cfg = parse_bench_args(args(&["prog", "--bench-frames", "5", "--bench", "--bench-frames", "x"])).unwrap();
    assert_eq!(cfg.frames, 5);
}

#[test]
fn frames_flag_at_the_end_keeps_the_default() {
    let cfg = parse_bench_args(args(&["prog", "--bench", "--bench-frames"])).unwrap();
    assert_eq!(cfg.frames, DEFAULT_FRAMES);
}

use git_craft::bench::{BenchConfig, BenchRun, STEADY_FRAMES, WARMUP_CAP};

#[test]
fn warmup_needs_a_consecutive_idle_streak() {
    let mut run = BenchRun::new(BenchConfig { frames: 5, native_res: false });
    for _ in 0..(STEADY_FRAMES - 1) {
        assert!(!run.warmup_step(true));
    }
    assert!(run.warmup_step(true)); // STEADY_FRAMES-th idle
    assert!(!run.is_warming()); // transitioned to recording
}

#[test]
fn a_busy_frame_resets_the_idle_streak() {
    let mut run = BenchRun::new(BenchConfig { frames: 5, native_res: false });
    for _ in 0..(STEADY_FRAMES - 1) {
        run.warmup_step(true);
    }
    assert!(!run.warmup_step(false)); // reset just before the threshold
    for _ in 0..(STEADY_FRAMES - 1) {
        assert!(!run.warmup_step(true));
    }
    assert!(run.warmup_step(true));
}

#[test]
fn warmup_cap_forces_recording_when_never_idle() {
    let mut run = BenchRun::new(BenchConfig { frames: 5, native_res: false });
    let mut ready = false;
    for _ in 0..WARMUP_CAP {
        ready = run.warmup_step(false);
        if ready {
            break;
        }
    }
    assert!(ready);
    assert!(!run.is_warming());
}

#[test]
fn warmup_cap_fires_despite_recurring_busy_frames() {
    let mut run = BenchRun::new(BenchConfig { frames: 5, native_res: false });
    let mut ready = false;
    for frame in 0..WARMUP_CAP as usize {
        // STEADY_FRAMES-1 idle frames, then 1 busy frame: only the cap ends it.
        let idle = (frame % STEADY_FRAMES as usize) != (STEADY_FRAMES as usize - 1);
        ready = run.warmup_step(idle);
        if ready {
            break;
        }
    }
    assert!(ready);
    assert!(!run.is_warming());
}

#[test]
fn push_records_until_done() {
    let mut run = BenchRun::new(BenchConfig { frames: 3, native_res: false });
    assert!(!run.push(), "nothing is recorded during warmup");
    while !run.warmup_step(true) {}
    assert!(run.push());
    assert!(run.push());
    assert!(!run.is_done());
    assert!(run.push());
    assert!(run.is_done());
    assert_eq!(run.recorded(), 3);
    // Extra pushes after Done are ignored.
    assert!(!run.push());
    assert_eq!(run.recorded(), 3);
}

#[test]
fn a_zero_frame_run_is_done_after_warmup() {
    let mut run = BenchRun::new(BenchConfig { frames: 0, native_res: false });
    assert_eq!(run.frames(), 0);
    while !run.warmup_step(true) {}
    assert!(run.is_done());
    assert!(!run.push());
    assert_eq!(run.recorded(), 0);
}
