use git_craft::render::shadow::cascade_due;
use git_craft::render::targets::{bloom_mip_count, bloom_sizes, half_size};

#[test]
fn cascade_cadence_matches_the_spec() {
    for f in 1..=8u64 {
        assert!(cascade_due(f, 0));
        assert!(cascade_due(f, 1));
    }
    assert!(cascade_due(2, 2) && !cascade_due(3, 2) && cascade_due(4, 2) && !cascade_due(5, 2));
}

#[test]
fn half_size_clamps_to_one() {
    assert_eq!(half_size(1512, 982), (756, 491));
    assert_eq!(half_size(1, 1), (1, 1));
    assert_eq!(half_size(0, 0), (1, 1), "never zero");
}

#[test]
fn bloom_mip_count_scales_with_resolution() {
    assert_eq!(bloom_mip_count(1512, 982), 6, "very large half-res still hits the cap of 6 mips");
    assert_eq!(bloom_mip_count(20, 20), 1, "20×20: below 32px threshold, stays at 1");
    assert_eq!(bloom_mip_count(8, 8), 1, "never zero mips");
}

#[test]
fn bloom_mip_count_five_mips_at_new_threshold() {
    assert_eq!(bloom_mip_count(640, 360), 5, "720p half-res: expect 5 mips with 32px threshold");
    assert_eq!(bloom_mip_count(320, 180), 4, "480p half-res: expect 4 mips with 32px threshold");
    assert_eq!(bloom_mip_count(16, 16), 1, "16×16 half-res: threshold 32 means no iterations, stays at 1");
    assert_eq!(bloom_mip_count(32, 32), 2, "32×32 half-res: exactly at threshold, one iteration fires");
}

#[test]
fn bloom_mips_stop_at_the_smaller_side() {
    assert_eq!(bloom_mip_count(4096, 64), 3, "the short side drops below 32 after two halvings");
    assert_eq!(bloom_mip_count(0, 0), 1);
    assert_eq!(bloom_mip_count(u32::MAX, u32::MAX), 6);
}

#[test]
fn bloom_chain_halves_from_half_resolution() {
    assert_eq!(
        bloom_sizes(1920, 1080),
        vec![(960, 540), (480, 270), (240, 135), (120, 67), (60, 33), (30, 16)]
    );
    assert_eq!(bloom_sizes(0, 0), vec![(1, 1)]);
    assert_eq!(bloom_sizes(100, 20), vec![(50, 10)]);
}
