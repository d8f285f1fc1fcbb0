//! Block counts of the two-pass decode.
use metaltile_std::ffai::sdpa_decode_2pass::recommended_blocks_m5_max;

#[test]
fn matches_upstream_curve_at_known_points() {
    // single decode with four query heads per group stays at the floor
    for &n in &[256u32, 1024, 4096, 16384, 65_536, 131_072] {
        assert_eq!(recommended_blocks_m5_max(n, 4), 64);
    }
    // eight heads per group follow the curve
    assert_eq!(recommended_blocks_m5_max(1025, 8), 128);
    assert_eq!(recommended_blocks_m5_max(8_192, 8), 128);
    assert_eq!(recommended_blocks_m5_max(32_768, 8), 256);
    assert_eq!(recommended_blocks_m5_max(65_536, 8), 512);
    assert_eq!(recommended_blocks_m5_max(131_072, 8), 1024);
    assert_eq!(recommended_blocks_m5_max(1024, 8), 64);
    // the second pass takes blocks in thirty-twos
    for &n in &[256u32, 1025, 8192, 32_768, 65_536, 131_072, 200_000] {
        for &s in &[4u32, 8, 16] {
            assert_eq!(recommended_blocks_m5_max(n, s) % 32, 0);
        }
    }
}

#[test]
fn block_counts_step_just_behind_each_bound() {
    assert_eq!(recommended_blocks_m5_max(8_193, 5), 256);
    assert_eq!(recommended_blocks_m5_max(32_769, 5), 512);
    assert_eq!(recommended_blocks_m5_max(65_537, 5), 1024);
    assert_eq!(recommended_blocks_m5_max(u32::MAX, u32::MAX), 1024);
    assert_eq!(recommended_blocks_m5_max(0, 0), 64);
}
