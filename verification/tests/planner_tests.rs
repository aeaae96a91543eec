use atm::planner::plan;

#[test]
fn test_plan_exact_width() {
    // space 16^4 = 65536; one level; 65536 <= 16 * 16^s first holds at s = 3
    let g = plan(16, 4, 16, 1);
    assert_eq!(g.partition_depth, 1);
    assert_eq!(g.partition_size, 3);
}

#[test]
fn test_plan_small_space_needs_one_character() {
    // space 2^2 = 4; 4 <= 4 * 16^1, so the smallest width is 1
    let g = plan(2, 2, 4, 1);
    assert_eq!(g.partition_depth, 1);
    assert_eq!(g.partition_size, 1);
}

#[test]
fn test_plan_depth_spreads_the_width() {
    // space 16^8; with two levels, 16^8 <= 1 * 16^(2s) first holds at s = 4
    let g = plan(16, 8, 1, 2);
    assert_eq!(g.partition_size, 4);
    // with one level it takes the full 8 characters
    assert_eq!(plan(16, 8, 1, 1).partition_size, 8);
}

#[test]
fn test_plan_flat_layout_for_depth_zero() {
    let g = plan(200, 50, 1, 0);
    assert_eq!(g.partition_depth, 0);
    assert_eq!(g.partition_size, 1);
}

#[test]
fn test_plan_monotonic_in_max_files() {
    let mut last = u32::MAX;
    for max_files in [1u64, 2, 16, 256, 4096, 1 << 40] {
        let g = plan(12, 8, max_files, 2);
        assert!(g.partition_size <= last);
        last = g.partition_size;
    }
}

#[test]
fn test_plan_huge_space_is_served() {
    // 128^4000000000 is astronomically large; the planner still answers,
    // with its documented clamp at the widest machine integer
    let g = plan(128, 4_000_000_000, 4096, 3);
    assert!(g.partition_size >= 1);
    assert!(g.partition_size <= 32);
}
