use atm::errors::AtmError;
use atm::path::assign;
use atm::planner::PartitionGeometry;

#[test]
fn test_assign_layout() {
    let g = PartitionGeometry { partition_size: 2, partition_depth: 2 };
    let p = assign("abcdef0123", &g, "out").unwrap();
    assert_eq!(p, "out/ab/cd/abcdef0123.mid");
}

#[test]
fn test_assign_is_deterministic() {
    let g = PartitionGeometry { partition_size: 3, partition_depth: 1 };
    let first = assign("0123456789abcdef", &g, "target").unwrap();
    let second = assign("0123456789abcdef", &g, "target").unwrap();
    assert_eq!(first, second);
    assert_eq!(first, "target/012/0123456789abcdef.mid");
}

#[test]
fn test_assign_flat_for_depth_zero() {
    let g = PartitionGeometry { partition_size: 7, partition_depth: 0 };
    let p = assign("cafe", &g, "t").unwrap();
    assert_eq!(p, "t/cafe.mid");
}

#[test]
fn test_shared_prefix_lands_in_same_directory() {
    let g = PartitionGeometry { partition_size: 2, partition_depth: 2 };
    let p1 = assign("abcd1111", &g, "root").unwrap();
    let p2 = assign("abcd2222", &g, "root").unwrap();
    let dir1 = &p1[..p1.rfind('/').unwrap()];
    let dir2 = &p2[..p2.rfind('/').unwrap()];
    assert_eq!(dir1, dir2);
    assert_eq!(dir1, "root/ab/cd");
}

#[test]
fn test_assign_hash_too_short_rejected() {
    let g = PartitionGeometry { partition_size: 2, partition_depth: 1 };
    // the hash must reach strictly past the directory levels
    assert_eq!(assign("ab", &g, "t").unwrap_err(), AtmError::InvalidConfiguration);
    assert!(assign("abc", &g, "t").is_ok());
}
