use atm::archive::{Artifact, ArchiveState, BatchedArchiveWriter};
use atm::errors::AtmError;
use atm::planner::PartitionGeometry;

fn small_geometry() -> PartitionGeometry {
    PartitionGeometry { partition_size: 1, partition_depth: 1 }
}

fn artifact(hash: &str) -> Artifact {
    Artifact { bytes: hash.as_bytes().to_vec(), hash: hash.to_string() }
}

#[test]
fn test_batch_counts_with_short_final_batch() {
    let mut w = BatchedArchiveWriter::new("t", small_geometry(), 2).unwrap();
    let hashes = ["aa01", "ab02", "ac03", "ad04", "ae05"];
    let mut flushed = Vec::new();
    for h in hashes {
        if let Some(b) = w.push(artifact(h)).unwrap() {
            flushed.push(b);
        }
    }
    assert_eq!(flushed.len(), 2);
    let last = w.finish().unwrap().unwrap();
    flushed.push(last);
    // ceil(5 / 2) batches in all, the final one short
    assert_eq!(flushed.len(), 3);
    assert_eq!(flushed[0].entries.len(), 2);
    assert_eq!(flushed[1].entries.len(), 2);
    assert_eq!(flushed[2].entries.len(), 1);
    assert_eq!(flushed[2].entries[0].hash, "ae05");
}

#[test]
fn test_batch_counts_exact_multiple() {
    let mut w = BatchedArchiveWriter::new("t", small_geometry(), 2).unwrap();
    let mut full = 0;
    for h in ["aa01", "ab02", "ac03", "ad04"] {
        if let Some(b) = w.push(artifact(h)).unwrap() {
            assert_eq!(b.entries.len(), 2);
            full += 1;
        }
    }
    assert_eq!(full, 2);
    // nothing is pending, so closing flushes no further batch
    assert!(w.finish().unwrap().is_none());
}

#[test]
fn test_push_assigns_partitioned_paths() {
    let mut w = BatchedArchiveWriter::new("out", small_geometry(), 2).unwrap();
    assert!(w.push(artifact("beef")).unwrap().is_none());
    let b = w.finish().unwrap().unwrap();
    assert_eq!(b.entries.len(), 1);
    assert_eq!(b.entries[0].path, "out/b/beef.mid");
    assert_eq!(b.entries[0].hash, "beef");
    assert_eq!(b.entries[0].bytes, b"beef".to_vec());
}

#[test]
fn test_push_after_finish_fails_with_invalid_state() {
    let mut w = BatchedArchiveWriter::new("t", small_geometry(), 3).unwrap();
    assert!(w.push(artifact("aa")).unwrap().is_none());
    w.finish().unwrap();
    assert_eq!(w.state, ArchiveState::Closed);
    assert_eq!(w.push(artifact("bb")).unwrap_err(), AtmError::InvalidState);
    // the failed push left the writer closed, with no further effect
    assert_eq!(w.state, ArchiveState::Closed);
}

#[test]
fn test_finish_twice_fails_with_invalid_state() {
    let mut w = BatchedArchiveWriter::new("t", small_geometry(), 3).unwrap();
    assert!(w.finish().unwrap().is_none());
    assert_eq!(w.finish().unwrap_err(), AtmError::InvalidState);
    assert_eq!(w.state, ArchiveState::Closed);
}

#[test]
fn test_push_hash_too_short_rejected() {
    let geometry = PartitionGeometry { partition_size: 4, partition_depth: 2 };
    let mut w = BatchedArchiveWriter::new("t", geometry, 2).unwrap();
    assert_eq!(w.push(artifact("abc")).unwrap_err(), AtmError::InvalidConfiguration);
    // the writer stays open and accepts a long enough hash afterwards
    assert_eq!(w.state, ArchiveState::Open);
    assert!(w.push(artifact("0123456789")).unwrap().is_none());
}

#[test]
fn test_zero_batch_size_rejected() {
    match BatchedArchiveWriter::new("t", small_geometry(), 0) {
        Err(e) => assert_eq!(e, AtmError::InvalidConfiguration),
        Ok(_) => panic!("a zero batch size must be rejected"),
    }
}
