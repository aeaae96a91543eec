use atm::archive::{Artifact, BatchedArchiveWriter};
use atm::driver::GenerationDriver;
use atm::generator::SequenceGenerator;
use atm::planner::plan;

/// Stands in for the external encoder: the bytes are the notes themselves
/// and the hash is their hexadecimal rendering.
fn encode(notes: &[u8]) -> Artifact {
    let mut hash = String::new();
    for n in notes {
        hash.push_str(&format!("{:02x}", n));
    }
    Artifact { bytes: notes.to_vec(), hash }
}

#[test]
fn test_end_to_end_batched_run() {
    // alphabet size 2, length 2, max_files 4, one partition level,
    // batches of 2, stop after 4 artifacts
    let geometry = plan(2, 2, 4, 1);
    assert_eq!(geometry.partition_size, 1);
    assert_eq!(geometry.partition_depth, 1);

    let generator = SequenceGenerator::new(vec![0x3c, 0x3e], 2, Some(2)).unwrap();
    let mut driver = GenerationDriver::new(generator, 4).unwrap();
    let mut writer = BatchedArchiveWriter::new("target", geometry, 2).unwrap();

    let mut produced = 0;
    let mut batches = Vec::new();
    while let Some(notes) = driver.next_sequence() {
        produced += 1;
        if let Some(batch) = writer.push(encode(&notes)).unwrap() {
            batches.push(batch);
        }
    }
    if let Some(batch) = writer.finish().unwrap() {
        batches.push(batch);
    }

    // 4 sequences, written as 2 batches of 2 entries each
    assert_eq!(produced, 4);
    assert_eq!(batches.len(), 2);
    assert_eq!(batches[0].entries.len(), 2);
    assert_eq!(batches[1].entries.len(), 2);

    // enumeration order, content-addressed paths, one level of one character
    let all: Vec<&str> = batches
        .iter()
        .flat_map(|b| b.entries.iter().map(|e| e.path.as_str()))
        .collect();
    assert_eq!(
        all,
        vec![
            "target/3/3c3c.mid",
            "target/3/3c3e.mid",
            "target/3/3e3c.mid",
            "target/3/3e3e.mid",
        ]
    );
}
