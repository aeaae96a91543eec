use atm::errors::AtmError;
use atm::generator::SequenceGenerator;

fn collect_all(alphabet: Vec<u8>, length: usize) -> Vec<Vec<u8>> {
    let mut g = SequenceGenerator::new(alphabet, length, None).unwrap();
    let mut out = Vec::new();
    while let Some(s) = g.next() {
        out.push(s);
    }
    out
}

#[test]
fn test_order_two_symbols_length_three() {
    let seqs = collect_all(vec![b'A', b'B'], 3);
    let expected: Vec<&[u8]> = vec![
        b"AAA", b"AAB", b"ABA", b"ABB", b"BAA", b"BAB", b"BBA", b"BBB",
    ];
    assert_eq!(seqs.len(), expected.len());
    for (got, want) in seqs.iter().zip(expected.iter()) {
        assert_eq!(got.as_slice(), *want);
    }
}

#[test]
fn test_full_space_distinct_and_sized() {
    let seqs = collect_all(vec![1, 2, 3], 2);
    assert_eq!(seqs.len(), 9);
    for s in &seqs {
        assert_eq!(s.len(), 2);
        for sym in s {
            assert!([1u8, 2, 3].contains(sym));
        }
    }
    for i in 0..seqs.len() {
        for j in (i + 1)..seqs.len() {
            assert_ne!(seqs[i], seqs[j]);
        }
    }
}

#[test]
fn test_exhaustion_is_stable() {
    let mut g = SequenceGenerator::new(vec![7], 1, None).unwrap();
    assert_eq!(g.next(), Some(vec![7]));
    assert_eq!(g.next(), None);
    assert_eq!(g.next(), None);
}

#[test]
fn test_restart_matches_enumeration() {
    let direct = collect_all(vec![b'A', b'B'], 3);
    for i in 0..direct.len() {
        let mut g = SequenceGenerator::from_index(vec![b'A', b'B'], 3, i as u128).unwrap();
        assert_eq!(g.next(), Some(direct[i].clone()));
    }
}

#[test]
fn test_restart_resumes_to_the_end() {
    let direct = collect_all(vec![10, 20, 30], 3);
    let mut g = SequenceGenerator::from_index(vec![10, 20, 30], 3, 20).unwrap();
    for i in 20..direct.len() {
        assert_eq!(g.next(), Some(direct[i].clone()));
    }
    assert_eq!(g.next(), None);
}

#[test]
fn test_empty_alphabet_rejected() {
    assert_eq!(
        SequenceGenerator::new(vec![], 3, None).unwrap_err(),
        AtmError::InvalidConfiguration
    );
}

#[test]
fn test_zero_length_rejected() {
    assert_eq!(
        SequenceGenerator::new(vec![1, 2], 0, None).unwrap_err(),
        AtmError::InvalidConfiguration
    );
}

#[test]
fn test_repeated_symbol_rejected() {
    assert_eq!(
        SequenceGenerator::new(vec![5, 9, 5], 2, None).unwrap_err(),
        AtmError::InvalidConfiguration
    );
}

#[test]
fn test_length_below_minimum_rejected() {
    assert_eq!(
        SequenceGenerator::new(vec![1, 2, 3, 4], 3, Some(4)).unwrap_err(),
        AtmError::InvalidConfiguration
    );
    assert!(SequenceGenerator::new(vec![1, 2, 3, 4], 4, Some(4)).is_ok());
}

#[test]
fn test_restart_index_out_of_range_rejected() {
    assert_eq!(
        SequenceGenerator::from_index(vec![1, 2], 2, 4).unwrap_err(),
        AtmError::InvalidConfiguration
    );
    assert!(SequenceGenerator::from_index(vec![1, 2], 2, 3).is_ok());
}
