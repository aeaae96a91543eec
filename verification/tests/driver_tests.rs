use atm::driver::{default_max_count, GenerationDriver};
use atm::errors::AtmError;
use atm::generator::SequenceGenerator;

#[test]
fn test_driver_stops_at_max_count() {
    let g = SequenceGenerator::new(vec![0, 1], 3, None).unwrap();
    let mut d = GenerationDriver::new(g, 3).unwrap();
    assert_eq!(d.next_sequence(), Some(vec![0, 0, 0]));
    assert_eq!(d.next_sequence(), Some(vec![0, 0, 1]));
    assert_eq!(d.next_sequence(), Some(vec![0, 1, 0]));
    assert_eq!(d.next_sequence(), None);
    assert_eq!(d.next_sequence(), None);
}

#[test]
fn test_driver_stops_at_exhaustion() {
    let g = SequenceGenerator::new(vec![0, 1], 2, None).unwrap();
    let mut d = GenerationDriver::new(g, 100).unwrap();
    let mut count = 0;
    while d.next_sequence().is_some() {
        count += 1;
    }
    assert_eq!(count, 4);
}

#[test]
fn test_driver_zero_count_rejected() {
    let g = SequenceGenerator::new(vec![0, 1], 2, None).unwrap();
    assert_eq!(GenerationDriver::new(g, 0).unwrap_err(), AtmError::InvalidConfiguration);
}

#[test]
fn test_default_max_count_small_space() {
    assert_eq!(default_max_count(2, 3), 8);
    assert_eq!(default_max_count(1, 1_000_000), 1);
    assert_eq!(default_max_count(10, 4), 10_000);
}

#[test]
fn test_default_max_count_saturates() {
    assert_eq!(default_max_count(2, 64), u64::MAX);
    assert_eq!(default_max_count(16, 200), u64::MAX);
}
