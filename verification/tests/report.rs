use prime_report::report::enumerate_and_report;
use prime_report::report::parse_report;
use prime_report::report::report_lines;

#[test]
fn report_is_one_decimal_per_line() {
    let values = vec![2u32, 3, 5, 7, 11];
    let bytes = report_lines(&values);
    assert_eq!(bytes, b"2\n3\n5\n7\n11\n".to_vec());
}

#[test]
fn report_of_empty_sequence_is_empty() {
    let bytes = report_lines(&Vec::new());
    assert!(bytes.is_empty());
}

#[test]
fn round_trip_restores_the_sequence() {
    let (primes, bytes) = enumerate_and_report(1, 100);
    let parsed = parse_report(&bytes).expect("a rendered report parses");
    assert_eq!(parsed, primes);
}

#[test]
fn round_trip_on_large_values() {
    let values = vec![0u32, 1, 9, 10, 4294967295];
    let bytes = report_lines(&values);
    assert_eq!(parse_report(&bytes), Some(values));
}

#[test]
fn writing_twice_yields_the_same_artifact() {
    let values = primes_from(1, 100);
    let first = report_lines(&values);
    let second = report_lines(&values);
    assert_eq!(first, second);
}

fn primes_from(start: u32, end: u32) -> Vec<u32> {
    prime_report::primes::primes_in_range(start, end)
}

#[test]
fn parse_of_empty_artifact_is_empty_sequence() {
    assert_eq!(parse_report(&Vec::new()), Some(Vec::new()));
}

#[test]
fn parse_rejects_missing_final_newline() {
    assert_eq!(parse_report(&b"2".to_vec()), None);
    assert_eq!(parse_report(&b"2\n3".to_vec()), None);
}

#[test]
fn parse_rejects_empty_line() {
    assert_eq!(parse_report(&b"\n".to_vec()), None);
    assert_eq!(parse_report(&b"2\n\n3\n".to_vec()), None);
}

#[test]
fn parse_rejects_non_digit() {
    assert_eq!(parse_report(&b"2a\n".to_vec()), None);
    assert_eq!(parse_report(&b"-3\n".to_vec()), None);
    assert_eq!(parse_report(&b"3 \n".to_vec()), None);
}

#[test]
fn parse_rejects_value_above_u32() {
    assert_eq!(parse_report(&b"4294967296\n".to_vec()), None);
    assert_eq!(parse_report(&b"99999999999999999999\n".to_vec()), None);
}

#[test]
fn parse_accepts_largest_u32() {
    assert_eq!(parse_report(&b"4294967295\n".to_vec()), Some(vec![4294967295u32]));
}

#[test]
fn enumerate_and_report_pairs_sequence_with_artifact() {
    let (primes, bytes) = enumerate_and_report(1, 20);
    assert_eq!(primes, vec![2, 3, 5, 7, 11, 13, 17, 19]);
    assert_eq!(bytes, report_lines(&primes));
    assert_eq!(bytes, b"2\n3\n5\n7\n11\n13\n17\n19\n".to_vec());
}
