use dedup_index::byte_size::{parse_size, ByteSize, ByteSizeValueParser};
use dedup_index::errors::AppError;

fn bytes_of(literal: &str) -> Option<u64> {
    ByteSizeValueParser::new().parse(literal).ok().map(|size| size.bytes())
}

#[test]
fn bare_number_is_bytes() {
    assert_eq!(bytes_of("10"), Some(10));
    assert!(matches!(parse_size("10"), Some(ByteSize::Byte(10))));
}

#[test]
fn decimal_kilobytes() {
    assert_eq!(bytes_of("10KB"), Some(10_000));
    assert_eq!(bytes_of("10K"), Some(10_000));
}

#[test]
fn binary_kibibytes() {
    assert_eq!(bytes_of("10KiB"), Some(10_240));
    assert!(matches!(parse_size("10KiB"), Some(ByteSize::KiByte(10))));
}

#[test]
fn every_unit() {
    assert_eq!(bytes_of("7B"), Some(7));
    assert_eq!(bytes_of("3MB"), Some(3_000_000));
    assert_eq!(bytes_of("3M"), Some(3_000_000));
    assert_eq!(bytes_of("3MiB"), Some(3 * 1_048_576));
    assert_eq!(bytes_of("2GB"), Some(2_000_000_000));
    assert_eq!(bytes_of("2G"), Some(2_000_000_000));
    assert_eq!(bytes_of("2GiB"), Some(2 * 1_073_741_824));
    assert_eq!(bytes_of("4TB"), Some(4_000_000_000_000));
    assert_eq!(bytes_of("4T"), Some(4_000_000_000_000));
    assert_eq!(bytes_of("4TiB"), Some(4 * 1_099_511_627_776));
}

#[test]
fn unknown_unit_is_refused() {
    let err = ByteSizeValueParser::new().parse("10XB").err().unwrap();
    match err {
        AppError::Abort(abort) => assert_eq!(
            abort.message,
            "Unknown \"10XB\", expected [number](KB,KiB,MB,MiB,GB,GiB,TB,TiB)"
        ),
        AppError::Caught(_) => panic!("expected a user-facing error"),
    }
}

#[test]
fn malformed_literals_are_refused() {
    assert_eq!(bytes_of(""), None);
    assert_eq!(bytes_of("KB"), None);
    assert_eq!(bytes_of("kb"), None);
    assert_eq!(bytes_of("10kb"), None);
    assert_eq!(bytes_of("1.5KB"), None);
    assert_eq!(bytes_of("1 KB"), None);
    assert_eq!(bytes_of("10KiBB"), None);
    assert_eq!(bytes_of("-10"), None);
}

#[test]
fn literals_that_overflow_are_refused() {
    assert_eq!(bytes_of("18446744073709551615"), Some(u64::MAX));
    assert_eq!(bytes_of("18446744073709551616"), None);
    assert_eq!(bytes_of("20000000TB"), None);
    assert_eq!(bytes_of("18446744TB"), Some(18_446_744_000_000_000_000));
}

#[test]
fn fits_tells_oversized_values() {
    assert!(ByteSize::TiByte(16_777_215).fits());
    assert!(!ByteSize::TiByte(16_777_216).fits());
    assert_eq!(ByteSize::Byte(u64::MAX).bytes(), u64::MAX);
}
