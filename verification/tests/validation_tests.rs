use station_stats::parse::ParseError;
use station_stats::validation::{validate, LineError};

const RECORDS: &[u8] =
    b"Oslo;5.0\nHamburg;12.0\nBergen;-3.4\nOslo;10.0\n\nHamburg;25.3\nOslo;15.0\nBergen;7.1\nAlta;0.0\n";

#[test]
fn validate_accepts_records_and_blank_lines() {
    assert_eq!(validate(RECORDS), Ok(()));
    assert_eq!(validate(b""), Ok(()));
    assert_eq!(validate(b"\n\n"), Ok(()));
    assert_eq!(validate(b"Oslo;5.0"), Ok(()));
}

#[test]
fn validate_names_the_first_bad_line() {
    assert_eq!(
        validate(b"Oslo;5.0\nBergen\nAlta;x\n"),
        Err(LineError { start: 9, end: 15, kind: ParseError::MissingValue })
    );
    assert_eq!(
        validate(b"Oslo;5.0\n\n;1.0\n"),
        Err(LineError { start: 10, end: 14, kind: ParseError::MissingKey })
    );
    assert_eq!(
        validate(b"Oslo;5.00"),
        Err(LineError { start: 0, end: 9, kind: ParseError::InvalidValue })
    );
    assert_eq!(
        validate(b"Oslo;5.0\r\nBergen;1.0\r\n"),
        Err(LineError { start: 0, end: 9, kind: ParseError::InvalidValue })
    );
}
