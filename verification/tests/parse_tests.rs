use station_stats::parse::{
    parse_line, parse_line_fast, ParseError, MINUS, NINE, POINT, SEPARATOR, ZERO,
};
use station_stats::report::push_tenths;

#[test]
fn bytes_of_the_grammar() {
    assert_eq!(SEPARATOR, b';');
    assert_eq!(POINT, b'.');
    assert_eq!(MINUS, b'-');
    assert_eq!(ZERO, b'0');
    assert_eq!(NINE, b'9');
}

#[test]
fn parse_line_reads_key_and_tenths() {
    assert_eq!(parse_line(b"Oslo;5.0"), Ok((&b"Oslo"[..], 50)));
    assert_eq!(parse_line(b"Hamburg;25.3"), Ok((&b"Hamburg"[..], 253)));
    assert_eq!(parse_line(b"x;0.0"), Ok((&b"x"[..], 0)));
    assert_eq!(parse_line(b"St. John's;007.9"), Ok((&b"St. John's"[..], 79)));
}

#[test]
fn parse_line_adds_the_digit_to_the_whole_part() {
    assert_eq!(parse_line(b"a;-12.0"), Ok((&b"a"[..], -120)));
    assert_eq!(parse_line(b"a;-12.3"), Ok((&b"a"[..], -117)));
    assert_eq!(parse_line(b"a;-1.5"), Ok((&b"a"[..], -5)));
    assert_eq!(parse_line(b"a;-0.5"), Ok((&b"a"[..], 5)));
    assert_eq!(parse_line(b"a;-0.0"), Ok((&b"a"[..], 0)));
}

#[test]
fn parse_line_at_the_limits() {
    assert_eq!(parse_line(b"a;2147483647.9"), Ok((&b"a"[..], 21474836479)));
    assert_eq!(parse_line(b"a;-2147483648.0"), Ok((&b"a"[..], -21474836480)));
    assert_eq!(parse_line(b"a;-2147483648.9"), Ok((&b"a"[..], -21474836471)));
    assert_eq!(parse_line(b"a;2147483648.0"), Err(ParseError::InvalidValue));
    assert_eq!(parse_line(b"a;-2147483649.0"), Err(ParseError::InvalidValue));
    assert_eq!(parse_line(b"a;99999999999999999999999999.0"), Err(ParseError::InvalidValue));
    assert_eq!(parse_line(b"a;00000000000000000000000001.0"), Ok((&b"a"[..], 10)));
}

#[test]
fn parse_line_missing_key() {
    assert_eq!(parse_line(b""), Err(ParseError::MissingKey));
    assert_eq!(parse_line(b";5.0"), Err(ParseError::MissingKey));
    assert_eq!(parse_line(b";"), Err(ParseError::MissingKey));
}

#[test]
fn parse_line_missing_value() {
    assert_eq!(parse_line(b"Oslo"), Err(ParseError::MissingValue));
    assert_eq!(parse_line(b"5.0"), Err(ParseError::MissingValue));
}

#[test]
fn parse_line_invalid_value() {
    assert_eq!(parse_line(b"Oslo;"), Err(ParseError::InvalidValue));
    assert_eq!(parse_line(b"Oslo;5"), Err(ParseError::InvalidValue));
    assert_eq!(parse_line(b"Oslo;5."), Err(ParseError::InvalidValue));
    assert_eq!(parse_line(b"Oslo;.5"), Err(ParseError::InvalidValue));
    assert_eq!(parse_line(b"Oslo;-.5"), Err(ParseError::InvalidValue));
    assert_eq!(parse_line(b"Oslo;5.00"), Err(ParseError::InvalidValue));
    assert_eq!(parse_line(b"Oslo;5.0 "), Err(ParseError::InvalidValue));
    assert_eq!(parse_line(b"Oslo;+5.0"), Err(ParseError::InvalidValue));
    assert_eq!(parse_line(b"Oslo;--5.0"), Err(ParseError::InvalidValue));
    assert_eq!(parse_line(b"Oslo;5,0"), Err(ParseError::InvalidValue));
    assert_eq!(parse_line(b"Oslo;abc"), Err(ParseError::InvalidValue));
    assert_eq!(parse_line(b"Oslo;1e3"), Err(ParseError::InvalidValue));
    assert_eq!(parse_line(b"Oslo;5.x"), Err(ParseError::InvalidValue));
    assert_eq!(parse_line(b"Oslo;5.:"), Err(ParseError::InvalidValue));
    assert_eq!(parse_line(b"Oslo;5./"), Err(ParseError::InvalidValue));
    assert_eq!(parse_line(b"Oslo;:.5"), Err(ParseError::InvalidValue));
    assert_eq!(parse_line(b"Oslo;/.5"), Err(ParseError::InvalidValue));
    assert_eq!(parse_line(b"Oslo;9.9"), Ok((&b"Oslo"[..], 99)));
    assert_eq!(parse_line(b"Oslo;5.0;6.0"), Err(ParseError::InvalidValue));
    assert_eq!(parse_line(b"Oslo;5.0\r"), Err(ParseError::InvalidValue));
}

#[test]
fn parse_line_fast_agrees_with_parse_line() {
    let lines: [&[u8]; 6] =
        [b"Oslo;5.0", b"Hamburg;-12.3", b"a;-0.5", b"a;2147483647.9", b"a;-2147483648.0", b"b c;10.1"];
    for line in lines {
        assert_eq!(Ok(parse_line_fast(line)), parse_line(line));
    }
}

#[test]
fn parse_line_fast_takes_an_empty_key() {
    assert_eq!(parse_line_fast(b";5.0"), (&b""[..], 50));
}

#[test]
fn messages_name_the_failure() {
    assert_eq!(ParseError::MissingKey.message(), "missing key field");
    assert_eq!(ParseError::MissingValue.message(), "missing value field");
    assert_eq!(ParseError::InvalidValue.message(), "value is not a valid decimal");
}

#[test]
fn written_values_read_back() {
    for t in [0i64, 1, 9, 10, 11, 99, 100, 187, 12345, 21474836479] {
        let mut line = b"k;".to_vec();
        push_tenths(&mut line, t);
        assert_eq!(parse_line(&line), Ok((&b"k"[..], t)));
    }
}

#[test]
fn written_values_below_zero_read_back_where_the_digit_is_zero() {
    for t in [-10i64, -120, -21474836480] {
        let mut line = b"k;".to_vec();
        push_tenths(&mut line, t);
        assert_eq!(parse_line(&line), Ok((&b"k"[..], t)));
    }
    let mut line = b"k;".to_vec();
    push_tenths(&mut line, -15);
    assert_eq!(line, b"k;-1.5");
    assert_eq!(parse_line(&line), Ok((&b"k"[..], -5)));
}
