//! Every error the parser and writer report, with the input that causes it.

use rprotobuf::{ByteSink, Handler, ParseError, ParseErrorKind, Parser, WriteError, Writer};

struct Quiet;

impl Handler for Quiet {}

struct Nested;

impl Handler for Nested {
    fn is_message(&self, _field_number: u32) -> bool {
        true
    }
}

fn receive_err(data: &[u8]) -> (ParseError, usize) {
    let mut handler = Quiet;
    let mut parser = Parser::new(&mut handler);
    let mut input = data;
    let err = parser.receive(&mut input).unwrap_err();
    (err, data.len() - input.len())
}

#[test]
fn tag_varint_too_long() {
    let data = [0xFFu8; 11];
    let (err, consumed) = receive_err(&data);
    assert_eq!(err.kind(), ParseErrorKind::VarintTooLong);
    assert_eq!(err.message(), "varint too long");
    assert_eq!(consumed, 10);
}

#[test]
fn value_varint_too_long() {
    let mut data = vec![0x08u8];
    data.extend_from_slice(&[0x80; 10]);
    let (err, consumed) = receive_err(&data);
    assert_eq!(err.kind(), ParseErrorKind::VarintTooLong);
    assert_eq!(consumed, 11);
}

#[test]
fn negative_length() {
    let mut data = vec![0x0Au8];
    data.extend_from_slice(&[0xFF; 9]);
    data.push(0x01);
    let (err, consumed) = receive_err(&data);
    assert_eq!(err.kind(), ParseErrorKind::NegativeLength(-1));
    assert_eq!(err.message(), "negative length-delimited field size: -1");
    assert_eq!(consumed, 11);

    let mut data = vec![0x0Au8];
    data.extend_from_slice(&[0x80; 9]);
    data.push(0x01);
    let (err, _) = receive_err(&data);
    assert_eq!(err.kind(), ParseErrorKind::NegativeLength(i64::MIN));
    assert_eq!(
        err.message(),
        "negative length-delimited field size: -9223372036854775808"
    );
}

#[test]
fn unknown_wire_types() {
    for (tag, wire_type) in [(0x0Bu8, 3u8), (0x0C, 4), (0x0E, 6), (0x0F, 7)] {
        let (err, consumed) = receive_err(&[tag, 0x00]);
        assert_eq!(err.kind(), ParseErrorKind::UnknownWireType(wire_type));
        assert_eq!(err.message(), format!("unknown wire type: {}", wire_type));
        assert_eq!(consumed, 1);
    }
}

#[test]
fn field_number_zero() {
    let (err, consumed) = receive_err(&[0x00, 0x01]);
    assert_eq!(err.kind(), ParseErrorKind::InvalidFieldNumber);
    assert_eq!(err.message(), "invalid field number 0");
    assert_eq!(consumed, 1);
}

#[test]
fn close_reports_unclosed_messages() {
    let mut data = Vec::new();
    for _ in 0..12 {
        data.extend_from_slice(&[0x0A, 0x05]);
    }
    let mut handler = Nested;
    let mut parser = Parser::new(&mut handler);
    let mut input = data.as_slice();
    parser.receive(&mut input).unwrap();
    assert!(!parser.is_underflow());
    let err = parser.close().unwrap_err();
    assert_eq!(err.kind(), ParseErrorKind::UnclosedMessages(12));
    assert_eq!(err.message(), "unclosed embedded messages: 12");
    parser.reset();
    parser.close().unwrap();
}

#[test]
fn close_reports_incomplete_field() {
    let mut handler = Quiet;
    let mut parser = Parser::new(&mut handler);
    let mut input: &[u8] = &[0x0D, 0x01, 0x02];
    parser.receive(&mut input).unwrap();
    assert_eq!(input.len(), 3);
    let err = parser.close().unwrap_err();
    assert_eq!(err.kind(), ParseErrorKind::IncompleteField);
    assert_eq!(err.message(), "incomplete field at end of input");
}

#[test]
fn custom_parse_error() {
    let err = ParseError::new("bad input");
    assert_eq!(err.kind(), ParseErrorKind::Other);
    assert_eq!(err.message(), "bad input");
    let err = ParseError::from_kind(ParseErrorKind::UnclosedMessages(0));
    assert_eq!(err.message(), "unclosed embedded messages: 0");
}

struct Broken;

impl ByteSink for Broken {
    fn write_all(&mut self, _data: &[u8]) -> Result<(), std::io::Error> {
        Err(std::io::Error::new(std::io::ErrorKind::BrokenPipe, "closed"))
    }
}

#[test]
fn sink_failure_is_a_write_error() {
    let mut w = Writer::new(Broken);
    let err = w.write_varint_field(1, 1).unwrap_err();
    assert_eq!(err.into_source().kind(), std::io::ErrorKind::BrokenPipe);
    assert_eq!(w.bytes_written(), 0);
}

#[test]
fn failing_message_body_writes_nothing() {
    let mut w = Writer::buffer(16);
    w.write_varint_field(1, 5).unwrap();
    let r = w.write_message_field(2, |inner| {
        inner.write_varint_field(1, 1)?;
        Err(WriteError::new(std::io::Error::new(std::io::ErrorKind::Other, "stop")))
    });
    let err = r.unwrap_err();
    assert_eq!(err.into_source().to_string(), "stop");
    assert_eq!(w.bytes_written(), 2);
    assert_eq!(w.finish(), vec![0x08, 0x05]);
}

#[test]
fn parse_errors_compare_by_message() {
    let (err, _) = receive_err(&[0xFF, 0xFF, 0xFF, 0xFF, 0xFF, 0xFF, 0xFF, 0xFF, 0xFF, 0xFF]);
    assert_eq!(err.kind(), ParseErrorKind::VarintTooLong);
    assert_eq!(err, ParseError::new("varint too long"));
    assert_ne!(err, ParseError::new("varint too short"));
}
