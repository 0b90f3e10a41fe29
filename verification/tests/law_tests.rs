//! Concrete instances of the library's laws: what the writer writes, the
//! parser reads back; streaming equals one call; zigzag and UTF-8 round trips.

use rprotobuf::decode_helpers::{as_bool, as_bytes, as_sint32, as_sint64, as_string};
use rprotobuf::{Buffer, DefaultHandler, Handler, Parser, WireType, Writer};

#[derive(Debug, Clone, PartialEq, Eq)]
enum Call {
    Varint(u32, u64),
    Fixed64(u32, u64),
    Fixed32(u32, u32),
    Bytes(u32, Vec<u8>),
    IsMessage(u32, bool),
    Start(u32),
    End,
}

struct Log {
    messages: Vec<u32>,
    calls: Vec<Call>,
}

impl Log {
    fn new(messages: Vec<u32>) -> Self {
        Log { messages, calls: Vec::new() }
    }
}

impl Handler for Log {
    fn handle_varint(&mut self, field_number: u32, value: u64) {
        self.calls.push(Call::Varint(field_number, value));
    }

    fn handle_fixed64(&mut self, field_number: u32, value: u64) {
        self.calls.push(Call::Fixed64(field_number, value));
    }

    fn handle_fixed32(&mut self, field_number: u32, value: u32) {
        self.calls.push(Call::Fixed32(field_number, value));
    }

    fn handle_bytes(&mut self, field_number: u32, data: &[u8]) {
        self.calls.push(Call::Bytes(field_number, data.to_vec()));
    }

    fn is_message(&self, field_number: u32) -> bool {
        self.messages.contains(&field_number)
    }

    fn start_message(&mut self, field_number: u32) {
        self.calls.push(Call::Start(field_number));
    }

    fn end_message(&mut self) {
        self.calls.push(Call::End);
    }
}

fn parse_all(data: &[u8], messages: Vec<u32>) -> Vec<Call> {
    let mut log = Log::new(messages);
    {
        let mut parser = Parser::new(&mut log);
        let mut input = data;
        parser.receive(&mut input).unwrap();
        assert!(input.is_empty());
        parser.close().unwrap();
    }
    log.calls
}

#[test]
fn written_fields_read_back_in_order() {
    let mut w = Writer::buffer(64);
    w.write_varint_field(1, u64::MAX).unwrap();
    w.write_fixed64_field(2, 0xdead_beef_0000_0001).unwrap();
    w.write_fixed32_field(3, 0x8000_0001).unwrap();
    w.write_bytes_field(4, &[0, 255, 7]).unwrap();
    w.write_varint_field(0x1fff_ffff, 5).unwrap();
    w.write_bytes_field(6, &[]).unwrap();
    let data = w.finish();
    let calls = parse_all(&data, Vec::new());
    assert_eq!(
        calls,
        vec![
            Call::Varint(1, u64::MAX),
            Call::Fixed64(2, 0xdead_beef_0000_0001),
            Call::Fixed32(3, 0x8000_0001),
            Call::Bytes(4, vec![0, 255, 7]),
            Call::Varint(0x1fff_ffff, 5),
            Call::Bytes(6, vec![]),
        ]
    );
}

#[test]
fn written_message_reads_back_as_start_fields_end() {
    let mut w = Writer::buffer(64);
    w.write_message_field(7, |inner| {
        inner.write_varint_field(1, 300)?;
        inner.write_string_field(2, "x")
    })
    .unwrap();
    w.write_varint_field(8, 1).unwrap();
    let data = w.finish();
    let calls = parse_all(&data, vec![7]);
    assert_eq!(
        calls,
        vec![
            Call::Start(7),
            Call::Varint(1, 300),
            Call::Bytes(2, b"x".to_vec()),
            Call::End,
            Call::Varint(8, 1),
        ]
    );
}

#[test]
fn streaming_byte_by_byte_equals_one_call() {
    let mut w = Writer::buffer(64);
    w.write_varint_field(1, 16384).unwrap();
    w.write_message_field(2, |inner| {
        inner.write_fixed64_field(1, 9)?;
        inner.write_bytes_field(5, &[1, 2, 3])
    })
    .unwrap();
    w.write_fixed32_field(3, 77).unwrap();
    w.write_string_field(4, "tail").unwrap();
    let data = w.finish();
    let whole = parse_all(&data, vec![2]);

    let mut log = Log::new(vec![2]);
    {
        let mut parser = Parser::new(&mut log);
        let mut pending: Vec<u8> = Vec::new();
        for byte in &data {
            pending.push(*byte);
            let mut input = pending.as_slice();
            parser.receive(&mut input).unwrap();
            let left = input.to_vec();
            pending = left;
        }
        assert!(pending.is_empty());
        assert!(!parser.is_underflow());
        parser.close().unwrap();
    }
    assert_eq!(log.calls, whole);
}

#[test]
fn underflow_leaves_the_incomplete_field_in_place() {
    let mut w = Writer::buffer(32);
    w.write_varint_field(1, 5).unwrap();
    w.write_fixed64_field(2, 1).unwrap();
    let data = w.finish();
    let cut = &data[..data.len() - 1];
    let mut log = Log::new(Vec::new());
    let mut parser = Parser::new(&mut log);
    let mut input = cut;
    parser.receive(&mut input).unwrap();
    assert!(parser.is_underflow());
    assert_eq!(input, &data[2..data.len() - 1]);
    assert!(parser.close().is_err());
}

#[test]
fn varints_read_back() {
    let values = [0u64, 1, 127, 128, 255, 300, 16383, 16384, 1 << 35, u64::MAX - 1, u64::MAX];
    for v in values {
        let mut w = Writer::buffer(16);
        w.write_varint_field(9, v).unwrap();
        let data = w.finish();
        assert_eq!(data.len(), 1 + Writer::<Buffer>::varint_size(v));
        assert_eq!(parse_all(&data, Vec::new()), vec![Call::Varint(9, v)]);
    }
}

#[test]
fn zigzag_values_read_back() {
    let values = [0i64, -1, 1, -2, 2, i64::MAX, i64::MIN, -300, 300];
    for v in values {
        let mut w = Writer::buffer(16);
        w.write_svarint_field(1, v).unwrap();
        let data = w.finish();
        match parse_all(&data, Vec::new()).as_slice() {
            [Call::Varint(1, raw)] => assert_eq!(as_sint64(*raw), v),
            other => panic!("unexpected calls {:?}", other),
        }
    }
    let values32 = [0i32, -1, 1, i32::MAX, i32::MIN, -70000];
    for v in values32 {
        let mut w = Writer::buffer(16);
        w.write_svarint32(v).unwrap();
        let data = w.finish();
        let mut input = data.as_slice();
        let mut log = Log::new(Vec::new());
        let mut framed = Writer::buffer(16);
        framed.write_tag(1, rprotobuf::WIRETYPE_VARINT).unwrap();
        let mut bytes = framed.finish();
        bytes.extend_from_slice(input);
        input = &[];
        let _ = input;
        {
            let mut parser = Parser::new(&mut log);
            let mut whole = bytes.as_slice();
            parser.receive(&mut whole).unwrap();
        }
        match log.calls.as_slice() {
            [Call::Varint(1, raw)] => assert_eq!(as_sint32(*raw), v),
            other => panic!("unexpected calls {:?}", other),
        }
    }
    assert_eq!(as_sint64(3), -2);
    assert_eq!(as_sint32(0x1_0000_0003), -2);
}

#[test]
fn strings_read_back() {
    let text = "héllo ✓ 𝄞";
    let mut w = Writer::buffer(32);
    w.write_string_field(1, text).unwrap();
    let data = w.finish();
    match parse_all(&data, Vec::new()).as_slice() {
        [Call::Bytes(1, bytes)] => assert_eq!(as_string(bytes).unwrap(), text),
        other => panic!("unexpected calls {:?}", other),
    }
    assert!(as_string(&[0xff, 0xfe]).is_err());
    assert!(as_string(&[0xed, 0xa0, 0x80]).is_err());
    assert_eq!(as_bytes(&[1, 2]), vec![1, 2]);
    assert!(as_bool(2));
    assert!(!as_bool(0));
}

#[test]
fn bytes_written_counts_every_byte() {
    let mut w = Writer::buffer(8);
    assert_eq!(w.bytes_written(), 0);
    w.write_varint_field(1, 150).unwrap();
    assert_eq!(w.bytes_written(), 3);
    w.write_string_field(2, "abc").unwrap();
    assert_eq!(w.bytes_written(), 8);
    w.write_encoded_message_field(3, &[]).unwrap();
    assert_eq!(w.bytes_written(), 8);
    let out = w.into_inner().into_vec();
    assert_eq!(out.len(), 8);
}

#[test]
fn empty_message_writes_nothing() {
    let mut w = Writer::buffer(8);
    w.write_message_field(4, |_inner| Ok(())).unwrap();
    w.write_encoded_message_field(5, &[]).unwrap();
    assert_eq!(w.finish(), Vec::<u8>::new());
    let mut w = Writer::buffer(8);
    w.write_encoded_message_field(5, &[0x08, 0x01]).unwrap();
    assert_eq!(w.finish(), vec![0x2A, 0x02, 0x08, 0x01]);
}

#[test]
fn wire_type_from_tag() {
    assert_eq!(WireType::from_tag(0x08), Some(WireType::Varint));
    assert_eq!(WireType::from_tag(0x09), Some(WireType::I64));
    assert_eq!(WireType::from_tag(0x0A), Some(WireType::Len));
    assert_eq!(WireType::from_tag(0x0D), Some(WireType::I32));
    assert_eq!(WireType::from_tag(0x0B), None);
    assert_eq!(WireType::from_tag(0x0F), None);
    assert_eq!(WireType::I32.number(), 5);
}

#[test]
fn default_handler_accepts_everything() {
    let mut w = Writer::buffer(32);
    w.write_varint_field(1, 1).unwrap();
    w.write_bytes_field(2, &[9]).unwrap();
    let data = w.finish();
    let mut handler = DefaultHandler;
    let mut parser = Parser::new(&mut handler);
    let mut input = data.as_slice();
    parser.receive(&mut input).unwrap();
    parser.close().unwrap();
}

#[test]
fn default_handler_reads_length_delimited_as_bytes() {
    let mut w = Writer::buffer(32);
    w.write_bytes_field(1, &[1, 2, 3, 4]).unwrap();
    let data = w.finish();
    let mut handler = DefaultHandler;
    let mut parser = Parser::new(&mut handler);
    let mut input = data.as_slice();
    parser.receive(&mut input).unwrap();
    assert!(input.is_empty());
    assert!(!parser.is_underflow());
    assert!(parser.close().is_ok());
}

#[test]
fn handler_behind_dyn() {
    let mut log = Log::new(vec![]);
    {
        let handler: &mut dyn Handler = &mut log;
        let mut parser = Parser::new(handler);
        let mut input = &[0x08u8, 0x96, 0x01][..];
        parser.receive(&mut input).unwrap();
        parser.close().unwrap();
    }
    assert_eq!(log.calls, vec![Call::Varint(1, 150)]);
}

#[test]
fn resume_at_field_boundary() {
    let mut w = Writer::buffer(64);
    w.write_varint_field(1, 300).unwrap();
    w.write_message_field(2, |inner| inner.write_string_field(3, "ab")).unwrap();
    w.write_fixed32_field(4, 7).unwrap();
    let data = w.finish();
    let whole = parse_all(&data, vec![2]);
    // The first chunk ends exactly after the varint field.
    let cut = 3;
    let mut log = Log::new(vec![2]);
    let mut parser = Parser::new(&mut log);
    let mut first = &data[..cut];
    parser.receive(&mut first).unwrap();
    assert!(first.is_empty());
    assert!(!parser.is_underflow());
    let mut second = &data[cut..];
    parser.receive(&mut second).unwrap();
    assert!(second.is_empty());
    parser.close().unwrap();
    assert_eq!(log.calls, whole);
}

#[test]
fn unclosed_message_is_counted() {
    let mut log = Log::new(vec![1]);
    let mut parser = Parser::new(&mut log);
    let mut input = &[0x0Au8, 0x03, 0x08, 0x01][..];
    parser.receive(&mut input).unwrap();
    assert!(!parser.is_underflow());
    let err = parser.close().unwrap_err();
    assert_eq!(err.message(), "unclosed embedded messages: 1");
    assert_eq!(log.calls, vec![Call::Start(1), Call::Varint(1, 1)]);
}
