//! Protobuf binary encoder.

use crate::buffer::Buffer;
use crate::error::WriteError;
use crate::sink::ByteSink;
use crate::wire::{WIRETYPE_I32, WIRETYPE_I64, WIRETYPE_LEN, WIRETYPE_VARINT};
use crate::wire_format::{
    encode_field, encode_fixed32, encode_fixed64, encode_message_field, encode_varint,
    lemma_encode_varint_len, tag_value, zigzag32, zigzag64, Field,
};
use vstd::prelude::*;
use vstd::string::StringSliceAdditionalSpecFns;

verus! {

/// Protobuf binary encoder over a byte sink.
pub struct Writer<W: ByteSink> {
    inner: W,
    bytes_written: u64,
    sent: Ghost<Seq<u8>>,
}

impl Writer<Buffer> {
    /// A writer into a fresh in-memory buffer.
    pub fn buffer(capacity: usize) -> (w: Self)
        ensures
            w.sink_bytes() == Seq::<u8>::empty(),
            w.sent() == Seq::<u8>::empty(),
            w.spec_bytes_written() == 0,
    {
        Self::new(Buffer::with_capacity(capacity))
    }

    /// The bytes written into the buffer.
    pub fn finish(self) -> (v: Vec<u8>)
        ensures
            v@ == self.sink_bytes(),
    {
        self.inner.into_vec()
    }
}

/// `count` advanced by `n`, modulo 2^64.
pub open spec fn counted(count: u64, n: nat) -> u64 {
    ((count + n) % 0x1_0000_0000_0000_0000) as u64
}

/// Counting `a` then `b` is counting `a + b`.
proof fn lemma_counted_twice(c: u64, a: nat, b: nat)
    ensures
        counted(counted(c, a), b) == counted(c, a + b),
{
    vstd::arithmetic::div_mod::lemma_add_mod_noop_right(b as int, c + a, 0x1_0000_0000_0000_0000);
}

impl<W: ByteSink> Writer<W> {
    /// The sink this writer writes into.
    pub closed spec fn sink(&self) -> W {
        self.inner
    }

    /// What the sink holds, for a reliable sink.
    pub open spec fn sink_bytes(&self) -> Seq<u8> {
        self.sink().contents()
    }

    /// Every byte handed to the sink and accepted by it, in order.
    pub closed spec fn sent(&self) -> Seq<u8> {
        self.sent@
    }

    /// The number of bytes written through this writer, modulo 2^64.
    pub closed spec fn spec_bytes_written(&self) -> u64 {
        self.bytes_written
    }

    /// `after` is `before` with `out` handed to the sink and counted; a
    /// reliable sink then holds `out` after what it held.
    pub open spec fn appended(before: Self, after: Self, out: Seq<u8>) -> bool {
        &&& after.sent() == before.sent() + out
        &&& after.spec_bytes_written() == counted(before.spec_bytes_written(), out.len())
        &&& W::reliable() ==> after.sink_bytes() == before.sink_bytes() + out
    }

    /// The count is the number of bytes the sink accepted, modulo 2^64.
    pub open spec fn counts_sent(&self) -> bool {
        self.spec_bytes_written() == counted(0, self.sent().len())
    }

    /// Every write keeps `bytes_written` equal to the number of bytes handed
    /// to the sink, modulo 2^64.
    pub proof fn law_bytes_written_counts_sent(before: Self, after: Self, out: Seq<u8>)
        requires
            before.counts_sent(),
            Self::appended(before, after, out),
        ensures
            after.counts_sent(),
    {
        lemma_counted_twice(0, before.sent().len(), out.len());
        assert(after.sent().len() == before.sent().len() + out.len());
    }

    proof fn lemma_appended_twice(w0: Self, w1: Self, w2: Self, a: Seq<u8>, b: Seq<u8>)
        requires
            Self::appended(w0, w1, a),
            Self::appended(w1, w2, b),
        ensures
            Self::appended(w0, w2, a + b),
    {
        assert(w2.sent() =~= w0.sent() + (a + b));
        assert(W::reliable() ==> w2.sink_bytes() =~= w0.sink_bytes() + (a + b));
        lemma_counted_twice(w0.spec_bytes_written(), a.len(), b.len());
    }

    /// Nothing more was sent or counted (the sink itself may have changed).
    pub open spec fn nothing_sent(before: Self, after: Self) -> bool {
        &&& after.sent() == before.sent()
        &&& after.spec_bytes_written() == before.spec_bytes_written()
    }

    /// A length-delimited field of a `len`-byte payload that failed part way:
    /// nothing of it, its tag, or its tag and length prefix was sent and counted.
    pub open spec fn stopped_in_length_field(
        before: Self,
        after: Self,
        field_number: u32,
        len: nat,
    ) -> bool {
        let tag = encode_varint(tag_value(field_number, WIRETYPE_LEN));
        ||| Self::nothing_sent(before, after)
        ||| Self::appended(before, after, tag)
        ||| Self::appended(before, after, tag + encode_varint(len as u64))
    }

    /// What `write_encoded_message_field` does with `message`: on success the
    /// message field is sent; on failure a whole part of it (nothing, its tag,
    /// or its tag and length) was; an empty message sends nothing and succeeds;
    /// a reliable sink never fails.
    pub open spec fn message_field_written(
        before: Self,
        after: Self,
        field_number: u32,
        message: Seq<u8>,
        r: Result<(), WriteError>,
    ) -> bool {
        &&& r is Ok ==> Self::appended(before, after, encode_message_field(field_number, message))
        &&& r is Err ==> Self::stopped_in_length_field(before, after, field_number, message.len())
        &&& message.len() == 0 ==> r is Ok && after == before
        &&& W::reliable() ==> r is Ok
    }

    /// A write of `a` followed by a write of `b` that succeeded (`ok`) or sent nothing.
    proof fn lemma_second_part(w0: Self, w1: Self, w2: Self, a: Seq<u8>, b: Seq<u8>, ok: bool)
        requires
            Self::appended(w0, w1, a),
            ok ==> Self::appended(w1, w2, b),
            !ok ==> Self::nothing_sent(w1, w2) && !W::reliable(),
        ensures
            ok ==> Self::appended(w0, w2, a + b),
            !ok ==> Self::appended(w0, w2, a),
    {
        if ok {
            Self::lemma_appended_twice(w0, w1, w2, a, b);
        }
    }

    /// A writer over `inner`, with nothing counted yet.
    pub fn new(inner: W) -> (w: Self)
        ensures
            w.sink() == inner,
            w.sent() == Seq::<u8>::empty(),
            w.spec_bytes_written() == 0,
            w.counts_sent(),
    {
        Writer { inner, bytes_written: 0, sent: Ghost(Seq::empty()) }
    }

    /// Bytes written through this writer so far (wrapping at 2^64).
    pub fn bytes_written(&self) -> (n: u64)
        ensures
            n == self.spec_bytes_written(),
    {
        self.bytes_written
    }

    /// The sink, with what was written to it.
    pub fn into_inner(self) -> (inner: W)
        ensures
            inner == self.sink(),
    {
        self.inner
    }

    fn write_all(&mut self, data: &[u8]) -> (r: Result<(), WriteError>)
        ensures
            r is Ok ==> Self::appended(*old(self), *final(self), data@),
            r is Err ==> Self::nothing_sent(*old(self), *final(self)),
            W::reliable() ==> r is Ok,
    {
        match self.inner.write_all(data) {
            Ok(()) => {
                assert(self.bytes_written.wrapping_add(data.len() as u64) == counted(
                    self.bytes_written,
                    data@.len(),
                ));
                self.bytes_written = self.bytes_written.wrapping_add(data.len() as u64);
                self.sent = Ghost(self.sent@ + data@);
                Ok(())
            },
            Err(e) => Err(WriteError::new(e)),
        }
    }

    /// Write a field tag: the field number shifted left by three, with the wire type.
    pub fn write_tag(&mut self, field_number: u32, wire_type: u8) -> (r: Result<(), WriteError>)
        ensures
            r is Ok ==> Self::appended(
                *old(self),
                *final(self),
                encode_varint(tag_value(field_number, wire_type)),
            ),
            r is Err ==> Self::nothing_sent(*old(self), *final(self)),
            W::reliable() ==> r is Ok,
    {
        self.write_varint(((field_number << 3) | (wire_type as u32)) as u64)
    }

    /// Write `value` as a base-128 varint.
    pub fn write_varint(&mut self, value: u64) -> (r: Result<(), WriteError>)
        ensures
            r is Ok ==> Self::appended(*old(self), *final(self), encode_varint(value)),
            r is Err ==> Self::nothing_sent(*old(self), *final(self)),
            W::reliable() ==> r is Ok,
    {
        let mut chunk: Vec<u8> = Vec::new();
        let mut rest = value;
        loop
            invariant_except_break
                chunk@ + encode_varint(rest) == encode_varint(value),
            ensures
                chunk@ == encode_varint(value),
            decreases rest,
        {
            if (rest & !0x7F) == 0 {
                assert(rest & !0x7Fu64 == 0 ==> rest < 128) by (bit_vector);
                chunk.push(rest as u8);
                assert(chunk@ =~= encode_varint(value));
                break ;
            }
            assert(rest & !0x7Fu64 != 0 ==> rest >= 128) by (bit_vector);
            assert((((rest & 0x7F) as u8) | 0x80) == (((rest & 0x7f) | 0x80) as u8)) by (bit_vector);
            assert(rest >= 128 ==> rest >> 7u64 < rest) by (bit_vector);
            let ghost before = chunk@;
            chunk.push(((rest & 0x7F) as u8) | 0x80);
            assert(chunk@ + encode_varint(rest >> 7) =~= before + encode_varint(rest));
            rest = rest >> 7;
        }
        self.write_all(chunk.as_slice())
    }

    /// Write a signed value zigzag-encoded as a varint.
    pub fn write_svarint(&mut self, value: i64) -> (r: Result<(), WriteError>)
        ensures
            r is Ok ==> Self::appended(*old(self), *final(self), encode_varint(zigzag64(value))),
            r is Err ==> Self::nothing_sent(*old(self), *final(self)),
            W::reliable() ==> r is Ok,
    {
        assert(((value << 1) ^ (value >> 63)) as u64 == zigzag64(value)) by (bit_vector);
        let encoded = ((value << 1) ^ (value >> 63)) as u64;
        self.write_varint(encoded)
    }

    /// Write a signed 32-bit value zigzag-encoded as a varint.
    pub fn write_svarint32(&mut self, value: i32) -> (r: Result<(), WriteError>)
        ensures
            r is Ok ==> Self::appended(
                *old(self),
                *final(self),
                encode_varint(zigzag32(value) as u64),
            ),
            r is Err ==> Self::nothing_sent(*old(self), *final(self)),
            W::reliable() ==> r is Ok,
    {
        assert(((value << 1) ^ (value >> 31)) as u32 == zigzag32(value)) by (bit_vector);
        let encoded = ((value << 1) ^ (value >> 31)) as u32 as u64;
        self.write_varint(encoded)
    }

    /// Write eight little-endian bytes.
    pub fn write_fixed64(&mut self, value: u64) -> (r: Result<(), WriteError>)
        ensures
            r is Ok ==> Self::appended(*old(self), *final(self), encode_fixed64(value)),
            r is Err ==> Self::nothing_sent(*old(self), *final(self)),
            W::reliable() ==> r is Ok,
    {
        let bytes = vec![
            value as u8,
            (value >> 8) as u8,
            (value >> 16) as u8,
            (value >> 24) as u8,
            (value >> 32) as u8,
            (value >> 40) as u8,
            (value >> 48) as u8,
            (value >> 56) as u8,
        ];
        assert(bytes@ =~= encode_fixed64(value));
        self.write_all(bytes.as_slice())
    }

    /// Write four little-endian bytes.
    pub fn write_fixed32(&mut self, value: u32) -> (r: Result<(), WriteError>)
        ensures
            r is Ok ==> Self::appended(*old(self), *final(self), encode_fixed32(value)),
            r is Err ==> Self::nothing_sent(*old(self), *final(self)),
            W::reliable() ==> r is Ok,
    {
        let bytes = vec![value as u8, (value >> 8) as u8, (value >> 16) as u8, (value >> 24) as u8];
        assert(bytes@ =~= encode_fixed32(value));
        self.write_all(bytes.as_slice())
    }

    /// Write a varint field.
    pub fn write_varint_field(&mut self, field_number: u32, value: u64) -> (r: Result<
        (),
        WriteError,
    >)
        ensures
            r is Ok ==> Self::appended(
                *old(self),
                *final(self),
                encode_field(Field::Varint { field_number, value }),
            ),
            r is Err ==> Self::nothing_sent(*old(self), *final(self)) || Self::appended(
                *old(self),
                *final(self),
                encode_varint(tag_value(field_number, WIRETYPE_VARINT)),
            ),
            W::reliable() ==> r is Ok,
    {
        let ghost w0 = *self;
        match self.write_tag(field_number, WIRETYPE_VARINT) {
            Ok(()) => {},
            Err(e) => return Err(e),
        }
        let ghost w1 = *self;
        let r = self.write_varint(value);
        proof {
            Self::lemma_second_part(
                w0,
                w1,
                *self,
                encode_varint(tag_value(field_number, WIRETYPE_VARINT)),
                encode_varint(value),
                r is Ok,
            );
        }
        r
    }

    /// Write a signed varint field, zigzag-encoded.
    pub fn write_svarint_field(&mut self, field_number: u32, value: i64) -> (r: Result<
        (),
        WriteError,
    >)
        ensures
            r is Ok ==> Self::appended(
                *old(self),
                *final(self),
                encode_field(Field::Varint { field_number, value: zigzag64(value) }),
            ),
            r is Err ==> Self::nothing_sent(*old(self), *final(self)) || Self::appended(
                *old(self),
                *final(self),
                encode_varint(tag_value(field_number, WIRETYPE_VARINT)),
            ),
            W::reliable() ==> r is Ok,
    {
        let ghost w0 = *self;
        match self.write_tag(field_number, WIRETYPE_VARINT) {
            Ok(()) => {},
            Err(e) => return Err(e),
        }
        let ghost w1 = *self;
        let r = self.write_svarint(value);
        proof {
            Self::lemma_second_part(
                w0,
                w1,
                *self,
                encode_varint(tag_value(field_number, WIRETYPE_VARINT)),
                encode_varint(zigzag64(value)),
                r is Ok,
            );
        }
        r
    }

    /// Write a bool field as the varint 1 or 0.
    pub fn write_bool_field(&mut self, field_number: u32, value: bool) -> (r: Result<
        (),
        WriteError,
    >)
        ensures
            r is Ok ==> Self::appended(
                *old(self),
                *final(self),
                encode_field(Field::Varint { field_number, value: if value { 1 } else { 0 } }),
            ),
            r is Err ==> Self::nothing_sent(*old(self), *final(self)) || Self::appended(
                *old(self),
                *final(self),
                encode_varint(tag_value(field_number, WIRETYPE_VARINT)),
            ),
            W::reliable() ==> r is Ok,
    {
        let ghost w0 = *self;
        match self.write_tag(field_number, WIRETYPE_VARINT) {
            Ok(()) => {},
            Err(e) => return Err(e),
        }
        let ghost w1 = *self;
        let v: u64 = if value {
            1
        } else {
            0
        };
        let r = self.write_varint(v);
        proof {
            Self::lemma_second_part(
                w0,
                w1,
                *self,
                encode_varint(tag_value(field_number, WIRETYPE_VARINT)),
                encode_varint(v),
                r is Ok,
            );
        }
        r
    }

    /// Write a fixed 64-bit field.
    pub fn write_fixed64_field(&mut self, field_number: u32, value: u64) -> (r: Result<
        (),
        WriteError,
    >)
        ensures
            r is Ok ==> Self::appended(
                *old(self),
                *final(self),
                encode_field(Field::Fixed64 { field_number, value }),
            ),
            r is Err ==> Self::nothing_sent(*old(self), *final(self)) || Self::appended(
                *old(self),
                *final(self),
                encode_varint(tag_value(field_number, WIRETYPE_I64)),
            ),
            W::reliable() ==> r is Ok,
    {
        let ghost w0 = *self;
        match self.write_tag(field_number, WIRETYPE_I64) {
            Ok(()) => {},
            Err(e) => return Err(e),
        }
        let ghost w1 = *self;
        let r = self.write_fixed64(value);
        proof {
            Self::lemma_second_part(
                w0,
                w1,
                *self,
                encode_varint(tag_value(field_number, WIRETYPE_I64)),
                encode_fixed64(value),
                r is Ok,
            );
        }
        r
    }

    /// Write a fixed 32-bit field.
    pub fn write_fixed32_field(&mut self, field_number: u32, value: u32) -> (r: Result<
        (),
        WriteError,
    >)
        ensures
            r is Ok ==> Self::appended(
                *old(self),
                *final(self),
                encode_field(Field::Fixed32 { field_number, value }),
            ),
            r is Err ==> Self::nothing_sent(*old(self), *final(self)) || Self::appended(
                *old(self),
                *final(self),
                encode_varint(tag_value(field_number, WIRETYPE_I32)),
            ),
            W::reliable() ==> r is Ok,
    {
        let ghost w0 = *self;
        match self.write_tag(field_number, WIRETYPE_I32) {
            Ok(()) => {},
            Err(e) => return Err(e),
        }
        let ghost w1 = *self;
        let r = self.write_fixed32(value);
        proof {
            Self::lemma_second_part(
                w0,
                w1,
                *self,
                encode_varint(tag_value(field_number, WIRETYPE_I32)),
                encode_fixed32(value),
                r is Ok,
            );
        }
        r
    }

    /// Write a length-delimited field holding `data`.
    pub fn write_bytes_field(&mut self, field_number: u32, data: &[u8]) -> (r: Result<
        (),
        WriteError,
    >)
        ensures
            r is Ok ==> Self::appended(
                *old(self),
                *final(self),
                encode_field(Field::Bytes { field_number, data: data@ }),
            ),
            r is Err ==> Self::stopped_in_length_field(
                *old(self),
                *final(self),
                field_number,
                data@.len(),
            ),
            W::reliable() ==> r is Ok,
    {
        let ghost w0 = *self;
        match self.write_tag(field_number, WIRETYPE_LEN) {
            Ok(()) => {},
            Err(e) => return Err(e),
        }
        let ghost w1 = *self;
        let ghost tag = encode_varint(tag_value(field_number, WIRETYPE_LEN));
        match self.write_varint(data.len() as u64) {
            Ok(()) => {},
            Err(e) => {
                proof {
                    Self::lemma_second_part(w0, w1, *self, tag, Seq::empty(), false);
                }
                return Err(e);
            },
        }
        let ghost w2 = *self;
        let ghost len = encode_varint(data.len() as u64);
        let r = self.write_all(data);
        proof {
            Self::lemma_appended_twice(w0, w1, w2, tag, len);
            Self::lemma_second_part(w0, w2, *self, tag + len, data@, r is Ok);
            assert(tag + len + data@ =~= encode_field(Field::Bytes { field_number, data: data@ }));
        }
        r
    }

    /// Write a length-delimited field holding the UTF-8 bytes of `value`.
    pub fn write_string_field(&mut self, field_number: u32, value: &str) -> (r: Result<
        (),
        WriteError,
    >)
        ensures
            r is Ok ==> Self::appended(
                *old(self),
                *final(self),
                encode_field(Field::Bytes { field_number, data: value.spec_bytes() }),
            ),
            r is Err ==> Self::stopped_in_length_field(
                *old(self),
                *final(self),
                field_number,
                value.spec_bytes().len(),
            ),
            W::reliable() ==> r is Ok,
    {
        self.write_bytes_field(field_number, value.as_bytes())
    }

    /// Write an already-encoded embedded message as a length-delimited field;
    /// an empty message writes nothing.
    pub fn write_encoded_message_field(&mut self, field_number: u32, encoded_message: &[u8]) -> (r:
        Result<(), WriteError>)
        ensures
            Self::message_field_written(
                *old(self),
                *final(self),
                field_number,
                encoded_message@,
                r,
            ),
    {
        if encoded_message.len() == 0 {
            return Ok(());
        }
        let r = self.write_bytes_field(field_number, encoded_message);
        assert(encode_message_field(field_number, encoded_message@) == encode_field(
            Field::Bytes { field_number, data: encoded_message@ },
        ));
        r
    }

    /// Write an embedded message whose fields `content` writes into a fresh
    /// buffer. If `content` fails, its error is returned and this writer is
    /// left as it was; otherwise the bytes `content` left in the buffer are
    /// written as by `write_encoded_message_field`.
    pub fn write_message_field<F>(&mut self, field_number: u32, content: F) -> (r: Result<
        (),
        WriteError,
    >) where F: FnOnce(&mut Writer<Buffer>) -> Result<(), WriteError>
        requires
            forall|w: &mut Writer<Buffer>| call_requires(content, (w,)),
        ensures
            exists|w: &mut Writer<Buffer>, done: Result<(), WriteError>|
                {
                    &&& #[trigger] call_ensures(content, (w,), done)
                    &&& w.sink_bytes() == Seq::<u8>::empty()
                    &&& w.sent() == Seq::<u8>::empty()
                    &&& w.spec_bytes_written() == 0
                    &&& done is Err ==> r == done && *final(self) == *old(self)
                    &&& done is Ok ==> Self::message_field_written(
                        *old(self),
                        *final(self),
                        field_number,
                        final(w).sink_bytes(),
                        r,
                    )
                },
    {
        let mut temp = Writer::buffer(64 * 1024);
        let ghost fresh = temp;
        let written = content(&mut temp);
        // The closure's borrow of `temp` began at `fresh` and ended at what `temp` now holds.
        assert(exists|w: &mut Writer<Buffer>|
            #[trigger] call_ensures(content, (w,), written) && *w == fresh && *final(w) == temp);
        match written {
            Ok(()) => {},
            Err(e) => return Err(e),
        }
        let encoded = temp.finish();
        self.write_encoded_message_field(field_number, encoded.as_slice())
    }

    /// Number of bytes in the varint encoding of `value`.
    pub fn varint_size(value: u64) -> (size: usize)
        ensures
            size == encode_varint(value).len(),
    {
        let mut size: usize = 0;
        let mut rest = value;
        proof {
            lemma_encode_varint_len(value);
        }
        loop
            invariant_except_break
                size + encode_varint(rest).len() == encode_varint(value).len(),
            invariant
                encode_varint(value).len() <= 10,
            ensures
                size == encode_varint(value).len(),
            decreases rest,
        {
            proof {
                lemma_encode_varint_len(rest);
            }
            size += 1;
            if (rest & !0x7F) == 0 {
                assert(rest & !0x7Fu64 == 0 ==> rest < 128) by (bit_vector);
                break ;
            }
            assert(rest & !0x7Fu64 != 0 ==> rest >= 128) by (bit_vector);
            assert(rest >= 128 ==> rest >> 7u64 < rest) by (bit_vector);
            rest = rest >> 7;
        }
        size
    }
}

} // verus!
