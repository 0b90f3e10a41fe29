//! Mathematical model of the protobuf binary wire format: base-128 varints,
//! little-endian fixed-width values, zigzag integers, tags and whole fields.

use vstd::prelude::*;

verus! {

/// Outcome of scanning a varint at the front of a byte sequence.
pub enum VarintRead {
    /// A complete varint of `len` bytes decoding to `value`.
    Value { value: u64, len: nat },
    /// The bytes end before the varint does.
    Underflow,
    /// Ten bytes in a row carry the continuation bit.
    TooLong,
}

/// True when the continuation (high) bit of `b` is set.
pub open spec fn has_continuation(b: u8) -> bool {
    b & 0x80 != 0
}

/// The 64-bit value of a sequence of base-128 groups, least significant group
/// first; continuation bits are ignored and bits beyond 64 are dropped.
pub open spec fn varint_bits(s: Seq<u8>) -> u64
    decreases s.len(),
{
    if s.len() == 0 {
        0
    } else {
        ((s[0] & 0x7f) as u64) | (varint_bits(s.drop_first()) << 7u64)
    }
}

/// Scan for the end of a varint starting at the front of `s`, having already
/// passed `i` bytes that carry the continuation bit.
pub open spec fn scan_varint(s: Seq<u8>, i: nat) -> VarintRead
    decreases 10 - i,
{
    if i >= 10 {
        VarintRead::TooLong
    } else if i >= s.len() {
        VarintRead::Underflow
    } else if !has_continuation(s[i as int]) {
        VarintRead::Value { value: varint_bits(s.take(i + 1 as int)), len: i + 1 }
    } else {
        scan_varint(s, i + 1)
    }
}

/// Read a varint at the front of `s`.
pub open spec fn read_varint(s: Seq<u8>) -> VarintRead {
    scan_varint(s, 0)
}

/// The shortest base-128 encoding of `v`.
pub open spec fn encode_varint(v: u64) -> Seq<u8>
    decreases v,
{
    if v < 128 {
        seq![v as u8]
    } else {
        proof {
            assert(v >= 128 ==> v >> 7u64 < v) by (bit_vector);
        }
        seq![((v & 0x7f) | 0x80) as u8] + encode_varint(v >> 7u64)
    }
}

/// Little-endian value of the first eight bytes of `s`.
pub open spec fn le_u64(s: Seq<u8>) -> u64 {
    (s[0] as u64) | ((s[1] as u64) << 8u64) | ((s[2] as u64) << 16u64) | ((s[3] as u64)
        << 24u64) | ((s[4] as u64) << 32u64) | ((s[5] as u64) << 40u64) | ((s[6] as u64)
        << 48u64) | ((s[7] as u64) << 56u64)
}

/// Little-endian value of the first four bytes of `s`.
pub open spec fn le_u32(s: Seq<u8>) -> u32 {
    (s[0] as u32) | ((s[1] as u32) << 8u32) | ((s[2] as u32) << 16u32) | ((s[3] as u32)
        << 24u32)
}

/// The eight little-endian bytes of `v`.
pub open spec fn encode_fixed64(v: u64) -> Seq<u8> {
    seq![
        v as u8,
        (v >> 8u64) as u8,
        (v >> 16u64) as u8,
        (v >> 24u64) as u8,
        (v >> 32u64) as u8,
        (v >> 40u64) as u8,
        (v >> 48u64) as u8,
        (v >> 56u64) as u8,
    ]
}

/// The four little-endian bytes of `v`.
pub open spec fn encode_fixed32(v: u32) -> Seq<u8> {
    seq![v as u8, (v >> 8u32) as u8, (v >> 16u32) as u8, (v >> 24u32) as u8]
}

/// Zigzag mapping of a signed 64-bit integer: 0, -1, 1, -2, ... to 0, 1, 2, 3, ...
pub open spec fn zigzag64(v: i64) -> u64 {
    if v >= 0 {
        (2 * v) as u64
    } else {
        (-2 * v - 1) as u64
    }
}

/// Zigzag mapping of a signed 32-bit integer.
pub open spec fn zigzag32(v: i32) -> u32 {
    if v >= 0 {
        (2 * v) as u32
    } else {
        (-2 * v - 1) as u32
    }
}

/// Inverse zigzag mapping on 64 bits: even numbers to `n / 2`, odd ones to `-(n + 1) / 2`.
pub open spec fn unzigzag64(n: u64) -> i64 {
    if n % 2 == 0 {
        (n / 2) as i64
    } else {
        (-((n / 2) as int) - 1) as i64
    }
}

/// Inverse zigzag mapping on 32 bits.
pub open spec fn unzigzag32(n: u32) -> i32 {
    if n % 2 == 0 {
        (n / 2) as i32
    } else {
        (-((n / 2) as int) - 1) as i32
    }
}

/// Wire type number of a varint field.
pub open spec fn wt_varint() -> u8 {
    0
}

/// Wire type number of a fixed 64-bit field.
pub open spec fn wt_i64() -> u8 {
    1
}

/// Wire type number of a length-delimited field.
pub open spec fn wt_len() -> u8 {
    2
}

/// Wire type number of a fixed 32-bit field.
pub open spec fn wt_i32() -> u8 {
    5
}

/// The tag value of a field: the field number shifted left by three (in 32 bits)
/// with the wire type in the low bits.
pub open spec fn tag_value(field_number: u32, wire_type: u8) -> u64 {
    ((field_number << 3u32) | (wire_type as u32)) as u64
}

/// Field numbers that survive the 32-bit tag shift unchanged.
pub open spec fn valid_field_number(field_number: u32) -> bool {
    1 <= field_number < 0x2000_0000
}

/// A field as the writer emits it and the parser reports it.
#[allow(inconsistent_fields)]
pub enum Field {
    Varint { field_number: u32, value: u64 },
    Fixed64 { field_number: u32, value: u64 },
    Fixed32 { field_number: u32, value: u32 },
    Bytes { field_number: u32, data: Seq<u8> },
}

/// Wire encoding of one field: tag, then the payload.
pub open spec fn encode_field(f: Field) -> Seq<u8> {
    match f {
        Field::Varint { field_number, value } => encode_varint(
            tag_value(field_number, wt_varint()),
        ) + encode_varint(value),
        Field::Fixed64 { field_number, value } => encode_varint(
            tag_value(field_number, wt_i64()),
        ) + encode_fixed64(value),
        Field::Fixed32 { field_number, value } => encode_varint(
            tag_value(field_number, wt_i32()),
        ) + encode_fixed32(value),
        Field::Bytes { field_number, data } => encode_varint(tag_value(field_number, wt_len()))
            + encode_varint(data.len() as u64) + data,
    }
}

/// Wire encoding of a sequence of fields, one after the other.
pub open spec fn encode_fields(fs: Seq<Field>) -> Seq<u8>
    decreases fs.len(),
{
    if fs.len() == 0 {
        Seq::empty()
    } else {
        encode_field(fs[0]) + encode_fields(fs.drop_first())
    }
}

/// Bytes of an embedded-message field: nothing for an empty message, else a
/// length-delimited field holding the encoded message.
pub open spec fn encode_message_field(field_number: u32, message: Seq<u8>) -> Seq<u8> {
    if message.len() == 0 {
        Seq::empty()
    } else {
        encode_field(Field::Bytes { field_number, data: message })
    }
}

// ----- lemmas about the model -----

/// Shifting a disjoint OR left distributes over its parts.
proof fn lemma_shl_or(a: u64, c: u64, k: u64)
    requires
        k <= 56,
    ensures
        (a | (c << k)) << 7u64 == (a << 7u64) | (c << (k + 7) as u64),
{
    assert((a | (c << k)) << 7u64 == (a << 7u64) | (c << (k + 7) as u64)) by (bit_vector)
        requires
            k <= 56,
    ;
}

/// Appending one byte to at most nine groups adds its low seven bits at the next position.
pub proof fn lemma_varint_bits_push(s: Seq<u8>, b: u8)
    requires
        s.len() <= 9,
    ensures
        varint_bits(s.push(b)) == varint_bits(s) | (((b & 0x7f) as u64) << (7 * s.len()) as u64),
    decreases s.len(),
{
    if s.len() == 0 {
        let p = s.push(b);
        assert(p.drop_first() =~= Seq::<u8>::empty());
        assert(varint_bits(p.drop_first()) == 0);
        assert(p[0] == b);
        assert(varint_bits(s) == 0);
        let lb = (b & 0x7f) as u64;
        assert(lb | (0u64 << 7u64) == 0u64 | (lb << 0u64)) by (bit_vector);
        assert(varint_bits(p) == lb | (0u64 << 7u64));
    } else {
        let t = s.drop_first();
        assert(s.push(b).drop_first() =~= t.push(b));
        assert(s.push(b)[0] == s[0]);
        lemma_varint_bits_push(t, b);
        let x = (s[0] & 0x7f) as u64;
        let a = varint_bits(t);
        let c = (b & 0x7f) as u64;
        let k = (7 * t.len()) as u64;
        lemma_shl_or(a, c, k);
        assert(x | ((a << 7u64) | (c << (k + 7) as u64)) == (x | (a << 7u64)) | (c << (k + 7)
            as u64)) by (bit_vector);
    }
}

/// A varint encoding is 1 to `k + 1` bytes when the value has at most `7 * (k + 1)` bits.
proof fn lemma_encode_varint_len_bound(v: u64, k: u64)
    requires
        k <= 9,
        v >> (7 * k) as u64 <= 127,
    ensures
        1 <= encode_varint(v).len() <= k + 1,
    decreases k,
{
    if v >= 128 {
        assert(k >= 1) by {
            if k == 0 {
                assert(v >> 0u64 == v) by (bit_vector);
            }
        }
        assert((v >> 7u64) >> (7 * (k - 1)) as u64 == v >> (7 * k) as u64) by (bit_vector)
            requires
                1 <= k <= 9,
        ;
        lemma_encode_varint_len_bound(v >> 7u64, (k - 1) as u64);
    }
}

/// Every varint encoding has between one and ten bytes.
pub proof fn lemma_encode_varint_len(v: u64)
    ensures
        1 <= encode_varint(v).len() <= 10,
{
    assert(v >> 63u64 <= 127) by (bit_vector);
    lemma_encode_varint_len_bound(v, 9);
}

/// The shape of a varint encoding: every byte but the last carries the
/// continuation bit, and the groups add up to the value.
pub proof fn lemma_encode_varint_shape(v: u64)
    ensures
        varint_bits(encode_varint(v)) == v,
        !has_continuation(encode_varint(v).last()),
        forall|j: int|
            0 <= j < encode_varint(v).len() - 1 ==> has_continuation(
                #[trigger] encode_varint(v)[j],
            ),
    decreases v,
{
    lemma_encode_varint_len(v);
    if v < 128 {
        let e = encode_varint(v);
        assert(e.drop_first() =~= Seq::<u8>::empty());
        assert(varint_bits(e.drop_first()) == 0);
        assert(e[0] == v as u8);
        assert(((v as u8) & 0x7f) as u64 | (0u64 << 7u64) == v) by (bit_vector)
            requires
                v < 128,
        ;
        assert((v as u8) & 0x80 == 0) by (bit_vector)
            requires
                v < 128,
        ;
    } else {
        assert(v >> 7u64 < v) by (bit_vector)
            requires
                v >= 128,
        ;
        lemma_encode_varint_shape(v >> 7u64);
        lemma_encode_varint_len(v >> 7u64);
        let e = encode_varint(v);
        let r = encode_varint(v >> 7u64);
        let first = (#[verifier::truncate] (((v & 0x7f) | 0x80) as u8));
        assert(e =~= seq![first] + r);
        assert(e.drop_first() =~= r);
        assert((first & 0x7f) as u64 | ((v >> 7u64) << 7u64) == v) by (bit_vector)
            requires
                first == ((v & 0x7f) | 0x80) as u8,
        ;
        assert(first & 0x80 != 0) by (bit_vector)
            requires
                first == ((v & 0x7f) | 0x80) as u8,
        ;
        assert(e.last() == r.last());
        assert forall|j: int| 0 <= j < e.len() - 1 implies has_continuation(#[trigger] e[j]) by {
            if j > 0 {
                assert(e[j] == r[j - 1]);
            }
        }
    }
}

/// Scanning finds the first byte without the continuation bit, within ten bytes.
pub proof fn lemma_scan_varint_finds(s: Seq<u8>, i: nat, k: nat)
    requires
        i < k <= 10,
        k <= s.len(),
        !has_continuation(s[k - 1]),
        forall|j: int| i <= j < k - 1 ==> has_continuation(#[trigger] s[j]),
    ensures
        scan_varint(s, i) == (VarintRead::Value { value: varint_bits(s.take(k as int)), len: k }),
    decreases k - i,
{
    if i + 1 < k {
        lemma_scan_varint_finds(s, i + 1, k);
    }
}

/// A varint read back from its encoding, followed by anything, gives the value
/// and the length of the encoding.
pub proof fn lemma_read_encoded_varint(v: u64, rest: Seq<u8>)
    ensures
        read_varint(encode_varint(v) + rest) == (VarintRead::Value {
            value: v,
            len: encode_varint(v).len(),
        }),
{
    let e = encode_varint(v);
    let s = e + rest;
    lemma_encode_varint_len(v);
    lemma_encode_varint_shape(v);
    assert(s.take(e.len() as int) =~= e);
    assert(s[e.len() - 1] == e.last());
    assert forall|j: int| 0 <= j < e.len() - 1 implies has_continuation(#[trigger] s[j]) by {
        assert(s[j] == e[j]);
    }
    lemma_scan_varint_finds(s, 0, e.len());
}

/// A varint read never takes more bytes than there are, and at least one; a
/// varint is too long only when ten bytes are there.
pub proof fn lemma_scan_varint_len(s: Seq<u8>, i: nat)
    ensures
        scan_varint(s, i) matches VarintRead::Value { len, .. } ==> i < len <= s.len() && len
            <= 10,
        i < 10 && scan_varint(s, i) is TooLong ==> s.len() >= 10,
    decreases 10 - i,
{
    if i < 10 && i < s.len() && has_continuation(s[i as int]) {
        lemma_scan_varint_len(s, i + 1);
    }
}

/// What a varint read returns depends only on the bytes it reads.
pub proof fn lemma_scan_varint_prefix(s: Seq<u8>, t: Seq<u8>, i: nat)
    requires
        s.len() <= t.len(),
        s =~= t.take(s.len() as int),
        !(scan_varint(s, i) is Underflow),
    ensures
        scan_varint(t, i) == scan_varint(s, i),
    decreases 10 - i,
{
    if i < 10 && i < s.len() {
        assert(s[i as int] == t[i as int]);
        if has_continuation(s[i as int]) {
            lemma_scan_varint_prefix(s, t, i + 1);
        } else {
            assert(s.take(i + 1 as int) =~= t.take(i + 1 as int));
        }
    }
}

/// Little-endian decoding undoes little-endian encoding.
pub proof fn lemma_fixed64_roundtrip(v: u64, rest: Seq<u8>)
    ensures
        le_u64(encode_fixed64(v) + rest) == v,
{
    let s = encode_fixed64(v) + rest;
    assert(s[0] == v as u8 && s[1] == (v >> 8u64) as u8 && s[2] == (v >> 16u64) as u8 && s[3]
        == (v >> 24u64) as u8 && s[4] == (v >> 32u64) as u8 && s[5] == (v >> 40u64) as u8 && s[6]
        == (v >> 48u64) as u8 && s[7] == (v >> 56u64) as u8);
    let b0 = s[0];
    let b1 = s[1];
    let b2 = s[2];
    let b3 = s[3];
    let b4 = s[4];
    let b5 = s[5];
    let b6 = s[6];
    let b7 = s[7];
    assert((b0 as u64) | ((b1 as u64) << 8u64) | ((b2 as u64) << 16u64) | ((b3 as u64) << 24u64)
        | ((b4 as u64) << 32u64) | ((b5 as u64) << 40u64) | ((b6 as u64) << 48u64) | ((b7 as u64)
        << 56u64) == v) by (bit_vector)
        requires
            b0 == v as u8,
            b1 == (v >> 8u64) as u8,
            b2 == (v >> 16u64) as u8,
            b3 == (v >> 24u64) as u8,
            b4 == (v >> 32u64) as u8,
            b5 == (v >> 40u64) as u8,
            b6 == (v >> 48u64) as u8,
            b7 == (v >> 56u64) as u8,
    ;
}

/// Little-endian decoding undoes little-endian encoding, 32-bit.
pub proof fn lemma_fixed32_roundtrip(v: u32, rest: Seq<u8>)
    ensures
        le_u32(encode_fixed32(v) + rest) == v,
{
    let s = encode_fixed32(v) + rest;
    assert(s[0] == v as u8 && s[1] == (v >> 8u32) as u8 && s[2] == (v >> 16u32) as u8 && s[3]
        == (v >> 24u32) as u8);
    let b0 = s[0];
    let b1 = s[1];
    let b2 = s[2];
    let b3 = s[3];
    assert((b0 as u32) | ((b1 as u32) << 8u32) | ((b2 as u32) << 16u32) | ((b3 as u32) << 24u32)
        == v) by (bit_vector)
        requires
            b0 == v as u8,
            b1 == (v >> 8u32) as u8,
            b2 == (v >> 16u32) as u8,
            b3 == (v >> 24u32) as u8,
    ;
}

} // verus!
