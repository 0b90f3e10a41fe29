//! Laws that relate the writer's encodings, the parser's behaviour and the
//! decode helpers.

use crate::parse_model::{
    after_prefix, answers_of, content_len, count_down, decode_field_head, end_events, field_step,
    finished_messages, first_answer, lemma_answers_of_concat, lemma_answers_of_small,
    lemma_decode_field_head_bounds, lemma_field_step_consumes, lemma_receive_advance,
    open_messages, rest_answers, spec_receive, tag_field_number, tag_wire_type, Callback,
    FieldHead, Outcome, Status, Step,
};
use crate::wire_format::{
    encode_field, encode_fields, encode_fixed32, encode_fixed64, encode_message_field,
    encode_varint, le_u32, le_u64, lemma_encode_varint_len, lemma_fixed32_roundtrip,
    lemma_fixed64_roundtrip, lemma_read_encoded_varint, lemma_scan_varint_len,
    lemma_scan_varint_prefix, read_varint, tag_value, unzigzag32, unzigzag64,
    valid_field_number, zigzag32, zigzag64, Field, VarintRead,
};
use vstd::prelude::*;
use vstd::string::StringSliceAdditionalSpecFns;
use vstd::utf8::{decode_utf8, encode_utf8_decode_utf8, encode_utf8_valid_utf8, valid_utf8};

verus! {

// ----- what the parser reports for written fields -----

/// The handler calls that parsing a written field makes, when the handler
/// says no length-delimited field is an embedded message.
pub open spec fn field_events(f: Field) -> Seq<Callback> {
    match f {
        Field::Varint { field_number, value } => seq![Callback::Varint(field_number, value)],
        Field::Fixed64 { field_number, value } => seq![Callback::Fixed64(field_number, value)],
        Field::Fixed32 { field_number, value } => seq![Callback::Fixed32(field_number, value)],
        Field::Bytes { field_number, data } => seq![
            Callback::IsMessage(field_number, false),
            Callback::Bytes(field_number, data),
        ],
    }
}

/// The handler calls for a sequence of written fields.
pub open spec fn fields_events(fs: Seq<Field>) -> Seq<Callback>
    decreases fs.len(),
{
    if fs.len() == 0 {
        Seq::empty()
    } else {
        field_events(fs[0]) + fields_events(fs.drop_first())
    }
}

/// A field whose encoding the parser reads back: its number survives the tag
/// shift, and a byte payload's length fits a non-negative `i64` and a `usize`.
pub open spec fn readable(f: Field) -> bool {
    match f {
        Field::Varint { field_number, .. } => valid_field_number(field_number),
        Field::Fixed64 { field_number, .. } => valid_field_number(field_number),
        Field::Fixed32 { field_number, .. } => valid_field_number(field_number),
        Field::Bytes { field_number, data } => valid_field_number(field_number) && data.len()
            <= i64::MAX && data.len() <= usize::MAX,
    }
}

/// All fields are readable.
pub open spec fn all_readable(fs: Seq<Field>) -> bool {
    forall|i: int| 0 <= i < fs.len() ==> readable(#[trigger] fs[i])
}

/// A tag read back gives the field number and wire type written into it.
pub proof fn law_tag_roundtrip(field_number: u32, wire_type: u8)
    requires
        valid_field_number(field_number),
        wire_type < 8,
    ensures
        tag_field_number(tag_value(field_number, wire_type)) == field_number,
        tag_wire_type(tag_value(field_number, wire_type)) == wire_type,
{
    assert(((((field_number << 3u32) | (wire_type as u32)) as u64) >> 3u64) as u32 == field_number
        && ((((field_number << 3u32) | (wire_type as u32)) as u64) & 7) as u8 == wire_type)
        by (bit_vector)
        requires
            1 <= field_number < 0x2000_0000,
            wire_type < 8,
    ;
}

/// The field head the parser decodes from a written field, and its length.
pub open spec fn written_head(f: Field) -> FieldHead {
    match f {
        Field::Varint { field_number, value } => FieldHead::Varint {
            field_number,
            value,
            len: encode_field(f).len(),
        },
        Field::Fixed64 { field_number, value } => FieldHead::Fixed64 {
            field_number,
            value,
            len: encode_field(f).len(),
        },
        Field::Fixed32 { field_number, value } => FieldHead::Fixed32 {
            field_number,
            value,
            len: encode_field(f).len(),
        },
        Field::Bytes { field_number, data } => FieldHead::Len {
            field_number,
            length: data.len() as u64,
            header: (encode_field(f).len() - data.len()) as nat,
        },
    }
}

/// Decoding a written field, followed by anything, gives back the field.
pub proof fn lemma_decode_written_field(f: Field, rest: Seq<u8>)
    requires
        readable(f),
    ensures
        decode_field_head(encode_field(f) + rest) == written_head(f),
        f is Bytes ==> content_len(f->Bytes_data.len() as u64) == f->Bytes_data.len(),
{
    let d = encode_field(f) + rest;
    match f {
        Field::Varint { field_number, value } => {
            let t = tag_value(field_number, 0);
            let et = encode_varint(t);
            let ev = encode_varint(value);
            law_tag_roundtrip(field_number, 0);
            assert(d =~= et + (ev + rest));
            lemma_read_encoded_varint(t, ev + rest);
            assert(d.skip(et.len() as int) =~= ev + rest);
            lemma_read_encoded_varint(value, rest);
        },
        Field::Fixed64 { field_number, value } => {
            let t = tag_value(field_number, 1);
            let et = encode_varint(t);
            law_tag_roundtrip(field_number, 1);
            assert(d =~= et + (encode_fixed64(value) + rest));
            lemma_read_encoded_varint(t, encode_fixed64(value) + rest);
            assert(d.skip(et.len() as int) =~= encode_fixed64(value) + rest);
            lemma_fixed64_roundtrip(value, rest);
        },
        Field::Fixed32 { field_number, value } => {
            let t = tag_value(field_number, 5);
            let et = encode_varint(t);
            law_tag_roundtrip(field_number, 5);
            assert(d =~= et + (encode_fixed32(value) + rest));
            lemma_read_encoded_varint(t, encode_fixed32(value) + rest);
            assert(d.skip(et.len() as int) =~= encode_fixed32(value) + rest);
            lemma_fixed32_roundtrip(value, rest);
        },
        Field::Bytes { field_number, data } => {
            let t = tag_value(field_number, 2);
            let et = encode_varint(t);
            let len = data.len() as u64;
            let el = encode_varint(len);
            law_tag_roundtrip(field_number, 2);
            assert(d =~= et + (el + data + rest));
            lemma_read_encoded_varint(t, el + data + rest);
            assert(d.skip(et.len() as int) =~= el + (data + rest));
            lemma_read_encoded_varint(len, data + rest);
            assert((len as i64) >= 0);
        },
    }
}

/// One step of the parser on a written field, when the handler answers "not a message".
pub proof fn lemma_step_written_field(stack: Seq<int>, f: Field, rest: Seq<u8>)
    requires
        readable(f),
    ensures
        field_step(stack, encode_field(f) + rest, false) == (Step::Advance {
            consumed: encode_field(f).len(),
            events: field_events(f),
            stack: count_down(stack, encode_field(f).len()),
            asked: f is Bytes,
        }),
{
    lemma_decode_written_field(f, rest);
    let d = encode_field(f) + rest;
    if let Field::Bytes { field_number, data } = f {
        let header = (encode_field(f).len() - data.len()) as nat;
        assert(d.subrange(header as int, (header + data.len()) as int) =~= data);
    }
}

/// A run starts by closing every finished message, then goes on as a run from
/// the messages left open.
pub proof fn lemma_receive_closes_first(stack: Seq<int>, data: Seq<u8>, answers: Seq<bool>)
    ensures
        spec_receive(stack, data, answers) =~= after_prefix(
            end_events(finished_messages(stack)),
            0,
            spec_receive(open_messages(stack), data, answers),
        ),
    decreases stack.len(),
{
    reveal(spec_receive);
    lemma_open_messages_idempotent(stack);
    let open = open_messages(stack);
    let ends = end_events(finished_messages(stack));
    assert(end_events(0) =~= Seq::<Callback>::empty());
    let o = spec_receive(open, data, answers);
    assert(o.events =~= end_events(0) + o.events);
    if data.len() > 0 {
        match field_step(open, data, first_answer(answers)) {
            Step::Advance { consumed, events, stack: next, asked } => {
                let rest = spec_receive(next, data.skip(consumed as int), rest_answers(answers, asked));
                assert(o.events =~= events + rest.events);
                assert(ends + events + rest.events =~= ends + o.events);
            },
            Step::Stop { events, .. } => {
                assert(o.events =~= events);
            },
            _ => {
                assert(o.events =~= Seq::<Callback>::empty());
                assert(ends =~= ends + Seq::<Callback>::empty());
            },
        }
    } else {
        assert(o.events =~= Seq::<Callback>::empty());
        assert(ends =~= ends + Seq::<Callback>::empty());
    }
}

/// Closing finished messages a second time closes nothing.
pub proof fn lemma_open_messages_idempotent(stack: Seq<int>)
    ensures
        open_messages(open_messages(stack)) == open_messages(stack),
        finished_messages(open_messages(stack)) == 0,
    decreases stack.len(),
{
    if stack.len() > 0 && stack.last() <= 0 {
        lemma_open_messages_idempotent(stack.drop_last());
    }
}

/// Counting down twice is counting down the sum.
pub proof fn lemma_count_down_twice(stack: Seq<int>, a: nat, b: nat)
    ensures
        count_down(count_down(stack, a), b) =~= count_down(stack, a + b),
{
}

/// How many `is_message` questions parsing written fields asks: one per byte field.
pub open spec fn questions(fs: Seq<Field>) -> nat
    decreases fs.len(),
{
    if fs.len() == 0 {
        0
    } else {
        (if fs[0] is Bytes {
            1nat
        } else {
            0nat
        }) + questions(fs.drop_first())
    }
}

/// The answers left after `n` questions.
pub open spec fn answers_after(answers: Seq<bool>, n: nat) -> Seq<bool> {
    if n <= answers.len() {
        answers.skip(n as int)
    } else {
        Seq::empty()
    }
}

/// The first `n` answers (as far as there are any) are "not a message".
pub open spec fn first_no(answers: Seq<bool>, n: nat) -> bool {
    forall|i: int| 0 <= i < n && i < answers.len() ==> !#[trigger] answers[i]
}

/// Parsing written fields inside messages that each have at least that many
/// bytes left, with a handler that answers "not a message", reports each
/// field, then goes on with what follows.
pub proof fn lemma_receive_written_fields(
    stack: Seq<int>,
    fs: Seq<Field>,
    tail: Seq<u8>,
    answers: Seq<bool>,
)
    requires
        all_readable(fs),
        first_no(answers, questions(fs)),
        forall|i: int| 0 <= i < stack.len() ==> stack[i] >= encode_fields(fs).len(),
    ensures
        spec_receive(stack, encode_fields(fs) + tail, answers) =~= after_prefix(
            fields_events(fs),
            encode_fields(fs).len(),
            spec_receive(
                count_down(stack, encode_fields(fs).len()),
                tail,
                answers_after(answers, questions(fs)),
            ),
        ),
    decreases fs.len(),
{
    reveal(spec_receive);
    let total = encode_fields(fs).len();
    if fs.len() == 0 {
        assert(encode_fields(fs) + tail =~= tail);
        assert(count_down(stack, 0) =~= stack);
        assert(answers_after(answers, 0) =~= answers);
        let o = spec_receive(stack, tail, answers);
        assert(fields_events(fs) + o.events =~= o.events);
    } else {
        let f = fs[0];
        let rest_fs = fs.drop_first();
        let ef = encode_field(f);
        let k = ef.len();
        let data = encode_fields(fs) + tail;
        let after = encode_fields(rest_fs) + tail;
        assert(readable(f));
        assert(all_readable(rest_fs)) by {
            assert forall|i: int| 0 <= i < rest_fs.len() implies readable(#[trigger] rest_fs[i]) by {
                assert(rest_fs[i] == fs[i + 1]);
            }
        }
        lemma_encode_field_nonempty(f);
        assert(data =~= ef + after);
        assert(stack.len() == 0 || stack.last() > 0);
        assert(open_messages(stack) == stack);
        assert(finished_messages(stack) == 0);
        let used: nat = if f is Bytes {
            1
        } else {
            0
        };
        assert(questions(fs) == used + questions(rest_fs));
        lemma_step_written_field(stack, f, after);
        if f is Bytes && answers.len() > 0 {
            assert(!answers[0]);
        }
        let next = count_down(stack, k);
        assert(data.skip(k as int) =~= after);
        let a2 = rest_answers(answers, f is Bytes);
        assert(a2 =~= answers_after(answers, used));
        assert(first_no(a2, questions(rest_fs))) by {
            assert forall|i: int| 0 <= i < questions(rest_fs) && i < a2.len() implies !#[trigger] a2[i] by {
                if f is Bytes && answers.len() > 0 {
                    assert(a2[i] == answers[i + 1]);
                } else {
                    assert(a2[i] == answers[i]);
                }
            }
        }
        assert forall|i: int| 0 <= i < next.len() implies next[i] >= encode_fields(rest_fs).len() by {
            assert(next[i] == stack[i] - k);
        }
        lemma_receive_written_fields(next, rest_fs, tail, a2);
        let rest_total = encode_fields(rest_fs).len();
        lemma_count_down_twice(stack, k, rest_total);
        assert(answers_after(a2, questions(rest_fs)) =~= answers_after(answers, questions(fs)));
        let o = spec_receive(next, after, a2);
        let last = spec_receive(
            count_down(stack, total),
            tail,
            answers_after(answers, questions(fs)),
        );
        assert(o.events =~= fields_events(rest_fs) + last.events);
        assert(fields_events(fs) =~= field_events(f) + fields_events(rest_fs));
        assert(Seq::<Callback>::empty() + field_events(f) + o.events =~= fields_events(fs)
            + last.events);
    }
}

/// A written field is never empty.
pub proof fn lemma_encode_field_nonempty(f: Field)
    ensures
        encode_field(f).len() > 0,
{
    match f {
        Field::Varint { field_number, value } => lemma_encode_varint_len(tag_value(field_number, 0)),
        Field::Fixed64 { field_number, .. } => lemma_encode_varint_len(tag_value(field_number, 1)),
        Field::Fixed32 { field_number, .. } => lemma_encode_varint_len(tag_value(field_number, 5)),
        Field::Bytes { field_number, .. } => lemma_encode_varint_len(tag_value(field_number, 2)),
    }
}

/// Every written field is reported back, in order, with nothing left over:
/// parsing the encoding of readable fields, with a handler that treats none of
/// their byte fields as an embedded message, makes exactly their handler calls
/// and takes all input.
pub proof fn law_parse_written_fields(fs: Seq<Field>, answers: Seq<bool>)
    requires
        all_readable(fs),
        first_no(answers, questions(fs)),
    ensures
        spec_receive(Seq::empty(), encode_fields(fs), answers) =~= (Outcome {
            events: fields_events(fs),
            consumed: encode_fields(fs).len(),
            stack: Seq::empty(),
            status: Status::Complete,
        }),
{
    reveal(spec_receive);
    lemma_receive_written_fields(Seq::empty(), fs, Seq::empty(), answers);
    assert(encode_fields(fs) + Seq::<u8>::empty() =~= encode_fields(fs));
    assert(count_down(Seq::<int>::empty(), encode_fields(fs).len()) =~= Seq::<int>::empty());
    let last = spec_receive(
        Seq::<int>::empty(),
        Seq::<u8>::empty(),
        answers_after(answers, questions(fs)),
    );
    assert(end_events(0) =~= Seq::<Callback>::empty());
    assert(last.events =~= Seq::<Callback>::empty());
    assert(fields_events(fs) + last.events =~= fields_events(fs));
}

/// Written fields are never empty, so neither is a written non-empty field list.
pub proof fn lemma_encode_fields_nonempty(fs: Seq<Field>)
    requires
        fs.len() > 0,
    ensures
        encode_fields(fs).len() > 0,
{
    lemma_encode_field_nonempty(fs[0]);
}

/// An embedded message is reported as a start, its fields, and an end: parsing
/// a written message field whose content is written fields, with a handler
/// that answers "message" for it and "not a message" for the fields inside,
/// makes the calls `is_message`, `start_message`, the fields' calls, then
/// `end_message`, and goes on with what follows.
pub proof fn law_parse_written_message(
    field_number: u32,
    fs: Seq<Field>,
    tail: Seq<u8>,
    answers: Seq<bool>,
)
    requires
        valid_field_number(field_number),
        fs.len() > 0,
        all_readable(fs),
        first_no(answers, questions(fs)),
        encode_fields(fs).len() <= i64::MAX,
        encode_fields(fs).len() <= usize::MAX,
    ensures
        spec_receive(
            Seq::empty(),
            encode_message_field(field_number, encode_fields(fs)) + tail,
            seq![true] + answers,
        ) =~= after_prefix(
            seq![Callback::IsMessage(field_number, true), Callback::StartMessage(field_number)]
                + fields_events(fs) + seq![Callback::EndMessage],
            encode_message_field(field_number, encode_fields(fs)).len(),
            spec_receive(Seq::empty(), tail, answers_after(answers, questions(fs))),
        ),
{
    reveal(spec_receive);
    let m = encode_fields(fs);
    let len = m.len();
    lemma_encode_fields_nonempty(fs);
    let outer = Field::Bytes { field_number, data: m };
    let data = encode_field(outer) + tail;
    assert(encode_message_field(field_number, m) == encode_field(outer));
    lemma_decode_written_field(outer, tail);
    let header = (encode_field(outer).len() - len) as nat;
    let empty_stack = Seq::<int>::empty();
    assert(open_messages(empty_stack) == empty_stack);
    assert(finished_messages(empty_stack) == 0);
    assert(end_events(0) =~= Seq::<Callback>::empty());
    assert(count_down(empty_stack, header).push(len as int) =~= seq![len as int]);
    let start = seq![Callback::IsMessage(field_number, true), Callback::StartMessage(field_number)];
    let all = seq![true] + answers;
    assert(first_answer(all) == true);
    assert(field_step(empty_stack, data, true) == (Step::Advance {
        consumed: header,
        events: start,
        stack: seq![len as int],
        asked: true,
    }));
    assert(rest_answers(all, true) =~= answers);
    assert(data.skip(header as int) =~= m + tail);
    lemma_receive_written_fields(seq![len as int], fs, tail, answers);
    assert(count_down(seq![len as int], len) =~= seq![0int]);
    let later = answers_after(answers, questions(fs));
    lemma_receive_closes_first(seq![0int], tail, later);
    assert(seq![0int].drop_last() =~= Seq::<int>::empty());
    assert(open_messages(seq![0int]) =~= Seq::<int>::empty());
    assert(finished_messages(seq![0int]) == 1);
    assert(end_events(1) =~= seq![Callback::EndMessage]);
    let last = spec_receive(Seq::<int>::empty(), tail, later);
    let inner = spec_receive(seq![len as int], m + tail, answers);
    assert(inner.events =~= fields_events(fs) + (seq![Callback::EndMessage] + last.events));
    assert(Seq::<Callback>::empty() + start + inner.events =~= start + fields_events(fs) + seq![
        Callback::EndMessage,
    ] + last.events);
}

/// A varint reads back as the value written: the encoding of `v`, followed by
/// anything, reads as `v`, taking exactly the encoding's bytes.
pub proof fn law_varint_roundtrip(v: u64, rest: Seq<u8>)
    ensures
        read_varint(encode_varint(v) + rest) == (VarintRead::Value {
            value: v,
            len: encode_varint(v).len(),
        }),
        1 <= encode_varint(v).len() <= 10,
{
    lemma_read_encoded_varint(v, rest);
    lemma_encode_varint_len(v);
}

/// Fixed-width values read back as written.
pub proof fn law_fixed_roundtrip(v64: u64, v32: u32, rest: Seq<u8>)
    ensures
        le_u64(encode_fixed64(v64) + rest) == v64,
        le_u32(encode_fixed32(v32) + rest) == v32,
{
    lemma_fixed64_roundtrip(v64, rest);
    lemma_fixed32_roundtrip(v32, rest);
}

/// A string field reads back as the string: the bytes that `write_string_field`
/// writes for `text` are valid UTF-8 and decode to `text`, so `as_string` on
/// them succeeds with `text`.
pub proof fn law_string_roundtrip(text: &str)
    ensures
        valid_utf8(text.spec_bytes()),
        decode_utf8(text.spec_bytes()) == text@,
{
    encode_utf8_valid_utf8(text@);
    encode_utf8_decode_utf8(text@);
}

/// Zigzag decoding undoes zigzag encoding, and the other way round.
pub proof fn law_zigzag_roundtrip(v64: i64, v32: i32, n64: u64, n32: u32)
    ensures
        unzigzag64(zigzag64(v64)) == v64,
        unzigzag32(zigzag32(v32)) == v32,
        zigzag64(unzigzag64(n64)) == n64,
        zigzag32(unzigzag32(n32)) == n32,
{
}

// ----- streaming: a run cut short by underflow resumes where it stopped -----

/// The callbacks of a run, without a trailing `is_message` question that was
/// asked about a field that then turned out incomplete.
pub open spec fn settled(events: Seq<Callback>) -> Seq<Callback> {
    if events.len() > 0 && events.last() is IsMessage {
        events.drop_last()
    } else {
        events
    }
}

/// A run never takes more bytes than it is given.
pub proof fn lemma_receive_consumed_bound(stack: Seq<int>, data: Seq<u8>, answers: Seq<bool>)
    ensures
        spec_receive(stack, data, answers).consumed <= data.len(),
    decreases data.len(),
{
    reveal(spec_receive);
    if data.len() > 0 {
        let open = open_messages(stack);
        let b = first_answer(answers);
        lemma_decode_field_head_bounds(data);
        lemma_field_step_consumes(open, data, b);
        if let Step::Advance { consumed, stack: next, asked, .. } = field_step(open, data, b) {
            lemma_receive_consumed_bound(next, data.skip(consumed as int), rest_answers(answers, asked));
        }
    }
}

/// A field head that is complete in `d1` reads the same with more input after it.
pub proof fn lemma_decode_field_head_extend(d1: Seq<u8>, d2: Seq<u8>)
    requires
        !(decode_field_head(d1) is Incomplete),
    ensures
        decode_field_head(d1 + d2) == decode_field_head(d1),
{
    let d = d1 + d2;
    assert(d1 =~= d.take(d1.len() as int));
    lemma_scan_varint_prefix(d1, d, 0);
    if let VarintRead::Value { value: tag, len: n } = read_varint(d1) {
        lemma_scan_varint_len(d1, 0);
        let r1 = d1.skip(n as int);
        let r = d.skip(n as int);
        assert(r =~= r1 + d2);
        assert(r1 =~= r.take(r1.len() as int));
        let wire_type = tag_wire_type(tag);
        if tag_field_number(tag) != 0 && (wire_type == 0 || wire_type == 2) {
            lemma_scan_varint_prefix(r1, r, 0);
        }
        if r1.len() >= 4 {
            assert(r[0] == r1[0] && r[1] == r1[1] && r[2] == r1[2] && r[3] == r1[3]);
        }
        if r1.len() >= 8 {
            assert(r[4] == r1[4] && r[5] == r1[5] && r[6] == r1[6] && r[7] == r1[7]);
        }
    }
}

/// A step that handles a field in `d1` handles it the same way with more input after it.
pub proof fn lemma_field_step_extend(stack: Seq<int>, d1: Seq<u8>, d2: Seq<u8>, b: bool)
    requires
        field_step(stack, d1, b) is Advance,
    ensures
        field_step(stack, d1 + d2, b) == field_step(stack, d1, b),
{
    lemma_decode_field_head_extend(d1, d2);
    if let FieldHead::Len { field_number, length, header } = decode_field_head(d1) {
        let n = content_len(length);
        if !b {
            assert((d1 + d2).subrange(header as int, (header + n) as int) =~= d1.subrange(
                header as int,
                (header + n) as int,
            ));
        }
    }
}

/// The conclusion of the streaming law for one run.
pub open spec fn resumes(stack: Seq<int>, d1: Seq<u8>, d2: Seq<u8>, a1: Seq<bool>, a2: Seq<bool>) -> bool {
    let o1 = spec_receive(stack, d1, a1);
    let kept = settled(o1.events);
    let o2 = spec_receive(o1.stack, d1.skip(o1.consumed as int) + d2, a2);
    spec_receive(stack, d1 + d2, answers_of(kept) + a2) =~= after_prefix(kept, o1.consumed, o2)
}

/// The streaming law when the first field is already incomplete.
proof fn lemma_resume_stop(stack: Seq<int>, d1: Seq<u8>, d2: Seq<u8>, a1: Seq<bool>, a2: Seq<bool>)
    requires
        d1.len() > 0,
        field_step(open_messages(stack), d1, first_answer(a1)) is Stop,
    ensures
        resumes(stack, d1, d2, a1, a2),
{
    reveal(spec_receive);
    let open = open_messages(stack);
    let ends = end_events(finished_messages(stack));
    let step = field_step(open, d1, first_answer(a1));
    let events = step->Stop_events;
    lemma_answers_of_small(0, 0, 0, Seq::empty(), false, finished_messages(stack));
    let f = match decode_field_head(d1) {
        FieldHead::Len { field_number, .. } => field_number,
        _ => 0,
    };
    assert(events =~= Seq::<Callback>::empty() || events =~= seq![Callback::IsMessage(f, false)]);
    assert(settled(ends + events) =~= ends);
    assert(answers_of(ends) + a2 =~= a2);
    assert(d1.skip(0) =~= d1);
    lemma_receive_closes_first(stack, d1 + d2, a2);
}

/// The streaming law for a run whose first field is handled, given the law
/// for the rest of the run.
proof fn lemma_resume_advance(stack: Seq<int>, d1: Seq<u8>, d2: Seq<u8>, a1: Seq<bool>, a2: Seq<bool>)
    requires
        d1.len() > 0,
        field_step(open_messages(stack), d1, first_answer(a1)) is Advance,
        ({
            let step = field_step(open_messages(stack), d1, first_answer(a1));
            resumes(
                step->Advance_stack,
                d1.skip(step->Advance_consumed as int),
                d2,
                rest_answers(a1, step->Advance_asked),
                a2,
            )
        }),
    ensures
        resumes(stack, d1, d2, a1, a2),
{
    let open = open_messages(stack);
    let ends = end_events(finished_messages(stack));
    let b = first_answer(a1);
    let step = field_step(open, d1, b);
    let k = step->Advance_consumed;
    let events = step->Advance_events;
    let next = step->Advance_stack;
    let asked = step->Advance_asked;
    lemma_field_step_consumes(open, d1, b);
    let a1r = rest_answers(a1, asked);
    let r1 = spec_receive(next, d1.skip(k as int), a1r);
    lemma_receive_advance(stack, d1, a1);
    lemma_receive_consumed_bound(next, d1.skip(k as int), a1r);
    let kept1 = settled(r1.events);
    assert(d1.skip(k as int).skip(r1.consumed as int) =~= d1.skip((k + r1.consumed) as int));
    let o1 = spec_receive(stack, d1, a1);
    assert(o1.events == ends + events + r1.events);
    assert(events.len() > 0 && !(events.last() is IsMessage));
    assert(settled(ends + events + r1.events) =~= ends + events + kept1);
    let (f, v, w, bs): (u32, u64, u32, Seq<u8>) = match decode_field_head(d1) {
        FieldHead::Varint { field_number, value, .. } => (field_number, value, 0, Seq::empty()),
        FieldHead::Fixed64 { field_number, value, .. } => (field_number, value, 0, Seq::empty()),
        FieldHead::Fixed32 { field_number, value, .. } => (field_number, 0, value, Seq::empty()),
        FieldHead::Len { field_number, length, header } => (
            field_number,
            0,
            0,
            d1.subrange(header as int, (header + content_len(length)) as int),
        ),
        _ => (0, 0, 0, Seq::empty()),
    };
    lemma_answers_of_small(f, v, w, bs, b, finished_messages(stack));
    let used: Seq<bool> = if asked {
        seq![b]
    } else {
        Seq::empty()
    };
    assert(answers_of(events) == used);
    lemma_answers_of_concat(ends, events);
    lemma_answers_of_concat(ends + events, kept1);
    let rest = answers_of(kept1) + a2;
    let all_answers = used + rest;
    assert(answers_of(ends + events + kept1) + a2 =~= all_answers);
    lemma_field_step_extend(open, d1, d2, b);
    lemma_decode_field_head_extend(d1, d2);
    assert(rest_answers(all_answers, asked) =~= rest);
    assert(field_step(open, d1 + d2, first_answer(all_answers)) == step);
    assert((d1 + d2).skip(k as int) =~= d1.skip(k as int) + d2);
    lemma_receive_advance(stack, d1 + d2, all_answers);
    let o2 = spec_receive(r1.stack, d1.skip((k + r1.consumed) as int) + d2, a2);
    let whole = spec_receive(next, d1.skip(k as int) + d2, rest);
    assert(whole.events =~= kept1 + o2.events);
    assert(ends + events + whole.events =~= ends + events + kept1 + o2.events);
}

/// Streaming gives what one call gives: when a call of `receive` stops at an
/// incomplete field, calling it again on the bytes it left plus the bytes that
/// arrive next makes the same handler calls, and ends the same way, as one
/// call on all the bytes would have (the `is_message` question about the
/// incomplete field is asked again, and only that answer counts).
pub proof fn law_resume_after_underflow(
    stack: Seq<int>,
    d1: Seq<u8>,
    d2: Seq<u8>,
    a1: Seq<bool>,
    a2: Seq<bool>,
)
    requires
        spec_receive(stack, d1, a1).status is Underflow,
    ensures
        ({
            let o1 = spec_receive(stack, d1, a1);
            let kept = settled(o1.events);
            let o2 = spec_receive(o1.stack, d1.skip(o1.consumed as int) + d2, a2);
            spec_receive(stack, d1 + d2, answers_of(kept) + a2) =~= after_prefix(
                kept,
                o1.consumed,
                o2,
            )
        }),
    decreases d1.len(),
{
    reveal(spec_receive);
    let open = open_messages(stack);
    let b = first_answer(a1);
    let step = field_step(open, d1, b);
    assert(d1.len() > 0);
    if step is Stop {
        lemma_resume_stop(stack, d1, d2, a1, a2);
    } else if let Step::Advance { consumed: k, stack: next, asked, .. } = step {
        lemma_field_step_consumes(open, d1, b);
        law_resume_after_underflow(next, d1.skip(k as int), d2, rest_answers(a1, asked), a2);
        lemma_resume_advance(stack, d1, d2, a1, a2);
    }
}

/// The conclusion of the streaming law for a run that took all its input.
pub open spec fn continues(
    stack: Seq<int>,
    d1: Seq<u8>,
    d2: Seq<u8>,
    a1: Seq<bool>,
    a2: Seq<bool>,
) -> bool {
    let o1 = spec_receive(stack, d1, a1);
    spec_receive(stack, d1 + d2, answers_of(o1.events) + a2) =~= after_prefix(
        o1.events,
        d1.len(),
        spec_receive(o1.stack, d2, a2),
    )
}

/// The boundary law for a run whose first field is handled, given the law
/// for the rest of the run.
proof fn lemma_continue_advance(
    stack: Seq<int>,
    d1: Seq<u8>,
    d2: Seq<u8>,
    a1: Seq<bool>,
    a2: Seq<bool>,
)
    requires
        d1.len() > 0,
        field_step(open_messages(stack), d1, first_answer(a1)) is Advance,
        ({
            let step = field_step(open_messages(stack), d1, first_answer(a1));
            &&& spec_receive(
                step->Advance_stack,
                d1.skip(step->Advance_consumed as int),
                rest_answers(a1, step->Advance_asked),
            ).consumed == d1.len() - step->Advance_consumed
            &&& continues(
                step->Advance_stack,
                d1.skip(step->Advance_consumed as int),
                d2,
                rest_answers(a1, step->Advance_asked),
                a2,
            )
        }),
    ensures
        continues(stack, d1, d2, a1, a2),
{
    let open = open_messages(stack);
    let ends = end_events(finished_messages(stack));
    let b = first_answer(a1);
    let step = field_step(open, d1, b);
    let k = step->Advance_consumed;
    let events = step->Advance_events;
    let next = step->Advance_stack;
    let asked = step->Advance_asked;
    lemma_field_step_consumes(open, d1, b);
    let a1r = rest_answers(a1, asked);
    let r1 = spec_receive(next, d1.skip(k as int), a1r);
    lemma_receive_advance(stack, d1, a1);
    let o1 = spec_receive(stack, d1, a1);
    assert(o1.events == ends + events + r1.events);
    let (f, v, w, bs): (u32, u64, u32, Seq<u8>) = match decode_field_head(d1) {
        FieldHead::Varint { field_number, value, .. } => (field_number, value, 0, Seq::empty()),
        FieldHead::Fixed64 { field_number, value, .. } => (field_number, value, 0, Seq::empty()),
        FieldHead::Fixed32 { field_number, value, .. } => (field_number, 0, value, Seq::empty()),
        FieldHead::Len { field_number, length, header } => (
            field_number,
            0,
            0,
            d1.subrange(header as int, (header + content_len(length)) as int),
        ),
        _ => (0, 0, 0, Seq::empty()),
    };
    lemma_answers_of_small(f, v, w, bs, b, finished_messages(stack));
    let used: Seq<bool> = if asked {
        seq![b]
    } else {
        Seq::empty()
    };
    assert(answers_of(events) == used);
    lemma_answers_of_concat(ends, events);
    lemma_answers_of_concat(ends + events, r1.events);
    let rest = answers_of(r1.events) + a2;
    let all_answers = used + rest;
    assert(answers_of(ends + events + r1.events) + a2 =~= all_answers);
    lemma_field_step_extend(open, d1, d2, b);
    assert(rest_answers(all_answers, asked) =~= rest);
    assert(field_step(open, d1 + d2, first_answer(all_answers)) == step);
    assert((d1 + d2).skip(k as int) =~= d1.skip(k as int) + d2);
    lemma_receive_advance(stack, d1 + d2, all_answers);
    let o2 = spec_receive(r1.stack, d2, a2);
    let whole = spec_receive(next, d1.skip(k as int) + d2, rest);
    assert(whole.events =~= r1.events + o2.events);
    assert(ends + events + whole.events =~= ends + events + r1.events + o2.events);
}

/// Streaming at a field boundary gives what one call gives: when a call of
/// `receive` takes all of its input, a second call on the bytes that arrive
/// next makes the same handler calls, and ends the same way, as one call on
/// all the bytes would have.
pub proof fn law_resume_at_boundary(
    stack: Seq<int>,
    d1: Seq<u8>,
    d2: Seq<u8>,
    a1: Seq<bool>,
    a2: Seq<bool>,
)
    requires
        spec_receive(stack, d1, a1).status is Complete,
    ensures
        spec_receive(stack, d1, a1).consumed == d1.len(),
        ({
            let o1 = spec_receive(stack, d1, a1);
            spec_receive(stack, d1 + d2, answers_of(o1.events) + a2) =~= after_prefix(
                o1.events,
                d1.len(),
                spec_receive(o1.stack, d2, a2),
            )
        }),
    decreases d1.len(),
{
    reveal(spec_receive);
    let open = open_messages(stack);
    let b = first_answer(a1);
    if d1.len() == 0 {
        let ends = end_events(finished_messages(stack));
        lemma_answers_of_small(0, 0, 0, Seq::empty(), false, finished_messages(stack));
        assert(answers_of(ends) + a2 =~= a2);
        assert(d1 + d2 =~= d2);
        lemma_receive_closes_first(stack, d2, a2);
    } else {
        let step = field_step(open, d1, b);
        if let Step::Advance { consumed: k, stack: next, asked, .. } = step {
            lemma_field_step_consumes(open, d1, b);
            law_resume_at_boundary(next, d1.skip(k as int), d2, rest_answers(a1, asked), a2);
            lemma_continue_advance(stack, d1, d2, a1, a2);
            lemma_receive_advance(stack, d1, a1);
        }
    }
}

// ----- every started message is ended exactly when none is left open -----

/// `start_message` calls minus `end_message` calls.
pub open spec fn balance(events: Seq<Callback>) -> int
    decreases events.len(),
{
    if events.len() == 0 {
        0
    } else {
        balance(events.drop_last()) + match events.last() {
            Callback::StartMessage(_) => 1int,
            Callback::EndMessage => -1int,
            _ => 0int,
        }
    }
}

/// The balance of concatenated callbacks is the sum of their balances.
pub proof fn lemma_balance_concat(x: Seq<Callback>, y: Seq<Callback>)
    ensures
        balance(x + y) == balance(x) + balance(y),
    decreases y.len(),
{
    if y.len() == 0 {
        assert(x + y =~= x);
    } else {
        lemma_balance_concat(x, y.drop_last());
        assert((x + y).drop_last() =~= x + y.drop_last());
        assert((x + y).last() == y.last());
    }
}

/// `n` ends have balance `-n`.
proof fn lemma_balance_ends(n: nat)
    ensures
        balance(end_events(n)) == -n,
    decreases n,
{
    if n > 0 {
        lemma_balance_ends((n - 1) as nat);
        assert(end_events(n).drop_last() =~= end_events((n - 1) as nat));
    } else {
        assert(end_events(n) =~= Seq::<Callback>::empty());
    }
}

/// Closing finished messages removes as many as it ends.
proof fn lemma_open_messages_len(stack: Seq<int>)
    ensures
        open_messages(stack).len() + finished_messages(stack) == stack.len(),
    decreases stack.len(),
{
    if stack.len() > 0 && stack.last() <= 0 {
        lemma_open_messages_len(stack.drop_last());
    }
}

/// One handled field changes the number of open messages by its balance.
proof fn lemma_step_balance(stack: Seq<int>, data: Seq<u8>, answer: bool)
    ensures
        field_step(stack, data, answer) matches Step::Advance { events, stack: next, .. } ==> next.len()
            == stack.len() + balance(events),
        field_step(stack, data, answer) matches Step::Stop { events, .. } ==> balance(events) == 0,
{
    assert(balance(Seq::<Callback>::empty()) == 0);
    match decode_field_head(data) {
        FieldHead::Varint { field_number, value, len } => {
            let e = seq![Callback::Varint(field_number, value)];
            assert(e.drop_last() =~= Seq::<Callback>::empty());
            assert(balance(e) == 0);
            assert(count_down(stack, len).len() == stack.len());
        },
        FieldHead::Fixed64 { field_number, value, len } => {
            let e = seq![Callback::Fixed64(field_number, value)];
            assert(e.drop_last() =~= Seq::<Callback>::empty());
            assert(balance(e) == 0);
            assert(count_down(stack, len).len() == stack.len());
        },
        FieldHead::Fixed32 { field_number, value, len } => {
            let e = seq![Callback::Fixed32(field_number, value)];
            assert(e.drop_last() =~= Seq::<Callback>::empty());
            assert(balance(e) == 0);
            assert(count_down(stack, len).len() == stack.len());
        },
        FieldHead::Len { field_number, length, header } => {
            let n = content_len(length);
            let asked_no = seq![Callback::IsMessage(field_number, false)];
            let asked_yes = seq![Callback::IsMessage(field_number, true)];
            assert(asked_no.drop_last() =~= Seq::<Callback>::empty());
            assert(asked_yes.drop_last() =~= Seq::<Callback>::empty());
            assert(balance(asked_no) == 0);
            assert(balance(asked_yes) == 0);
            let started = seq![
                Callback::IsMessage(field_number, true),
                Callback::StartMessage(field_number),
            ];
            assert(started.drop_last() =~= asked_yes);
            assert(balance(started) == 1);
            let bytes = seq![
                Callback::IsMessage(field_number, false),
                Callback::Bytes(field_number, data.subrange(header as int, (header + n) as int)),
            ];
            assert(bytes.drop_last() =~= asked_no);
            assert(balance(bytes) == 0);
            assert(count_down(stack, header).len() == stack.len());
            assert(count_down(stack, header + n).len() == stack.len());
        },
        _ => {},
    }
}

/// Every run keeps count of open messages: the messages open after it are
/// those open before, plus the ones it started, minus the ones it ended.
pub proof fn law_open_messages_balance(stack: Seq<int>, data: Seq<u8>, answers: Seq<bool>)
    ensures
        spec_receive(stack, data, answers).stack.len() == stack.len() + balance(
            spec_receive(stack, data, answers).events,
        ),
    decreases data.len(),
{
    reveal(spec_receive);
    let open = open_messages(stack);
    let n = finished_messages(stack);
    let ends = end_events(n);
    lemma_open_messages_len(stack);
    lemma_balance_ends(n);
    let b = first_answer(answers);
    if data.len() > 0 {
        lemma_step_balance(open, data, b);
        match field_step(open, data, b) {
            Step::Advance { consumed, events, stack: next, asked } => {
                lemma_field_step_consumes(open, data, b);
                let rest = spec_receive(next, data.skip(consumed as int), rest_answers(answers, asked));
                law_open_messages_balance(next, data.skip(consumed as int), rest_answers(answers, asked));
                lemma_balance_concat(ends, events);
                lemma_balance_concat(ends + events, rest.events);
            },
            Step::Stop { events, .. } => {
                lemma_balance_concat(ends, events);
            },
            _ => {},
        }
    }
}

/// From a fresh parser, a run leaves no message open exactly when it ended
/// every message it started, so then `close` succeeds unless the run stopped
/// inside a field.
pub proof fn law_close_after_balanced_run(data: Seq<u8>, answers: Seq<bool>)
    ensures
        spec_receive(Seq::empty(), data, answers).stack.len() == 0 <==> balance(
            spec_receive(Seq::empty(), data, answers).events,
        ) == 0,
{
    law_open_messages_balance(Seq::empty(), data, answers);
}

// ----- nested messages: what nested `write_message_field` calls write, the parser reads back -----

/// What a writer writes into a message: plain fields, and embedded messages
/// whose own content is written the same way.
pub enum Written {
    Plain(Field),
    Message { field_number: u32, fields: Seq<Written> },
}

/// Bytes of one written item; an embedded message is written as by
/// `write_message_field` (nothing at all when its content is empty).
pub open spec fn encode_written(w: Written) -> Seq<u8>
    decreases w,
{
    match w {
        Written::Plain(f) => encode_field(f),
        Written::Message { field_number, fields } => encode_message_field(
            field_number,
            encode_all(fields),
        ),
    }
}

/// Bytes of written items, one after the other.
pub open spec fn encode_all(ws: Seq<Written>) -> Seq<u8>
    decreases ws,
{
    if ws.len() == 0 {
        Seq::empty()
    } else {
        encode_written(ws[0]) + encode_all(ws.subrange(1, ws.len() as int))
    }
}

/// The callbacks parsing one written item makes, with a handler that answers
/// "message" exactly for the embedded messages.
pub open spec fn written_events(w: Written) -> Seq<Callback>
    decreases w,
{
    match w {
        Written::Plain(f) => field_events(f),
        Written::Message { field_number, fields } => if encode_all(fields).len() == 0 {
            Seq::empty()
        } else {
            seq![Callback::IsMessage(field_number, true), Callback::StartMessage(field_number)]
                + all_events(fields) + seq![Callback::EndMessage]
        },
    }
}

/// The callbacks for written items, one after the other.
pub open spec fn all_events(ws: Seq<Written>) -> Seq<Callback>
    decreases ws,
{
    if ws.len() == 0 {
        Seq::empty()
    } else {
        written_events(ws[0]) + all_events(ws.subrange(1, ws.len() as int))
    }
}

/// The answers to `is_message` that parsing one written item asks for, in order.
pub open spec fn written_answers(w: Written) -> Seq<bool>
    decreases w,
{
    match w {
        Written::Plain(f) => if f is Bytes {
            seq![false]
        } else {
            Seq::empty()
        },
        Written::Message { fields, .. } => if encode_all(fields).len() == 0 {
            Seq::empty()
        } else {
            seq![true] + all_answers(fields)
        },
    }
}

/// The answers for written items, one after the other.
pub open spec fn all_answers(ws: Seq<Written>) -> Seq<bool>
    decreases ws,
{
    if ws.len() == 0 {
        Seq::empty()
    } else {
        written_answers(ws[0]) + all_answers(ws.subrange(1, ws.len() as int))
    }
}

/// A written item the parser reads back: readable plain fields, and messages
/// with a valid field number whose content fits the parser's counters.
pub open spec fn written_readable(w: Written) -> bool
    decreases w,
{
    match w {
        Written::Plain(f) => readable(f),
        Written::Message { field_number, fields } => {
            &&& valid_field_number(field_number)
            &&& encode_all(fields).len() <= i64::MAX
            &&& encode_all(fields).len() <= usize::MAX
            &&& all_written_readable(fields)
        },
    }
}

/// Every written item is readable.
pub open spec fn all_written_readable(ws: Seq<Written>) -> bool
    decreases ws,
{
    if ws.len() == 0 {
        true
    } else {
        written_readable(ws[0]) && all_written_readable(ws.subrange(1, ws.len() as int))
    }
}

/// Closing a message whose last byte was just read, inside messages `stack`.
proof fn lemma_close_one(stack: Seq<int>, data: Seq<u8>, answers: Seq<bool>)
    ensures
        spec_receive(stack.push(0), data, answers) =~= after_prefix(
            seq![Callback::EndMessage],
            0,
            spec_receive(stack, data, answers),
        ),
{
    let s = stack.push(0);
    assert(s.drop_last() =~= stack);
    assert(open_messages(s) == open_messages(stack));
    assert(finished_messages(s) == 1 + finished_messages(stack));
    lemma_receive_closes_first(s, data, answers);
    lemma_receive_closes_first(stack, data, answers);
    let n = finished_messages(stack);
    assert(end_events(1 + n) =~= seq![Callback::EndMessage] + end_events(n));
    let o = spec_receive(open_messages(stack), data, answers);
    assert(end_events(1 + n) + o.events =~= seq![Callback::EndMessage] + (end_events(n)
        + o.events));
}

/// A plain written field inside messages that each have at least its bytes
/// left, with its answer first, is reported and the run goes on.
proof fn lemma_receive_plain(stack: Seq<int>, f: Field, after: Seq<u8>, more: Seq<bool>)
    requires
        readable(f),
        forall|i: int| 0 <= i < stack.len() ==> stack[i] >= encode_field(f).len(),
    ensures
        spec_receive(
            stack,
            encode_written(Written::Plain(f)) + after,
            written_answers(Written::Plain(f)) + more,
        ) =~= after_prefix(
            field_events(f),
            encode_field(f).len(),
            spec_receive(count_down(stack, encode_field(f).len()), after, more),
        ),
{
    let w = Written::Plain(f);
    let k = encode_field(f).len();
    let data = encode_field(f) + after;
    let answers = written_answers(w) + more;
    lemma_encode_field_nonempty(f);
    assert(open_messages(stack) == stack);
    assert(finished_messages(stack) == 0);
    lemma_step_written_field(stack, f, after);
    lemma_decode_written_field(f, after);
    if f is Bytes {
        assert(first_answer(answers) == false);
        assert(rest_answers(answers, true) =~= more);
    } else {
        assert(answers =~= more);
        assert(field_step(stack, data, first_answer(answers)) == field_step(stack, data, false));
        assert(rest_answers(answers, false) =~= more);
    }
    lemma_receive_advance(stack, data, answers);
    assert(data.skip(k as int) =~= after);
    assert(end_events(0) =~= Seq::<Callback>::empty());
    let o = spec_receive(count_down(stack, k), after, more);
    assert(Seq::<Callback>::empty() + field_events(f) + o.events =~= field_events(f) + o.events);
}

/// The first step into a non-empty embedded message: it is asked about,
/// started, and its length pushed.
proof fn lemma_receive_message_start(
    stack: Seq<int>,
    field_number: u32,
    m: Seq<u8>,
    after: Seq<u8>,
    answers: Seq<bool>,
)
    requires
        valid_field_number(field_number),
        m.len() > 0,
        m.len() <= i64::MAX,
        m.len() <= usize::MAX,
        forall|i: int|
            0 <= i < stack.len() ==> stack[i] >= encode_message_field(field_number, m).len(),
    ensures
        ({
            let header = (encode_message_field(field_number, m).len() - m.len()) as nat;
            spec_receive(stack, encode_message_field(field_number, m) + after, seq![true] + answers)
                =~= after_prefix(
                seq![Callback::IsMessage(field_number, true), Callback::StartMessage(field_number)],
                header,
                spec_receive(count_down(stack, header).push(m.len() as int), m + after, answers),
            )
        }),
{
    let outer = Field::Bytes { field_number, data: m };
    let data = encode_field(outer) + after;
    let all = seq![true] + answers;
    lemma_decode_written_field(outer, after);
    let header = (encode_field(outer).len() - m.len()) as nat;
    assert(open_messages(stack) == stack);
    assert(finished_messages(stack) == 0);
    let start = seq![Callback::IsMessage(field_number, true), Callback::StartMessage(field_number)];
    assert(first_answer(all) == true);
    assert(field_step(stack, data, true) == (Step::Advance {
        consumed: header,
        events: start,
        stack: count_down(stack, header).push(m.len() as int),
        asked: true,
    }));
    assert(rest_answers(all, true) =~= answers);
    lemma_receive_advance(stack, data, all);
    assert(data.skip(header as int) =~= m + after);
    assert(end_events(0) =~= Seq::<Callback>::empty());
    let o = spec_receive(count_down(stack, header).push(m.len() as int), m + after, answers);
    assert(Seq::<Callback>::empty() + start + o.events =~= start + o.events);
}

/// Parsing one written item inside messages that each have at least its
/// bytes left, with the answers it asks for first, reports it and goes on.
pub proof fn lemma_receive_written(stack: Seq<int>, w: Written, after: Seq<u8>, more: Seq<bool>)
    requires
        written_readable(w),
        forall|i: int| 0 <= i < stack.len() ==> stack[i] >= encode_written(w).len(),
    ensures
        spec_receive(stack, encode_written(w) + after, written_answers(w) + more)
            =~= after_prefix(
            written_events(w),
            encode_written(w).len(),
            spec_receive(count_down(stack, encode_written(w).len()), after, more),
        ),
    decreases w,
{
    match w {
        Written::Plain(f) => {
            lemma_receive_plain(stack, f, after, more);
        },
        Written::Message { field_number, fields } => {
            let m = encode_all(fields);
            let k = encode_written(w).len();
            if m.len() == 0 {
                assert(encode_written(w) + after =~= after);
                assert(written_answers(w) + more =~= more);
                assert(count_down(stack, 0) =~= stack);
                let o = spec_receive(stack, after, more);
                assert(Seq::<Callback>::empty() + o.events =~= o.events);
            } else {
                let inner_answers = all_answers(fields) + more;
                assert(written_answers(w) + more =~= seq![true] + inner_answers);
                lemma_receive_message_start(stack, field_number, m, after, inner_answers);
                let header = (k - m.len()) as nat;
                let inner_stack = count_down(stack, header).push(m.len() as int);
                assert forall|i: int| 0 <= i < inner_stack.len() implies inner_stack[i]
                    >= m.len() by {
                    if i < stack.len() {
                        assert(inner_stack[i] == stack[i] - header);
                    }
                }
                lemma_receive_written_all(inner_stack, fields, after, more);
                let outer_stack = count_down(stack, k);
                assert(count_down(inner_stack, m.len()) =~= outer_stack.push(0));
                lemma_close_one(outer_stack, after, more);
                let last = spec_receive(outer_stack, after, more);
                let inner = spec_receive(inner_stack, m + after, inner_answers);
                assert(inner.events =~= all_events(fields) + (seq![Callback::EndMessage]
                    + last.events));
                let start = seq![
                    Callback::IsMessage(field_number, true),
                    Callback::StartMessage(field_number),
                ];
                assert(start + inner.events =~= written_events(w) + last.events);
            }
        },
    }
}

/// Parsing written items inside messages that each have at least their bytes
/// left, with the answers they ask for first, reports them all and goes on.
pub proof fn lemma_receive_written_all(
    stack: Seq<int>,
    ws: Seq<Written>,
    tail: Seq<u8>,
    more: Seq<bool>,
)
    requires
        all_written_readable(ws),
        forall|i: int| 0 <= i < stack.len() ==> stack[i] >= encode_all(ws).len(),
    ensures
        spec_receive(stack, encode_all(ws) + tail, all_answers(ws) + more) =~= after_prefix(
            all_events(ws),
            encode_all(ws).len(),
            spec_receive(count_down(stack, encode_all(ws).len()), tail, more),
        ),
    decreases ws,
{
    if ws.len() == 0 {
        assert(encode_all(ws) + tail =~= tail);
        assert(all_answers(ws) + more =~= more);
        assert(count_down(stack, 0) =~= stack);
        let o = spec_receive(stack, tail, more);
        assert(all_events(ws) + o.events =~= o.events);
    } else {
        let w = ws[0];
        let rest = ws.subrange(1, ws.len() as int);
        let k = encode_written(w).len();
        let after = encode_all(rest) + tail;
        let more2 = all_answers(rest) + more;
        assert(encode_all(ws) + tail =~= encode_written(w) + after);
        assert(all_answers(ws) + more =~= written_answers(w) + more2);
        lemma_receive_written(stack, w, after, more2);
        let next = count_down(stack, k);
        assert forall|i: int| 0 <= i < next.len() implies next[i] >= encode_all(rest).len() by {
            assert(next[i] == stack[i] - k);
        }
        lemma_receive_written_all(next, rest, tail, more);
        lemma_count_down_twice(stack, k, encode_all(rest).len());
        let last = spec_receive(count_down(stack, encode_all(ws).len()), tail, more);
        let o = spec_receive(next, after, more2);
        assert(o.events =~= all_events(rest) + last.events);
        assert(written_events(w) + o.events =~= all_events(ws) + last.events);
    }
}

/// Nested messages read back as written: parsing what a writer wrote (plain
/// fields and embedded messages, nested to any depth), with a handler that
/// answers "message" exactly for the embedded messages, makes each field's
/// calls, a start and an end around each non-empty message, and takes all
/// input with no message left open.
pub proof fn law_parse_written_tree(ws: Seq<Written>, more: Seq<bool>)
    requires
        all_written_readable(ws),
    ensures
        spec_receive(Seq::empty(), encode_all(ws), all_answers(ws) + more) =~= (Outcome {
            events: all_events(ws),
            consumed: encode_all(ws).len(),
            stack: Seq::empty(),
            status: Status::Complete,
        }),
{
    reveal(spec_receive);
    lemma_receive_written_all(Seq::empty(), ws, Seq::empty(), more);
    assert(encode_all(ws) + Seq::<u8>::empty() =~= encode_all(ws));
    assert(count_down(Seq::<int>::empty(), encode_all(ws).len()) =~= Seq::<int>::empty());
    assert(open_messages(Seq::<int>::empty()) == Seq::<int>::empty());
    assert(finished_messages(Seq::<int>::empty()) == 0);
    assert(end_events(0) =~= Seq::<Callback>::empty());
    let last = spec_receive(Seq::<int>::empty(), Seq::<u8>::empty(), more);
    assert(last.events =~= Seq::<Callback>::empty());
    assert(all_events(ws) + last.events =~= all_events(ws));
}

// ----- each field, as encoded on the wire, and the calls it gives -----

/// The header of a length-delimited field: its tag, then its length prefix.
pub open spec fn len_header(field_number: u32, length: u64) -> Seq<u8> {
    encode_varint(tag_value(field_number, 2)) + encode_varint(length)
}

/// The header of a length-delimited field reads back as its field number and length.
proof fn lemma_decode_len_header(field_number: u32, length: u64, rest: Seq<u8>)
    requires
        valid_field_number(field_number),
        length <= i64::MAX,
    ensures
        decode_field_head(len_header(field_number, length) + rest) == (FieldHead::Len {
            field_number,
            length,
            header: len_header(field_number, length).len(),
        }),
        len_header(field_number, length).len() > 0,
{
    let t = tag_value(field_number, 2);
    let et = encode_varint(t);
    let el = encode_varint(length);
    let d = len_header(field_number, length) + rest;
    law_tag_roundtrip(field_number, 2);
    lemma_encode_varint_len(t);
    assert(d =~= et + (el + rest));
    lemma_read_encoded_varint(t, el + rest);
    assert(d.skip(et.len() as int) =~= el + rest);
    lemma_read_encoded_varint(length, rest);
    assert((length as i64) >= 0);
}

/// Every length-delimited field that the handler calls a message is started:
/// whatever its declared length (zero included), whatever follows, parsing it
/// ends the finished messages, asks `is_message`, calls `start_message`, takes
/// just its tag and length prefix, and opens a message of that length. Its
/// content is never handed over as bytes.
pub proof fn law_message_field_starts(
    stack: Seq<int>,
    field_number: u32,
    length: u64,
    rest: Seq<u8>,
    more: Seq<bool>,
)
    requires
        valid_field_number(field_number),
        length <= i64::MAX,
        length <= usize::MAX,
    ensures
        ({
            let h = len_header(field_number, length);
            spec_receive(stack, h + rest, seq![true] + more) =~= after_prefix(
                end_events(finished_messages(stack)) + seq![
                    Callback::IsMessage(field_number, true),
                    Callback::StartMessage(field_number),
                ],
                h.len(),
                spec_receive(
                    count_down(open_messages(stack), h.len()).push(length as int),
                    rest,
                    more,
                ),
            )
        }),
{
    let h = len_header(field_number, length);
    let data = h + rest;
    let answers = seq![true] + more;
    lemma_decode_len_header(field_number, length, rest);
    let open = open_messages(stack);
    assert(first_answer(answers) == true);
    assert(rest_answers(answers, true) =~= more);
    assert(data.skip(h.len() as int) =~= rest);
    lemma_receive_advance(stack, data, answers);
    let ends = end_events(finished_messages(stack));
    let start = seq![Callback::IsMessage(field_number, true), Callback::StartMessage(field_number)];
    let o = spec_receive(count_down(open, h.len()).push(length as int), rest, more);
    assert(ends + start + o.events =~= (ends + start) + o.events);
}

/// An empty embedded message is started and at once ended: a length-delimited
/// field of length zero that the handler calls a message gives `start_message`
/// then `end_message`, before anything that follows it.
pub proof fn law_empty_message_ends(
    stack: Seq<int>,
    field_number: u32,
    rest: Seq<u8>,
    more: Seq<bool>,
)
    requires
        valid_field_number(field_number),
    ensures
        ({
            let h = len_header(field_number, 0);
            spec_receive(stack, h + rest, seq![true] + more) =~= after_prefix(
                end_events(finished_messages(stack)) + seq![
                    Callback::IsMessage(field_number, true),
                    Callback::StartMessage(field_number),
                    Callback::EndMessage,
                ],
                h.len(),
                spec_receive(count_down(open_messages(stack), h.len()), rest, more),
            )
        }),
{
    let h = len_header(field_number, 0);
    law_message_field_starts(stack, field_number, 0, rest, more);
    let s = count_down(open_messages(stack), h.len());
    lemma_close_one(s, rest, more);
    let o = spec_receive(s, rest, more);
    let ends = end_events(finished_messages(stack));
    let start = seq![Callback::IsMessage(field_number, true), Callback::StartMessage(field_number)];
    assert(ends + start + (seq![Callback::EndMessage] + o.events) =~= ends + seq![
        Callback::IsMessage(field_number, true),
        Callback::StartMessage(field_number),
        Callback::EndMessage,
    ] + o.events);
}

/// Every written field is reported with exactly its calls: whatever is open
/// and whatever follows, parsing the encoding of a readable field (a
/// length-delimited one answered "not a message") ends the finished messages,
/// makes the field's calls (a length-delimited field's content handed over
/// whole as bytes), takes exactly its bytes, and counts them against every
/// open message.
pub proof fn law_field_reported(stack: Seq<int>, f: Field, rest: Seq<u8>, more: Seq<bool>)
    requires
        readable(f),
    ensures
        ({
            let e = encode_field(f);
            let answers = if f is Bytes {
                seq![false] + more
            } else {
                more
            };
            spec_receive(stack, e + rest, answers) =~= after_prefix(
                end_events(finished_messages(stack)) + field_events(f),
                e.len(),
                spec_receive(count_down(open_messages(stack), e.len()), rest, more),
            )
        }),
{
    let e = encode_field(f);
    let data = e + rest;
    let answers = if f is Bytes {
        seq![false] + more
    } else {
        more
    };
    let open = open_messages(stack);
    lemma_encode_field_nonempty(f);
    lemma_step_written_field(open, f, rest);
    lemma_decode_written_field(f, rest);
    if f is Bytes {
        assert(first_answer(answers) == false);
        assert(rest_answers(answers, true) =~= more);
    } else {
        assert(field_step(open, data, first_answer(answers)) == field_step(open, data, false));
        assert(rest_answers(answers, false) =~= more);
    }
    lemma_receive_advance(stack, data, answers);
    assert(data.skip(e.len() as int) =~= rest);
    let ends = end_events(finished_messages(stack));
    let o = spec_receive(count_down(open, e.len()), rest, more);
    assert(ends + field_events(f) + o.events =~= (ends + field_events(f)) + o.events);
}

} // verus!
