//! What a push parser does with a chunk of input, stated as spec functions:
//! which handler callbacks it makes, how much input it takes, and where it
//! stops.

use crate::error::ParseErrorKind;
use crate::wire_format::{le_u32, le_u64, lemma_scan_varint_len, read_varint, VarintRead};
use vstd::prelude::*;

verus! {

/// A call the parser makes on its handler.
pub enum Callback {
    Varint(u32, u64),
    Fixed64(u32, u64),
    Fixed32(u32, u32),
    Bytes(u32, Seq<u8>),
    /// The parser asked `is_message` for a field and got this answer.
    IsMessage(u32, bool),
    StartMessage(u32),
    EndMessage,
}

/// How a call of `receive` ends.
pub enum Status {
    /// All input was taken.
    Complete,
    /// Input ended inside a field; the field's bytes were left in place.
    Underflow,
    /// The input is malformed.
    Failed(ParseErrorKind),
}

/// The effect of one call of `receive`.
#[verifier::ext_equal]
pub struct Outcome {
    /// Handler calls, in order.
    pub events: Seq<Callback>,
    /// Bytes taken from the front of the input.
    pub consumed: nat,
    /// Remaining byte counts of the embedded messages still open, outermost first.
    pub stack: Seq<int>,
    pub status: Status,
}

/// What the front of the input holds, as far as it can be decided without the handler.
#[allow(inconsistent_fields)]
pub enum FieldHead {
    /// The input ends inside the field header or a fixed-size payload.
    Incomplete,
    /// The field is malformed; `consumed` bytes had been read when this was found.
    Invalid { kind: ParseErrorKind, consumed: nat },
    Varint { field_number: u32, value: u64, len: nat },
    Fixed64 { field_number: u32, value: u64, len: nat },
    Fixed32 { field_number: u32, value: u32, len: nat },
    /// A length-delimited field: tag and length prefix take `header` bytes.
    Len { field_number: u32, length: u64, header: nat },
}

/// Field number in a tag: the tag shifted right by three, in 32 bits.
pub open spec fn tag_field_number(tag: u64) -> u32 {
    (tag >> 3u64) as u32
}

/// Wire type in a tag: its low three bits.
pub open spec fn tag_wire_type(tag: u64) -> u8 {
    (tag & 7) as u8
}

/// Decode the field at the front of `data`.
pub open spec fn decode_field_head(data: Seq<u8>) -> FieldHead {
    match read_varint(data) {
        VarintRead::Underflow => FieldHead::Incomplete,
        VarintRead::TooLong => FieldHead::Invalid {
            kind: ParseErrorKind::VarintTooLong,
            consumed: 10,
        },
        VarintRead::Value { value: tag, len: n } => {
            let field_number = tag_field_number(tag);
            let wire_type = tag_wire_type(tag);
            let rest = data.skip(n as int);
            if field_number == 0 {
                FieldHead::Invalid { kind: ParseErrorKind::InvalidFieldNumber, consumed: n }
            } else if wire_type == 0 {
                match read_varint(rest) {
                    VarintRead::Underflow => FieldHead::Incomplete,
                    VarintRead::TooLong => FieldHead::Invalid {
                        kind: ParseErrorKind::VarintTooLong,
                        consumed: n + 10,
                    },
                    VarintRead::Value { value, len } => FieldHead::Varint {
                        field_number,
                        value,
                        len: n + len,
                    },
                }
            } else if wire_type == 1 {
                if rest.len() < 8 {
                    FieldHead::Incomplete
                } else {
                    FieldHead::Fixed64 { field_number, value: le_u64(rest), len: n + 8 }
                }
            } else if wire_type == 5 {
                if rest.len() < 4 {
                    FieldHead::Incomplete
                } else {
                    FieldHead::Fixed32 { field_number, value: le_u32(rest), len: n + 4 }
                }
            } else if wire_type == 2 {
                match read_varint(rest) {
                    VarintRead::Underflow => FieldHead::Incomplete,
                    VarintRead::TooLong => FieldHead::Invalid {
                        kind: ParseErrorKind::VarintTooLong,
                        consumed: n + 10,
                    },
                    VarintRead::Value { value: length, len } => {
                        if (length as i64) < 0 {
                            FieldHead::Invalid {
                                kind: ParseErrorKind::NegativeLength(length as i64),
                                consumed: n + len,
                            }
                        } else {
                            FieldHead::Len { field_number, length, header: n + len }
                        }
                    },
                }
            } else {
                FieldHead::Invalid { kind: ParseErrorKind::UnknownWireType(wire_type), consumed: n }
            }
        },
    }
}

/// Reading a field head takes at least one byte, and never more than there are.
pub proof fn lemma_decode_field_head_bounds(d: Seq<u8>)
    ensures
        match decode_field_head(d) {
            FieldHead::Incomplete => true,
            FieldHead::Invalid { consumed, .. } => consumed <= d.len(),
            FieldHead::Varint { len, .. } => 0 < len <= d.len(),
            FieldHead::Fixed64 { len, .. } => 0 < len <= d.len(),
            FieldHead::Fixed32 { len, .. } => 0 < len <= d.len(),
            FieldHead::Len { header, .. } => 0 < header <= d.len(),
        },
{
    lemma_scan_varint_len(d, 0);
    if let VarintRead::Value { value: tag, len: n } = read_varint(d) {
        lemma_scan_varint_len(d.skip(n as int), 0);
    }
}

/// One parsing step on a field, given the handler's answer to `is_message`.
pub enum Step {
    /// The field was handled: `consumed` bytes, these `events`, and the new stack.
    Advance { consumed: nat, events: Seq<Callback>, stack: Seq<int>, asked: bool },
    /// The field is incomplete; these `events` happened before that was found.
    Stop { events: Seq<Callback>, asked: bool },
    /// The field is malformed.
    Fail { kind: ParseErrorKind, consumed: nat },
}

/// Every open message has `consumed` fewer bytes left.
pub open spec fn count_down(stack: Seq<int>, consumed: nat) -> Seq<int> {
    stack.map_values(|remaining: int| remaining - consumed)
}

/// The content length the parser uses for a length prefix (a `usize`).
pub open spec fn content_len(length: u64) -> nat {
    (length as usize) as nat
}

/// Parse the field at the front of `data` with open messages `stack`, where
/// `answer` is what `is_message` returns if it is asked.
pub open spec fn field_step(stack: Seq<int>, data: Seq<u8>, answer: bool) -> Step {
    match decode_field_head(data) {
        FieldHead::Incomplete => Step::Stop { events: Seq::empty(), asked: false },
        FieldHead::Invalid { kind, consumed } => Step::Fail { kind, consumed },
        FieldHead::Varint { field_number, value, len } => Step::Advance {
            consumed: len,
            events: seq![Callback::Varint(field_number, value)],
            stack: count_down(stack, len),
            asked: false,
        },
        FieldHead::Fixed64 { field_number, value, len } => Step::Advance {
            consumed: len,
            events: seq![Callback::Fixed64(field_number, value)],
            stack: count_down(stack, len),
            asked: false,
        },
        FieldHead::Fixed32 { field_number, value, len } => Step::Advance {
            consumed: len,
            events: seq![Callback::Fixed32(field_number, value)],
            stack: count_down(stack, len),
            asked: false,
        },
        FieldHead::Len { field_number, length, header } => {
            let n = content_len(length);
            if answer {
                Step::Advance {
                    consumed: header,
                    events: seq![
                        Callback::IsMessage(field_number, true),
                        Callback::StartMessage(field_number),
                    ],
                    stack: count_down(stack, header).push(n as int),
                    asked: true,
                }
            } else if data.len() < header + n {
                Step::Stop { events: seq![Callback::IsMessage(field_number, false)], asked: true }
            } else {
                Step::Advance {
                    consumed: header + n,
                    events: seq![
                        Callback::IsMessage(field_number, false),
                        Callback::Bytes(field_number, data.subrange(header as int, (header + n) as int)),
                    ],
                    stack: count_down(stack, header + n),
                    asked: true,
                }
            }
        },
    }
}

/// The messages left open once every innermost message with nothing left is closed.
pub open spec fn open_messages(stack: Seq<int>) -> Seq<int>
    decreases stack.len(),
{
    if stack.len() > 0 && stack.last() <= 0 {
        open_messages(stack.drop_last())
    } else {
        stack
    }
}

/// How many innermost messages with nothing left get closed.
pub open spec fn finished_messages(stack: Seq<int>) -> nat
    decreases stack.len(),
{
    if stack.len() > 0 && stack.last() <= 0 {
        1 + finished_messages(stack.drop_last())
    } else {
        0
    }
}

/// The open messages are the outermost ones of the stack, unchanged.
pub proof fn lemma_open_messages_prefix(stack: Seq<int>)
    ensures
        open_messages(stack).len() <= stack.len(),
        forall|i: int| 0 <= i < open_messages(stack).len() ==> open_messages(stack)[i] == stack[i],
    decreases stack.len(),
{
    if stack.len() > 0 && stack.last() <= 0 {
        lemma_open_messages_prefix(stack.drop_last());
        assert forall|i: int| 0 <= i < open_messages(stack).len() implies open_messages(stack)[i]
            == stack[i] by {
            assert(stack.drop_last()[i] == stack[i]);
        }
    }
}

/// `n` calls of `end_message`.
pub open spec fn end_events(n: nat) -> Seq<Callback> {
    Seq::new(n, |i: int| Callback::EndMessage)
}

/// The first answer, or `false` (the handler's default) when there is none.
pub open spec fn first_answer(answers: Seq<bool>) -> bool {
    if answers.len() > 0 {
        answers[0]
    } else {
        false
    }
}

/// The answers left once the first one, if asked for, is used.
pub open spec fn rest_answers(answers: Seq<bool>, asked: bool) -> Seq<bool> {
    if asked && answers.len() > 0 {
        answers.drop_first()
    } else {
        answers
    }
}

/// A step that takes input takes at least one byte and no more than there is.
pub proof fn lemma_field_step_consumes(stack: Seq<int>, data: Seq<u8>, answer: bool)
    ensures
        field_step(stack, data, answer) matches Step::Advance { consumed, .. } ==> 0 < consumed
            <= data.len(),
{
    lemma_scan_varint_len(data, 0);
    if let VarintRead::Value { value: tag, len: n } = read_varint(data) {
        lemma_scan_varint_len(data.skip(n as int), 0);
    }
}

/// What one call of `receive` does, starting with open messages `stack`, on
/// input `data`, where `answers` are the handler's answers to `is_message`, in order.
#[verifier::opaque]
pub open spec fn spec_receive(stack: Seq<int>, data: Seq<u8>, answers: Seq<bool>) -> Outcome
    decreases data.len(),
{
    let open = open_messages(stack);
    let ends = end_events(finished_messages(stack));
    if data.len() == 0 {
        Outcome { events: ends, consumed: 0, stack: open, status: Status::Complete }
    } else {
        match field_step(open, data, first_answer(answers)) {
            Step::Stop { events, .. } => Outcome {
                events: ends + events,
                consumed: 0,
                stack: open,
                status: Status::Underflow,
            },
            Step::Fail { kind, consumed } => Outcome {
                events: ends,
                consumed,
                stack: open,
                status: Status::Failed(kind),
            },
            Step::Advance { consumed, events, stack: next, asked } => {
                proof {
                    lemma_field_step_consumes(open, data, first_answer(answers));
                }
                let rest = spec_receive(
                    next,
                    data.skip(consumed as int),
                    rest_answers(answers, asked),
                );
                Outcome {
                    events: ends + events + rest.events,
                    consumed: consumed + rest.consumed,
                    stack: rest.stack,
                    status: rest.status,
                }
            },
        }
    }
}

/// One handled field, then the rest of the run.
pub proof fn lemma_receive_advance(stack: Seq<int>, data: Seq<u8>, answers: Seq<bool>)
    requires
        data.len() > 0,
        field_step(open_messages(stack), data, first_answer(answers)) is Advance,
    ensures
        ({
            let step = field_step(open_messages(stack), data, first_answer(answers));
            let rest = spec_receive(
                step->Advance_stack,
                data.skip(step->Advance_consumed as int),
                rest_answers(answers, step->Advance_asked),
            );
            spec_receive(stack, data, answers) == (Outcome {
                events: end_events(finished_messages(stack)) + step->Advance_events + rest.events,
                consumed: step->Advance_consumed + rest.consumed,
                stack: rest.stack,
                status: rest.status,
            })
        }),
{
    reveal(spec_receive);
}

/// The answers to `is_message` recorded in a sequence of callbacks.
pub open spec fn answers_of(events: Seq<Callback>) -> Seq<bool>
    decreases events.len(),
{
    if events.len() == 0 {
        Seq::empty()
    } else {
        let init = answers_of(events.drop_last());
        match events.last() {
            Callback::IsMessage(_, answer) => init.push(answer),
            _ => init,
        }
    }
}

/// Answers of concatenated callbacks are the concatenated answers.
pub proof fn lemma_answers_of_concat(x: Seq<Callback>, y: Seq<Callback>)
    ensures
        answers_of(x + y) == answers_of(x) + answers_of(y),
    decreases y.len(),
{
    if y.len() == 0 {
        assert(x + y =~= x);
        assert(answers_of(x) + answers_of(y) =~= answers_of(x));
    } else {
        lemma_answers_of_concat(x, y.drop_last());
        assert((x + y).drop_last() =~= x + y.drop_last());
        assert((x + y).last() == y.last());
        match y.last() {
            Callback::IsMessage(_, answer) => {
                assert(answers_of(x) + answers_of(y) =~= (answers_of(x) + answers_of(
                    y.drop_last(),
                )).push(answer));
            },
            _ => {},
        }
    }
}

/// Answers of a few common callback sequences.
pub proof fn lemma_answers_of_small(f: u32, v: u64, w: u32, b: Seq<u8>, a: bool, n: nat)
    ensures
        answers_of(seq![Callback::Varint(f, v)]) == Seq::<bool>::empty(),
        answers_of(seq![Callback::Fixed64(f, v)]) == Seq::<bool>::empty(),
        answers_of(seq![Callback::Fixed32(f, w)]) == Seq::<bool>::empty(),
        answers_of(seq![Callback::IsMessage(f, a)]) == seq![a],
        answers_of(seq![Callback::IsMessage(f, a), Callback::Bytes(f, b)]) == seq![a],
        answers_of(seq![Callback::IsMessage(f, a), Callback::StartMessage(f)]) == seq![a],
        answers_of(end_events(n)) == Seq::<bool>::empty(),
    decreases n,
{
    let e = seq![Callback::Varint(f, v)];
    assert(e.drop_last() =~= Seq::<Callback>::empty());
    let e = seq![Callback::Fixed64(f, v)];
    assert(e.drop_last() =~= Seq::<Callback>::empty());
    let e = seq![Callback::Fixed32(f, w)];
    assert(e.drop_last() =~= Seq::<Callback>::empty());
    let q = seq![Callback::IsMessage(f, a)];
    assert(q.drop_last() =~= Seq::<Callback>::empty());
    assert(answers_of(Seq::<Callback>::empty()) == Seq::<bool>::empty());
    assert(q.last() == Callback::IsMessage(f, a));
    assert(answers_of(q) =~= Seq::<bool>::empty().push(a));
    assert(answers_of(q) =~= seq![a]);
    let e = seq![Callback::IsMessage(f, a), Callback::Bytes(f, b)];
    assert(e.drop_last() =~= q);
    let e = seq![Callback::IsMessage(f, a), Callback::StartMessage(f)];
    assert(e.drop_last() =~= q);
    if n > 0 {
        lemma_answers_of_small(f, v, w, b, a, (n - 1) as nat);
        assert(end_events(n).drop_last() =~= end_events((n - 1) as nat));
    } else {
        assert(end_events(n) =~= Seq::<Callback>::empty());
    }
}

/// `o` preceded by `events` and `consumed` bytes.
pub open spec fn after_prefix(events: Seq<Callback>, consumed: nat, o: Outcome) -> Outcome {
    Outcome {
        events: events + o.events,
        consumed: consumed + o.consumed,
        stack: o.stack,
        status: o.status,
    }
}

/// Parsing `d0` from open messages `st0` has so far made callbacks `ev` and
/// taken `c` bytes, reaching open messages `s` with input `d` left: whatever the
/// handler answers from here on, the whole run is this prefix followed by a run on `d`.
pub open spec fn tracks(
    st0: Seq<int>,
    d0: Seq<u8>,
    ev: Seq<Callback>,
    c: nat,
    s: Seq<int>,
    d: Seq<u8>,
) -> bool {
    forall|a: Seq<bool>| #[trigger]
        spec_receive(st0, d0, answers_of(ev) + a) =~= after_prefix(ev, c, spec_receive(s, d, a))
}

/// A run starts out tracking itself.
pub proof fn lemma_tracks_start(st0: Seq<int>, d0: Seq<u8>)
    ensures
        tracks(st0, d0, Seq::empty(), 0, st0, d0),
{
    assert(answers_of(Seq::<Callback>::empty()) =~= Seq::<bool>::empty());
    assert forall|a: Seq<bool>| #[trigger]
        spec_receive(st0, d0, answers_of(Seq::<Callback>::empty()) + a) =~= after_prefix(
            Seq::empty(),
            0,
            spec_receive(st0, d0, a),
        ) by {
        assert(answers_of(Seq::<Callback>::empty()) + a =~= a);
        assert(Seq::<Callback>::empty() + spec_receive(st0, d0, a).events =~= spec_receive(
            st0,
            d0,
            a,
        ).events);
    }
}

/// The answer the handler gives matters only for length-delimited fields.
pub open spec fn answer_matters(d: Seq<u8>, b: bool) -> bool {
    decode_field_head(d) is Len || !b
}

/// After a field is handled, the run still tracks.
pub proof fn lemma_tracks_advance(
    st0: Seq<int>,
    d0: Seq<u8>,
    ev: Seq<Callback>,
    c: nat,
    s: Seq<int>,
    d: Seq<u8>,
    b: bool,
)
    requires
        tracks(st0, d0, ev, c, s, d),
        d.len() > 0,
        answer_matters(d, b),
        field_step(open_messages(s), d, b) is Advance,
    ensures
        ({
            let step = field_step(open_messages(s), d, b);
            tracks(
                st0,
                d0,
                ev + end_events(finished_messages(s)) + step->Advance_events,
                c + step->Advance_consumed,
                step->Advance_stack,
                d.skip(step->Advance_consumed as int),
            )
        }),
{
    reveal(spec_receive);
    let open = open_messages(s);
    let ends = end_events(finished_messages(s));
    let step = field_step(open, d, b);
    let events = step->Advance_events;
    let k = step->Advance_consumed;
    let s2 = step->Advance_stack;
    let asked = step->Advance_asked;
    let ev2 = ev + ends + events;
    lemma_field_step_consumes(open, d, b);
    let (f, v, w, bs): (u32, u64, u32, Seq<u8>) = match decode_field_head(d) {
        FieldHead::Varint { field_number, value, .. } => (field_number, value, 0, Seq::empty()),
        FieldHead::Fixed64 { field_number, value, .. } => (field_number, value, 0, Seq::empty()),
        FieldHead::Fixed32 { field_number, value, .. } => (field_number, 0, value, Seq::empty()),
        FieldHead::Len { field_number, length, header } => (
            field_number,
            0,
            0,
            d.subrange(header as int, (header + content_len(length)) as int),
        ),
        _ => (0, 0, 0, Seq::empty()),
    };
    lemma_answers_of_small(f, v, w, bs, b, finished_messages(s));
    let used: Seq<bool> = if asked {
        seq![b]
    } else {
        Seq::empty()
    };
    assert(answers_of(events) == used);
    lemma_answers_of_concat(ev, ends);
    lemma_answers_of_concat(ev + ends, events);
    assert(answers_of(ev2) =~= answers_of(ev) + used);
    assert forall|a: Seq<bool>| #[trigger]
        spec_receive(st0, d0, answers_of(ev2) + a) =~= after_prefix(
            ev2,
            c + k,
            spec_receive(s2, d.skip(k as int), a),
        ) by {
        let a2 = used + a;
        assert(answers_of(ev2) + a =~= answers_of(ev) + a2);
        assert(spec_receive(st0, d0, answers_of(ev) + a2) =~= after_prefix(
            ev,
            c,
            spec_receive(s, d, a2),
        ));
        if asked {
            assert(first_answer(a2) == b);
            assert(rest_answers(a2, asked) =~= a);
        } else {
            assert(a2 =~= a);
            assert(field_step(open, d, first_answer(a2)) == step);
        }
        let rest = spec_receive(s2, d.skip(k as int), a);
        assert(spec_receive(s, d, a2).events =~= ends + events + rest.events);
        assert(ev + (ends + events + rest.events) =~= ev2 + rest.events);
    }
}

/// A run that has reached the end of its input.
pub proof fn lemma_tracks_complete(
    st0: Seq<int>,
    d0: Seq<u8>,
    ev: Seq<Callback>,
    c: nat,
    s: Seq<int>,
    d: Seq<u8>,
)
    requires
        tracks(st0, d0, ev, c, s, d),
        d.len() == 0,
    ensures
        ({
            let all = ev + end_events(finished_messages(s));
            spec_receive(st0, d0, answers_of(all)) =~= Outcome {
                events: all,
                consumed: c,
                stack: open_messages(s),
                status: Status::Complete,
            }
        }),
{
    reveal(spec_receive);
    let ends = end_events(finished_messages(s));
    lemma_answers_of_small(0, 0, 0, Seq::empty(), false, finished_messages(s));
    lemma_answers_of_concat(ev, ends);
    assert(answers_of(ev + ends) =~= answers_of(ev) + Seq::<bool>::empty());
    assert(spec_receive(st0, d0, answers_of(ev) + Seq::<bool>::empty()) =~= after_prefix(
        ev,
        c,
        spec_receive(s, d, Seq::<bool>::empty()),
    ));
}

/// A run that stops at an incomplete field.
pub proof fn lemma_tracks_stop(
    st0: Seq<int>,
    d0: Seq<u8>,
    ev: Seq<Callback>,
    c: nat,
    s: Seq<int>,
    d: Seq<u8>,
    b: bool,
)
    requires
        tracks(st0, d0, ev, c, s, d),
        d.len() > 0,
        answer_matters(d, b),
        field_step(open_messages(s), d, b) is Stop,
    ensures
        ({
            let all = ev + end_events(finished_messages(s)) + field_step(
                open_messages(s),
                d,
                b,
            )->Stop_events;
            spec_receive(st0, d0, answers_of(all)) =~= Outcome {
                events: all,
                consumed: c,
                stack: open_messages(s),
                status: Status::Underflow,
            }
        }),
{
    reveal(spec_receive);
    let open = open_messages(s);
    let ends = end_events(finished_messages(s));
    let step = field_step(open, d, b);
    let events = step->Stop_events;
    let asked = step->Stop_asked;
    let f = match decode_field_head(d) {
        FieldHead::Len { field_number, .. } => field_number,
        _ => 0,
    };
    lemma_answers_of_small(f, 0, 0, Seq::empty(), b, finished_messages(s));
    let used: Seq<bool> = if asked {
        seq![b]
    } else {
        Seq::empty()
    };
    assert(answers_of(Seq::<Callback>::empty()) =~= Seq::<bool>::empty());
    assert(answers_of(events) == used);
    lemma_answers_of_concat(ev, ends);
    lemma_answers_of_concat(ev + ends, events);
    let all = ev + ends + events;
    assert(answers_of(all) =~= answers_of(ev) + used);
    assert(spec_receive(st0, d0, answers_of(ev) + used) =~= after_prefix(
        ev,
        c,
        spec_receive(s, d, used),
    ));
    if !asked {
        assert(field_step(open, d, first_answer(used)) == step);
    }
    assert(ev + (ends + events) =~= all);
}

/// A run that stops at a malformed field.
pub proof fn lemma_tracks_fail(
    st0: Seq<int>,
    d0: Seq<u8>,
    ev: Seq<Callback>,
    c: nat,
    s: Seq<int>,
    d: Seq<u8>,
)
    requires
        tracks(st0, d0, ev, c, s, d),
        d.len() > 0,
        decode_field_head(d) is Invalid,
    ensures
        ({
            let all = ev + end_events(finished_messages(s));
            let head = decode_field_head(d);
            spec_receive(st0, d0, answers_of(all)) =~= Outcome {
                events: all,
                consumed: c + head->Invalid_consumed,
                stack: open_messages(s),
                status: Status::Failed(head->Invalid_kind),
            }
        }),
{
    reveal(spec_receive);
    let ends = end_events(finished_messages(s));
    lemma_answers_of_small(0, 0, 0, Seq::empty(), false, finished_messages(s));
    lemma_answers_of_concat(ev, ends);
    assert(answers_of(ev + ends) =~= answers_of(ev) + Seq::<bool>::empty());
    assert(spec_receive(st0, d0, answers_of(ev) + Seq::<bool>::empty()) =~= after_prefix(
        ev,
        c,
        spec_receive(s, d, Seq::<bool>::empty()),
    ));
}

/// The callbacks that go to the handler as calls that change it: all but the
/// `is_message` questions.
pub open spec fn handler_calls(events: Seq<Callback>) -> Seq<Callback>
    decreases events.len(),
{
    if events.len() == 0 {
        Seq::empty()
    } else {
        let init = handler_calls(events.drop_last());
        if events.last() is IsMessage {
            init
        } else {
            init.push(events.last())
        }
    }
}

/// Handler calls of concatenated callbacks are the concatenated handler calls.
pub proof fn lemma_handler_calls_concat(x: Seq<Callback>, y: Seq<Callback>)
    ensures
        handler_calls(x + y) == handler_calls(x) + handler_calls(y),
    decreases y.len(),
{
    if y.len() == 0 {
        assert(x + y =~= x);
        assert(handler_calls(x) + handler_calls(y) =~= handler_calls(x));
    } else {
        lemma_handler_calls_concat(x, y.drop_last());
        assert((x + y).drop_last() =~= x + y.drop_last());
        assert((x + y).last() == y.last());
        if !(y.last() is IsMessage) {
            assert(handler_calls(x) + handler_calls(y) =~= (handler_calls(x) + handler_calls(
                y.drop_last(),
            )).push(y.last()));
        }
    }
}

/// Every `is_message` question in `events` got the answer that `answer` gives.
pub open spec fn answers_follow(events: Seq<Callback>, answer: spec_fn(u32) -> bool) -> bool {
    forall|i: int|
        0 <= i < events.len() ==> (#[trigger] events[i] matches Callback::IsMessage(f, a) ==> a
            == answer(f))
}

/// Answers that follow `answer` in two runs follow it in both together.
pub proof fn lemma_answers_follow_concat(
    x: Seq<Callback>,
    y: Seq<Callback>,
    answer: spec_fn(u32) -> bool,
)
    requires
        answers_follow(x, answer),
        answers_follow(y, answer),
    ensures
        answers_follow(x + y, answer),
{
    assert forall|i: int| 0 <= i < (x + y).len() implies (#[trigger] (x + y)[i] matches Callback::IsMessage(
        f,
        a,
    ) ==> a == answer(f)) by {
        if i < x.len() {
            assert((x + y)[i] == x[i]);
        } else {
            assert((x + y)[i] == y[i - x.len()]);
        }
    }
}

/// When every answer is "no", the answers recorded are all "no".
pub proof fn lemma_answers_all_no(events: Seq<Callback>)
    requires
        answers_follow(events, |f: u32| false),
    ensures
        forall|i: int| 0 <= i < answers_of(events).len() ==> !#[trigger] answers_of(events)[i],
    decreases events.len(),
{
    if events.len() > 0 {
        let init = events.drop_last();
        assert forall|i: int| 0 <= i < init.len() implies (#[trigger] init[i] matches Callback::IsMessage(
            f,
            a,
        ) ==> a == false) by {
            assert(init[i] == events[i]);
        }
        lemma_answers_all_no(init);
        let prev = answers_of(init);
        match events.last() {
            Callback::IsMessage(f, a) => {
                assert(events[events.len() - 1] matches Callback::IsMessage(_, b) && b == a);
                assert(!a);
                assert forall|i: int| 0 <= i < prev.push(a).len() implies !#[trigger] prev.push(
                    a,
                )[i] by {
                    if i < prev.len() {
                        assert(prev.push(a)[i] == prev[i]);
                    }
                }
            },
            _ => {},
        }
    }
}

} // verus!
