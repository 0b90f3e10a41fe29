//! Push-based protobuf parser.

use crate::error::{kind_text, ParseError, ParseErrorKind};
use crate::handler::{same_answers, EventSink};
use crate::parse_model::{
    answer_matters, answers_follow, answers_of, content_len, count_down, decode_field_head,
    end_events, handler_calls, lemma_answers_follow_concat, lemma_handler_calls_concat,
    field_step, finished_messages, lemma_decode_field_head_bounds, lemma_field_step_consumes,
    lemma_open_messages_prefix, lemma_tracks_advance, lemma_tracks_complete, lemma_tracks_fail,
    lemma_tracks_start, lemma_tracks_stop, open_messages, spec_receive, tag_field_number,
    tag_wire_type, tracks, Callback, FieldHead, Status, Step,
};
use crate::wire::{WIRETYPE_I32, WIRETYPE_I64, WIRETYPE_LEN, WIRETYPE_VARINT};
use crate::wire_format::{
    le_u32, le_u64, lemma_scan_varint_len, lemma_varint_bits_push, read_varint, scan_varint,
    varint_bits, VarintRead,
};
use vstd::prelude::*;
use vstd::slice::slice_subrange;

verus! {

/// Push-based protobuf parser.
pub struct Parser<'a, H: EventSink + ?Sized> {
    handler: &'a mut H,
    message_stack: Vec<i64>,
    underflow: bool,
    callbacks: Ghost<Seq<Callback>>,
}

/// The field at the front of the input, read up to the point where the
/// handler must be asked about it.
enum FieldStart {
    Incomplete,
    Invalid(ParseError),
    Varint(u32, u64),
    Fixed64(u32, u64),
    Fixed32(u32, u32),
    Len(u32, usize),
}

impl<'a, H: EventSink + ?Sized> Parser<'a, H> {
    /// Remaining byte counts of the open embedded messages, outermost first.
    pub closed spec fn stack(&self) -> Seq<int> {
        self.message_stack@.map_values(|remaining: i64| remaining as int)
    }

    /// Whether the last `receive` stopped inside a field.
    pub closed spec fn spec_underflow(&self) -> bool {
        self.underflow
    }

    /// Every call this parser has made on its handler, in order.
    pub closed spec fn callbacks(&self) -> Seq<Callback> {
        self.callbacks@
    }

    /// The handler, as it is now.
    pub closed spec fn handler(&self) -> &H {
        &*self.handler
    }

    /// The borrow of the handler that the parser holds.
    pub closed spec fn handler_borrow(&self) -> &'a mut H {
        self.handler
    }

    /// Once a parser is done with, its handler is as the parser last left it:
    /// what the parser's contracts say of `handler()` is then true of the
    /// borrowed handler itself.
    pub broadcast proof fn lemma_handler_released(p: Self)
        ensures
            #[trigger] has_resolved(p) ==> p.handler() == &*final(p.handler_borrow()),
    {
    }

    /// From `before` to `after` the parser extended its log with some
    /// callbacks and made exactly those on its handler: a recorded handler's
    /// calls grew by them (the `is_message` questions aside), a decided
    /// handler answered each question as it would at `before` and kept its
    /// answers.
    pub open spec fn reported(before: Self, after: Self) -> bool {
        let events = after.callbacks().skip(before.callbacks().len() as int);
        &&& before.callbacks().len() <= after.callbacks().len()
        &&& after.callbacks().take(before.callbacks().len() as int) == before.callbacks()
        &&& H::recorded() ==> after.handler().calls() == before.handler().calls() + handler_calls(
            events,
        )
        &&& H::decided() ==> answers_follow(events, |f: u32| before.handler().answer(f))
        &&& H::decided() ==> same_answers(after.handler(), before.handler())
    }

    /// Nothing was logged and the handler was left alone.
    proof fn lemma_reported_quiet(before: Self, after: Self)
        requires
            after.callbacks() == before.callbacks(),
            after.handler() == before.handler(),
        ensures
            Self::reported(before, after),
    {
        let events = after.callbacks().skip(before.callbacks().len() as int);
        assert(events =~= Seq::<Callback>::empty());
        assert(after.callbacks().take(before.callbacks().len() as int) =~= before.callbacks());
        assert(handler_calls(Seq::<Callback>::empty()) =~= Seq::<Callback>::empty());
        assert(before.handler().calls() + Seq::<Callback>::empty() =~= before.handler().calls());
    }

    /// One logged call that was made on the handler.
    proof fn lemma_reported_call(before: Self, after: Self, c: Callback)
        requires
            !(c is IsMessage),
            after.callbacks() == before.callbacks().push(c),
            H::recorded() ==> after.handler().calls() == before.handler().calls().push(c),
            H::decided() ==> same_answers(after.handler(), before.handler()),
        ensures
            Self::reported(before, after),
    {
        let events = after.callbacks().skip(before.callbacks().len() as int);
        assert(events =~= seq![c]);
        assert(after.callbacks().take(before.callbacks().len() as int) =~= before.callbacks());
        assert(seq![c].drop_last() =~= Seq::<Callback>::empty());
        assert(handler_calls(Seq::<Callback>::empty()) =~= Seq::<Callback>::empty());
        assert(seq![c].last() == c);
        assert(handler_calls(seq![c]) =~= seq![c]);
        assert(before.handler().calls().push(c) =~= before.handler().calls() + seq![c]);
    }

    /// One logged `is_message` question, answered `a`.
    proof fn lemma_reported_question(before: Self, after: Self, f: u32, a: bool)
        requires
            after.callbacks() == before.callbacks().push(Callback::IsMessage(f, a)),
            after.handler() == before.handler(),
            H::decided() ==> a == before.handler().answer(f),
        ensures
            Self::reported(before, after),
    {
        let c = Callback::IsMessage(f, a);
        let events = after.callbacks().skip(before.callbacks().len() as int);
        assert(events =~= seq![c]);
        assert(after.callbacks().take(before.callbacks().len() as int) =~= before.callbacks());
        assert(seq![c].drop_last() =~= Seq::<Callback>::empty());
        assert(handler_calls(Seq::<Callback>::empty()) =~= Seq::<Callback>::empty());
        assert(seq![c].last() == c);
        assert(handler_calls(seq![c]) =~= Seq::<Callback>::empty());
        assert(before.handler().calls() + Seq::<Callback>::empty() =~= before.handler().calls());
        assert(events[0] == c);
    }

    /// Reporting from `a` to `b` and from `b` to `c` is reporting from `a` to `c`.
    proof fn lemma_reported_trans(a: Self, b: Self, c: Self)
        requires
            Self::reported(a, b),
            Self::reported(b, c),
        ensures
            Self::reported(a, c),
    {
        let ab = b.callbacks().skip(a.callbacks().len() as int);
        let bc = c.callbacks().skip(b.callbacks().len() as int);
        let ac = c.callbacks().skip(a.callbacks().len() as int);
        assert(b.callbacks() =~= a.callbacks() + ab);
        assert(c.callbacks() =~= b.callbacks() + bc);
        assert(ac =~= ab + bc);
        assert(c.callbacks().take(a.callbacks().len() as int) =~= a.callbacks());
        lemma_handler_calls_concat(ab, bc);
        if H::recorded() {
            assert(c.handler().calls() =~= a.handler().calls() + handler_calls(ac));
        }
        if H::decided() {
            let by_a = |f: u32| a.handler().answer(f);
            let by_b = |f: u32| b.handler().answer(f);
            assert(forall|f: u32| #[trigger] b.handler().answer(f) == a.handler().answer(f));
            assert forall|i: int| 0 <= i < bc.len() implies (#[trigger] bc[i] matches Callback::IsMessage(
                f,
                x,
            ) ==> x == by_a(f)) by {
                if let Callback::IsMessage(f, x) = bc[i] {
                    assert(x == by_b(f));
                    assert(b.handler().answer(f) == a.handler().answer(f));
                }
            }
            lemma_answers_follow_concat(ab, bc, by_a);
            assert forall|f: u32| #[trigger] c.handler().answer(f) == a.handler().answer(f) by {
                assert(c.handler().answer(f) == b.handler().answer(f));
                assert(b.handler().answer(f) == a.handler().answer(f));
            }
        }
    }

    /// Counting `n` more bytes against every open message stays within `i64`.
    pub open spec fn has_room_for(&self, n: nat) -> bool {
        &&& n <= i64::MAX
        &&& forall|i: int| 0 <= i < self.stack().len() ==> self.stack()[i] - n >= i64::MIN
    }

    /// A parser that reports to `handler`, with no open messages.
    pub fn new(handler: &'a mut H) -> (p: Self)
        ensures
            p.stack() == Seq::<int>::empty(),
            !p.spec_underflow(),
            p.callbacks() == Seq::<Callback>::empty(),
            p.handler() == &*old(handler),
            &*final(p.handler_borrow()) == &*final(handler),
    {
        let p = Parser {
            handler,
            message_stack: Vec::new(),
            underflow: false,
            callbacks: Ghost(Seq::empty()),
        };
        assert(p.stack() =~= Seq::<int>::empty());
        p
    }

    /// Whether the last `receive` stopped inside an incomplete field.
    pub fn is_underflow(&self) -> (b: bool)
        ensures
            b == self.spec_underflow(),
    {
        self.underflow
    }

    /// Parse as many complete fields as possible from the front of `data`.
    ///
    /// Advances `data` by the number of bytes consumed. On underflow, parsing
    /// stops before the incomplete field and `is_underflow()` returns true.
    pub fn receive(&mut self, data: &mut &[u8]) -> (r: Result<(), ParseError>)
        requires
            old(self).has_room_for(old(data)@.len()),
        ensures
            ({
                let new_events = final(self).callbacks().skip(old(self).callbacks().len() as int);
                let o = spec_receive(old(self).stack(), old(data)@, answers_of(new_events));
                &&& final(self).callbacks() == old(self).callbacks() + o.events
                &&& final(data)@ == old(data)@.skip(o.consumed as int)
                &&& final(self).stack() == o.stack
                &&& final(self).spec_underflow() == (o.status is Underflow)
                &&& H::recorded() ==> final(self).handler().calls() == old(self).handler().calls()
                    + handler_calls(o.events)
                &&& H::decided() ==> answers_follow(o.events, |f: u32| old(self).handler().answer(f))
                &&& match o.status {
                    Status::Failed(kind) => r matches Err(e) && e.spec_kind() == kind && e.text()
                        == kind_text(kind),
                    _ => r is Ok,
                }
            }),
            Self::reported(*old(self), *final(self)),
            &*final(final(self).handler_borrow()) == &*final(old(self).handler_borrow()),
    {
        self.underflow = false;
        proof {
            Self::lemma_reported_quiet(*old(self), *self);
        }
        assert(self.stack() == old(self).stack());
        let ghost st0 = self.stack();
        let ghost d0 = (*data)@;
        let ghost log0 = self.callbacks@;
        let ghost mut ev: Seq<Callback> = Seq::empty();
        let ghost mut consumed: nat = 0;
        proof {
            lemma_tracks_start(st0, d0);
        }
        loop
            invariant
                self.callbacks@ == log0 + ev,
                consumed <= d0.len(),
                (*data)@ == d0.skip(consumed as int),
                !self.underflow,
                self.has_room_for((*data)@.len()),
                tracks(st0, d0, ev, consumed, self.stack(), (*data)@),
                st0 == old(self).stack(),
                d0 == old(data)@,
                log0 == old(self).callbacks(),
                Self::reported(*old(self), *self),
                &*final(self.handler_borrow()) == &*final(old(self).handler_borrow()),
            decreases (*data)@.len(),
        {
            let ghost s = self.stack();
            let ghost d = (*data)@;
            proof {
                lemma_open_messages_prefix(s);
            }
            let ghost before_close = *self;
            self.close_finished_messages();
            proof {
                Self::lemma_reported_trans(*old(self), before_close, *self);
            }
            assert forall|i: int| 0 <= i < self.stack().len() implies self.stack()[i] - d.len()
                >= i64::MIN by {
                assert(self.stack()[i] == s[i]);
            }
            let ghost all = ev + end_events(finished_messages(s));
            assert(self.callbacks@ =~= log0 + all);
            if data.is_empty() {
                proof {
                    lemma_tracks_complete(st0, d0, ev, consumed, s, d);
                    assert(self.callbacks().skip(log0.len() as int) =~= all);
                }
                return Ok(());
            }
            let ghost before_field = *self;
            let (result, Ghost(answer)) = self.parse_field(data);
            proof {
                Self::lemma_reported_trans(*old(self), before_field, *self);
            }
            let ghost step = field_step(open_messages(s), d, answer);
            match result {
                FieldResult::Handled => {
                    proof {
                        lemma_field_step_consumes(open_messages(s), d, answer);
                        lemma_tracks_advance(st0, d0, ev, consumed, s, d, answer);
                        ev = all + step->Advance_events;
                        consumed = consumed + step->Advance_consumed;
                        assert(self.callbacks@ =~= log0 + ev);
                        assert((*data)@ =~= d0.skip(consumed as int));
                    }
                },
                FieldResult::Stopped => {
                    proof {
                        lemma_tracks_stop(st0, d0, ev, consumed, s, d, answer);
                        let whole = all + step->Stop_events;
                        assert(self.callbacks@ =~= log0 + whole);
                        assert(self.callbacks().skip(log0.len() as int) =~= whole);
                    }
                    return Ok(());
                },
                FieldResult::Failed(e) => {
                    proof {
                        lemma_decode_field_head_bounds(d);
                        lemma_tracks_fail(st0, d0, ev, consumed, s, d);
                        assert(self.callbacks().skip(log0.len() as int) =~= all);
                        assert((*data)@ =~= d0.skip(
                            (consumed + decode_field_head(d)->Invalid_consumed) as int,
                        ));
                    }
                    return Err(e);
                },
            }
        }
    }

    /// Parse the field at the front of `data` (which is not empty), making the
    /// handler calls for it; also gives back the handler's answer to
    /// `is_message`, when it was asked.
    fn parse_field(&mut self, data: &mut &[u8]) -> (r: (FieldResult, Ghost<bool>))
        requires
            old(data)@.len() > 0,
            old(self).has_room_for(old(data)@.len()),
            !old(self).underflow,
        ensures
            ({
                let answer = r.1@;
                let d = old(data)@;
                &&& answer_matters(d, answer)
                &&& match field_step(old(self).stack(), d, answer) {
                    Step::Advance { consumed, events, stack, .. } => {
                        &&& r.0 is Handled
                        &&& final(self).callbacks() == old(self).callbacks() + events
                        &&& final(self).stack() == stack
                        &&& final(data)@ == d.skip(consumed as int)
                        &&& !final(self).underflow
                        &&& final(self).has_room_for(final(data)@.len())
                    },
                    Step::Stop { events, .. } => {
                        &&& r.0 is Stopped
                        &&& final(self).callbacks() == old(self).callbacks() + events
                        &&& final(self).stack() == old(self).stack()
                        &&& final(data)@ == d
                        &&& final(self).underflow
                    },
                    Step::Fail { kind, consumed } => {
                        &&& r.0 matches FieldResult::Failed(e) && e.spec_kind() == kind && e.text()
                            == kind_text(kind)
                        &&& final(self).callbacks() == old(self).callbacks()
                        &&& final(self).stack() == old(self).stack()
                        &&& final(data)@ == d.skip(consumed as int)
                        &&& !final(self).underflow
                    },
                }
            }),
            Self::reported(*old(self), *final(self)),
            &*final(final(self).handler_borrow()) == &*final(old(self).handler_borrow()),
    {
        let ghost d = (*data)@;
        proof {
            lemma_decode_field_head_bounds(d);
        }
        let field_start = *data;
        let head = read_field_head(data);
        let ghost start = *old(self);
        match head {
            FieldStart::Incomplete => {
                *data = field_start;
                self.underflow = true;
                proof {
                    Self::lemma_reported_quiet(*old(self), *self);
                }
                (FieldResult::Stopped, Ghost(false))
            },
            FieldStart::Invalid(e) => {
                proof {
                    Self::lemma_reported_quiet(*old(self), *self);
                }
                (FieldResult::Failed(e), Ghost(false))
            },
            FieldStart::Varint(field_number, value) => {
                let n = field_start.len() - data.len();
                self.handler.handle_varint(field_number, value);
                self.callbacks = Ghost(self.callbacks@.push(Callback::Varint(field_number, value)));
                let ghost called = *self;
                self.decrement_message_bytes(n);
                proof {
                    Self::lemma_reported_call(start, called, Callback::Varint(field_number, value));
                    Self::lemma_reported_trans(start, called, *self);
                }
                assert(self.callbacks@ =~= old(self).callbacks@ + seq![
                    Callback::Varint(field_number, value),
                ]);
                (FieldResult::Handled, Ghost(false))
            },
            FieldStart::Fixed64(field_number, value) => {
                let n = field_start.len() - data.len();
                self.handler.handle_fixed64(field_number, value);
                self.callbacks = Ghost(
                    self.callbacks@.push(Callback::Fixed64(field_number, value)),
                );
                let ghost called = *self;
                self.decrement_message_bytes(n);
                proof {
                    Self::lemma_reported_call(start, called, Callback::Fixed64(field_number, value));
                    Self::lemma_reported_trans(start, called, *self);
                }
                assert(self.callbacks@ =~= old(self).callbacks@ + seq![
                    Callback::Fixed64(field_number, value),
                ]);
                (FieldResult::Handled, Ghost(false))
            },
            FieldStart::Fixed32(field_number, value) => {
                let n = field_start.len() - data.len();
                self.handler.handle_fixed32(field_number, value);
                self.callbacks = Ghost(
                    self.callbacks@.push(Callback::Fixed32(field_number, value)),
                );
                let ghost called = *self;
                self.decrement_message_bytes(n);
                proof {
                    Self::lemma_reported_call(start, called, Callback::Fixed32(field_number, value));
                    Self::lemma_reported_trans(start, called, *self);
                }
                assert(self.callbacks@ =~= old(self).callbacks@ + seq![
                    Callback::Fixed32(field_number, value),
                ]);
                (FieldResult::Handled, Ghost(false))
            },
            FieldStart::Len(field_number, length) => {
                let is_message = self.handler.is_message(field_number);
                self.callbacks = Ghost(
                    self.callbacks@.push(Callback::IsMessage(field_number, is_message)),
                );
                let ghost asked = *self;
                proof {
                    Self::lemma_reported_question(start, asked, field_number, is_message);
                }
                if is_message {
                    let n = field_start.len() - data.len();
                    self.decrement_message_bytes(n);
                    let ghost counted_down = *self;
                    self.handler.start_message(field_number);
                    self.callbacks = Ghost(
                        self.callbacks@.push(Callback::StartMessage(field_number)),
                    );
                    let ghost started = *self;
                    let ghost counted = self.stack();
                    self.message_stack.push(length as i64);
                    proof {
                        Self::lemma_reported_call(
                            counted_down,
                            started,
                            Callback::StartMessage(field_number),
                        );
                        Self::lemma_reported_quiet(started, *self);
                        Self::lemma_reported_trans(start, asked, counted_down);
                        Self::lemma_reported_trans(start, counted_down, started);
                        Self::lemma_reported_trans(start, started, *self);
                    }
                    assert(self.stack() =~= counted.push(length as int));
                    assert(self.callbacks@ =~= old(self).callbacks@ + seq![
                        Callback::IsMessage(field_number, true),
                        Callback::StartMessage(field_number),
                    ]);
                    (FieldResult::Handled, Ghost(true))
                } else {
                    if data.len() < length {
                        *data = field_start;
                        self.underflow = true;
                        proof {
                            Self::lemma_reported_quiet(asked, *self);
                            Self::lemma_reported_trans(start, asked, *self);
                        }
                        assert(self.callbacks@ =~= old(self).callbacks@ + seq![
                            Callback::IsMessage(field_number, false),
                        ]);
                        return (FieldResult::Stopped, Ghost(false));
                    }
                    let content = slice_subrange(*data, 0, length);
                    *data = slice_subrange(*data, length, data.len());
                    let n = field_start.len() - data.len();
                    self.handler.handle_bytes(field_number, content);
                    self.callbacks = Ghost(
                        self.callbacks@.push(Callback::Bytes(field_number, content@)),
                    );
                    let ghost called = *self;
                    self.decrement_message_bytes(n);
                    proof {
                        Self::lemma_reported_call(
                            asked,
                            called,
                            Callback::Bytes(field_number, content@),
                        );
                        Self::lemma_reported_trans(start, asked, called);
                        Self::lemma_reported_trans(start, called, *self);
                        let header = decode_field_head(d)->Len_header;
                        assert(content@ =~= d.subrange(header as int, header + length));
                        assert((*data)@ =~= d.skip(header + length));
                    }
                    assert(self.callbacks@ =~= old(self).callbacks@ + seq![
                        Callback::IsMessage(field_number, false),
                        Callback::Bytes(field_number, content@),
                    ]);
                    (FieldResult::Handled, Ghost(false))
                }
            },
        }
    }

    /// Succeed only if the input ended at a field boundary with no embedded message open.
    pub fn close(&self) -> (r: Result<(), ParseError>)
        ensures
            self.spec_underflow() ==> (r matches Err(e) && e.spec_kind()
                == ParseErrorKind::IncompleteField && e.text() == kind_text(e.spec_kind())),
            !self.spec_underflow() && self.stack().len() > 0 ==> (r matches Err(e)
                && e.spec_kind() == ParseErrorKind::UnclosedMessages(self.stack().len() as usize)
                && e.text() == kind_text(e.spec_kind())),
            !self.spec_underflow() && self.stack().len() == 0 ==> r is Ok,
    {
        if self.underflow {
            return Err(ParseError::from_kind(ParseErrorKind::IncompleteField));
        }
        if self.message_stack.len() > 0 {
            return Err(
                ParseError::from_kind(ParseErrorKind::UnclosedMessages(self.message_stack.len())),
            );
        }
        Ok(())
    }

    /// Forget open messages and underflow, to parse a new message.
    pub fn reset(&mut self)
        ensures
            final(self).stack() == Seq::<int>::empty(),
            !final(self).spec_underflow(),
            final(self).callbacks() == old(self).callbacks(),
            Self::reported(*old(self), *final(self)),
            &*final(final(self).handler_borrow()) == &*final(old(self).handler_borrow()),
    {
        self.message_stack.clear();
        self.underflow = false;
        assert(self.stack() =~= Seq::<int>::empty());
        proof {
            Self::lemma_reported_quiet(*old(self), *self);
        }
    }

    /// End every innermost embedded message that has no bytes left.
    fn close_finished_messages(&mut self)
        ensures
            final(self).stack() == open_messages(old(self).stack()),
            final(self).callbacks() == old(self).callbacks() + end_events(
                finished_messages(old(self).stack()),
            ),
            final(self).underflow == old(self).underflow,
            Self::reported(*old(self), *final(self)),
            &*final(final(self).handler_borrow()) == &*final(old(self).handler_borrow()),
    {
        proof {
            Self::lemma_reported_quiet(*old(self), *self);
        }
        loop
            invariant_except_break
                open_messages(self.stack()) == open_messages(old(self).stack()),
                self.callbacks() + end_events(finished_messages(self.stack()))
                    == old(self).callbacks() + end_events(finished_messages(old(self).stack())),
                self.underflow == old(self).underflow,
                Self::reported(*old(self), *self),
                &*final(self.handler_borrow()) == &*final(old(self).handler_borrow()),
            ensures
                self.stack() == open_messages(old(self).stack()),
                self.callbacks() == old(self).callbacks() + end_events(
                    finished_messages(old(self).stack()),
                ),
                self.underflow == old(self).underflow,
                Self::reported(*old(self), *self),
                &*final(self.handler_borrow()) == &*final(old(self).handler_borrow()),
            decreases self.message_stack@.len(),
        {
            let len = self.message_stack.len();
            if len == 0 {
                proof {
                    assert(end_events(0) =~= Seq::<Callback>::empty());
                    assert(self.callbacks() + end_events(0) =~= self.callbacks());
                }
                break ;
            }
            let remaining = self.message_stack[len - 1];
            if remaining > 0 {
                proof {
                    assert(self.stack().last() == remaining as int);
                    assert(end_events(0) =~= Seq::<Callback>::empty());
                    assert(self.callbacks() + end_events(0) =~= self.callbacks());
                }
                break ;
            }
            let ghost before = self.stack();
            let ghost count = finished_messages(before);
            self.message_stack.pop();
            let ghost popped = *self;
            self.handler.end_message();
            self.callbacks = Ghost(self.callbacks@.push(Callback::EndMessage));
            proof {
                Self::lemma_reported_quiet(*old(self), *old(self));
                Self::lemma_reported_call(popped, *self, Callback::EndMessage);
                Self::lemma_reported_trans(*old(self), popped, *self);
                assert(before.last() == remaining as int);
                assert(self.stack() =~= before.drop_last());
                assert(end_events(count) =~= seq![Callback::EndMessage] + end_events(
                    (count - 1) as nat,
                ));
            }
        }
    }

    /// Count `count` more bytes against every open message.
    fn decrement_message_bytes(&mut self, count: usize)
        requires
            count <= i64::MAX,
            forall|i: int|
                0 <= i < old(self).stack().len() ==> old(self).stack()[i] - count >= i64::MIN,
        ensures
            final(self).stack() == count_down(old(self).stack(), count as nat),
            final(self).callbacks() == old(self).callbacks(),
            final(self).underflow == old(self).underflow,
            Self::reported(*old(self), *final(self)),
            &*final(final(self).handler_borrow()) == &*final(old(self).handler_borrow()),
    {
        if count == 0 || self.message_stack.len() == 0 {
            assert(self.stack() =~= count_down(self.stack(), count as nat));
            proof {
                Self::lemma_reported_quiet(*old(self), *self);
            }
            return ;
        }
        let count = count as i64;
        let mut i: usize = 0;
        while i < self.message_stack.len()
            invariant
                i <= self.message_stack@.len(),
                self.message_stack@.len() == old(self).message_stack@.len(),
                forall|j: int|
                    0 <= j < i ==> self.message_stack@[j] == old(self).message_stack@[j] - count,
                forall|j: int|
                    i <= j < self.message_stack@.len() ==> self.message_stack@[j]
                        == old(self).message_stack@[j],
                forall|j: int|
                    0 <= j < old(self).stack().len() ==> old(self).stack()[j] - count
                        >= i64::MIN,
                self.callbacks == old(self).callbacks,
                self.underflow == old(self).underflow,
                self.handler == old(self).handler,
                count >= 0,
            decreases self.message_stack@.len() - i,
        {
            let level = self.message_stack[i];
            assert(old(self).stack()[i as int] == old(self).message_stack@[i as int] as int);
            assert(old(self).stack()[i as int] == level as int);
            assert(level as int - count as int >= i64::MIN);
            self.message_stack.set(i, level - count);
            i += 1;
        }
        assert(self.stack() =~= count_down(old(self).stack(), count as nat));
        proof {
            Self::lemma_reported_quiet(*old(self), *self);
        }
    }
}

/// How parsing one field ended.
enum FieldResult {
    Handled,
    Stopped,
    Failed(ParseError),
}

enum TryVarint {
    Underflow,
    Error(ParseError),
}

/// Read a varint from the front of `data`, advancing past it; on underflow
/// `data` is left as it was.
fn try_read_varint(data: &mut &[u8]) -> (r: Result<u64, TryVarint>)
    ensures
        match read_varint(old(data)@) {
            VarintRead::Value { value, len } => r matches Ok(v) && v == value && final(data)@
                == old(data)@.skip(len as int),
            VarintRead::Underflow => r matches Err(TryVarint::Underflow) && final(data)@ == old(
                data,
            )@,
            VarintRead::TooLong => r matches Err(TryVarint::Error(e)) && e.spec_kind()
                == ParseErrorKind::VarintTooLong && e.text() == kind_text(e.spec_kind())
                && final(data)@ == old(data)@.skip(10),
        },
{
    let start = *data;
    let ghost s = start@;
    let mut result: u64 = 0;
    let mut shift: u32 = 0;
    let ghost mut i: nat = 0;
    while !data.is_empty()
        invariant
            s == old(data)@,
            start@ == s,
            i < 10,
            shift == 7 * i,
            i <= s.len(),
            (*data)@ == s.skip(i as int),
            result == varint_bits(s.take(i as int)),
            scan_varint(s, 0) == scan_varint(s, i),
        decreases (*data)@.len(),
    {
        let b = data[0];
        *data = slice_subrange(*data, 1, data.len());
        proof {
            assert(b == s[i as int]);
            lemma_varint_bits_push(s.take(i as int), b);
            assert(s.take(i + 1 as int) =~= s.take(i as int).push(b));
            assert((*data)@ =~= s.skip(i + 1 as int));
        }
        result = result | (((b & 0x7F) as u64) << shift);
        if (b & 0x80) == 0 {
            return Ok(result);
        }
        shift += 7;
        proof {
            i = i + 1;
        }
        if shift >= 64 {
            return Err(TryVarint::Error(ParseError::from_kind(ParseErrorKind::VarintTooLong)));
        }
    }
    *data = start;
    Err(TryVarint::Underflow)
}

/// Read eight little-endian bytes from the front of `data`.
fn read_fixed64(data: &mut &[u8]) -> (v: u64)
    requires
        old(data)@.len() >= 8,
    ensures
        v == le_u64(old(data)@),
        final(data)@ == old(data)@.skip(8),
{
    let d = *data;
    let v = (d[0] as u64) | ((d[1] as u64) << 8) | ((d[2] as u64) << 16) | ((d[3] as u64) << 24)
        | ((d[4] as u64) << 32) | ((d[5] as u64) << 40) | ((d[6] as u64) << 48) | ((d[7] as u64)
        << 56);
    *data = slice_subrange(d, 8, d.len());
    v
}

/// Read four little-endian bytes from the front of `data`.
fn read_fixed32(data: &mut &[u8]) -> (v: u32)
    requires
        old(data)@.len() >= 4,
    ensures
        v == le_u32(old(data)@),
        final(data)@ == old(data)@.skip(4),
{
    let d = *data;
    let v = (d[0] as u32) | ((d[1] as u32) << 8) | ((d[2] as u32) << 16) | ((d[3] as u32) << 24);
    *data = slice_subrange(d, 4, d.len());
    v
}

/// Read the field at the front of `data` up to the point where the handler
/// must be consulted: a whole varint or fixed field, or the tag and length of
/// a length-delimited one.
fn read_field_head(data: &mut &[u8]) -> (h: FieldStart)
    ensures
        match decode_field_head(old(data)@) {
            FieldHead::Incomplete => h is Incomplete,
            FieldHead::Invalid { kind, consumed } => h matches FieldStart::Invalid(e)
                && e.spec_kind() == kind && e.text() == kind_text(kind) && final(data)@ == old(
                data,
            )@.skip(consumed as int),
            FieldHead::Varint { field_number, value, len } => h matches FieldStart::Varint(f, v)
                && f == field_number && v == value && final(data)@ == old(data)@.skip(len as int),
            FieldHead::Fixed64 { field_number, value, len } => h matches FieldStart::Fixed64(f, v)
                && f == field_number && v == value && final(data)@ == old(data)@.skip(len as int),
            FieldHead::Fixed32 { field_number, value, len } => h matches FieldStart::Fixed32(f, v)
                && f == field_number && v == value && final(data)@ == old(data)@.skip(len as int),
            FieldHead::Len { field_number, length, header } => h matches FieldStart::Len(f, n)
                && f == field_number && n == content_len(length) && n <= i64::MAX && final(data)@ == old(
                data,
            )@.skip(header as int),
        },
{
    let ghost d0 = (*data)@;
    let tag = match try_read_varint(data) {
        Ok(v) => v,
        Err(TryVarint::Underflow) => return FieldStart::Incomplete,
        Err(TryVarint::Error(e)) => return FieldStart::Invalid(e),
    };
    let ghost n = read_varint(d0)->Value_len;
    let ghost d1 = (*data)@;
    proof {
        lemma_scan_varint_len(d0, 0);
        lemma_scan_varint_len(d1, 0);
        assert(d1 == d0.skip(n as int));
    }
    let field_number = (#[verifier::truncate] ((tag >> 3) as u32));
    let wire_type = (#[verifier::truncate] ((tag & 0x07) as u8));
    assert(field_number == tag_field_number(tag));
    assert(wire_type == tag_wire_type(tag));
    if field_number == 0 {
        return FieldStart::Invalid(ParseError::from_kind(ParseErrorKind::InvalidFieldNumber));
    }
    if wire_type == WIRETYPE_VARINT {
        match try_read_varint(data) {
            Ok(value) => {
                assert((*data)@ =~= d0.skip((n + read_varint(d0.skip(n as int))->Value_len) as int));
                assert(decode_field_head(d0) matches FieldHead::Varint { field_number: f, value: v, len }
                    && f == field_number && v == value && len == n + read_varint(d1)->Value_len);
                FieldStart::Varint(field_number, value)
            },
            Err(TryVarint::Underflow) => FieldStart::Incomplete,
            Err(TryVarint::Error(e)) => {
                assert((*data)@ =~= d0.skip((n + 10) as int));
                FieldStart::Invalid(e)
            },
        }
    } else if wire_type == WIRETYPE_I64 {
        if data.len() < 8 {
            return FieldStart::Incomplete;
        }
        let value = read_fixed64(data);
        assert((*data)@ =~= d0.skip((n + 8) as int));
        FieldStart::Fixed64(field_number, value)
    } else if wire_type == WIRETYPE_I32 {
        if data.len() < 4 {
            return FieldStart::Incomplete;
        }
        let value = read_fixed32(data);
        assert((*data)@ =~= d0.skip((n + 4) as int));
        FieldStart::Fixed32(field_number, value)
    } else if wire_type == WIRETYPE_LEN {
        let length_value = match try_read_varint(data) {
            Ok(v) => v,
            Err(TryVarint::Underflow) => return FieldStart::Incomplete,
            Err(TryVarint::Error(e)) => {
                assert((*data)@ =~= d0.skip((n + 10) as int));
                return FieldStart::Invalid(e);
            },
        };
        assert((*data)@ =~= d0.skip((n + read_varint(d0.skip(n as int))->Value_len) as int));
        let length = (#[verifier::truncate] (length_value as i64));
        if length < 0 {
            return FieldStart::Invalid(ParseError::from_kind(ParseErrorKind::NegativeLength(length)));
        }
        assert((length_value as i64) as usize == length_value as usize) by (bit_vector);
        assert((length_value as i64) >= 0 ==> (length_value as usize) as u64 <= 0x7fff_ffff_ffff_ffffu64)
            by (bit_vector);
        FieldStart::Len(field_number, length as usize)
    } else {
        FieldStart::Invalid(ParseError::from_kind(ParseErrorKind::UnknownWireType(wire_type)))
    }
}

} // verus!
