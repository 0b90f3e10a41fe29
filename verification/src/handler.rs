//! Handler trait, the events the parser sends, and the default handler.

use crate::parse_model::Callback;
use vstd::prelude::*;

verus! {

/// Callback interface for push-based protobuf parsing.
///
/// The parser invokes these methods as fields are encountered. Schema
/// knowledge lives in the handler implementation. Every method has a no-op
/// default, so an implementation overrides only what it needs.
pub trait Handler {
    /// Varint field (int32, int64, uint32, uint64, bool, enum; apply zigzag for sint*).
    fn handle_varint(&mut self, _field_number: u32, _value: u64) {
    }

    /// Fixed 64-bit field (fixed64, sfixed64, double).
    fn handle_fixed64(&mut self, _field_number: u32, _value: u64) {
    }

    /// Fixed 32-bit field (fixed32, sfixed32, float).
    fn handle_fixed32(&mut self, _field_number: u32, _value: u32) {
    }

    /// Length-delimited field that is not an embedded message (bytes, string, packed).
    fn handle_bytes(&mut self, _field_number: u32, _data: &[u8]) {
    }

    /// Return true if a length-delimited field is an embedded message; by
    /// default no field is one.
    fn is_message(&self, _field_number: u32) -> (r: bool)
        default_ensures
            !r,
    {
        false
    }

    /// Begin parsing an embedded message.
    fn start_message(&mut self, _field_number: u32) {
    }

    /// End parsing an embedded message.
    fn end_message(&mut self) {
    }
}

/// What the parser sends its handler, with what a verified receiver states of
/// itself: a receiver that is `recorded` keeps in `calls` every call that
/// changes it, in order; one that is `decided` answers `is_message` by
/// `answer`, and keeps its answers while fields are reported.
///
/// Every `Handler` is an `EventSink` that states neither; a verified receiver
/// implements `EventSink` directly to have the parser's contract speak of it.
pub trait EventSink {
    /// True when `calls` records this receiver's calls.
    open spec fn recorded() -> bool {
        false
    }

    /// The calls made on this receiver, for a recorded one.
    open spec fn calls(&self) -> Seq<Callback> {
        Seq::empty()
    }

    /// True when `answer` gives this receiver's answers to `is_message`.
    open spec fn decided() -> bool {
        false
    }

    /// The answer to `is_message(field_number)`, for a decided receiver.
    open spec fn answer(&self, field_number: u32) -> bool {
        false
    }

    /// A varint field.
    fn handle_varint(&mut self, field_number: u32, value: u64)
        ensures
            Self::recorded() ==> final(self).calls() == old(self).calls().push(
                Callback::Varint(field_number, value),
            ),
            Self::decided() ==> forall|f: u32| #[trigger] final(self).answer(f) == old(self).answer(f),
    ;

    /// A fixed 64-bit field.
    fn handle_fixed64(&mut self, field_number: u32, value: u64)
        ensures
            Self::recorded() ==> final(self).calls() == old(self).calls().push(
                Callback::Fixed64(field_number, value),
            ),
            Self::decided() ==> forall|f: u32| #[trigger] final(self).answer(f) == old(self).answer(f),
    ;

    /// A fixed 32-bit field.
    fn handle_fixed32(&mut self, field_number: u32, value: u32)
        ensures
            Self::recorded() ==> final(self).calls() == old(self).calls().push(
                Callback::Fixed32(field_number, value),
            ),
            Self::decided() ==> forall|f: u32| #[trigger] final(self).answer(f) == old(self).answer(f),
    ;

    /// A length-delimited field that is not an embedded message.
    fn handle_bytes(&mut self, field_number: u32, data: &[u8])
        ensures
            Self::recorded() ==> final(self).calls() == old(self).calls().push(
                Callback::Bytes(field_number, data@),
            ),
            Self::decided() ==> forall|f: u32| #[trigger] final(self).answer(f) == old(self).answer(f),
    ;

    /// Whether a length-delimited field is an embedded message.
    fn is_message(&self, field_number: u32) -> (r: bool)
        ensures
            Self::decided() ==> r == self.answer(field_number),
    ;

    /// An embedded message begins.
    fn start_message(&mut self, field_number: u32)
        ensures
            Self::recorded() ==> final(self).calls() == old(self).calls().push(
                Callback::StartMessage(field_number),
            ),
            Self::decided() ==> forall|f: u32| #[trigger] final(self).answer(f) == old(self).answer(f),
    ;

    /// An embedded message ends.
    fn end_message(&mut self)
        ensures
            Self::recorded() ==> final(self).calls() == old(self).calls().push(
                Callback::EndMessage,
            ),
            Self::decided() ==> forall|f: u32| #[trigger] final(self).answer(f) == old(self).answer(f),
    ;
}

/// `a` gives the same answers to `is_message` as `b`.
pub open spec fn same_answers<S: EventSink + ?Sized>(a: &S, b: &S) -> bool {
    forall|f: u32| #[trigger] a.answer(f) == b.answer(f)
}

impl<T: Handler + ?Sized> EventSink for T {
    fn handle_varint(&mut self, field_number: u32, value: u64) {
        Handler::handle_varint(self, field_number, value)
    }

    fn handle_fixed64(&mut self, field_number: u32, value: u64) {
        Handler::handle_fixed64(self, field_number, value)
    }

    fn handle_fixed32(&mut self, field_number: u32, value: u32) {
        Handler::handle_fixed32(self, field_number, value)
    }

    fn handle_bytes(&mut self, field_number: u32, data: &[u8]) {
        Handler::handle_bytes(self, field_number, data)
    }

    fn is_message(&self, field_number: u32) -> (r: bool) {
        Handler::is_message(self, field_number)
    }

    fn start_message(&mut self, field_number: u32) {
        Handler::start_message(self, field_number)
    }

    fn end_message(&mut self) {
        Handler::end_message(self)
    }
}

/// No-op handler: ignores every field and treats no field as an embedded message.
pub struct DefaultHandler;

impl EventSink for DefaultHandler {
    open spec fn decided() -> bool {
        true
    }

    open spec fn answer(&self, field_number: u32) -> bool {
        false
    }

    fn handle_varint(&mut self, _field_number: u32, _value: u64) {
    }

    fn handle_fixed64(&mut self, _field_number: u32, _value: u64) {
    }

    fn handle_fixed32(&mut self, _field_number: u32, _value: u32) {
    }

    fn handle_bytes(&mut self, _field_number: u32, _data: &[u8]) {
    }

    fn is_message(&self, _field_number: u32) -> (r: bool) {
        false
    }

    fn start_message(&mut self, _field_number: u32) {
    }

    fn end_message(&mut self) {
    }
}

} // verus!
