//! A growable in-memory byte buffer.

use crate::sink::ByteSink;
use vstd::prelude::*;

verus! {

/// An in-memory sink: the bytes written to it, in order.
pub struct Buffer {
    data: Vec<u8>,
}

impl View for Buffer {
    type V = Seq<u8>;

    closed spec fn view(&self) -> Seq<u8> {
        self.data@
    }
}

impl Buffer {
    /// An empty buffer with room for `capacity` bytes before it grows.
    pub fn with_capacity(capacity: usize) -> (b: Buffer)
        ensures
            b@ == Seq::<u8>::empty(),
    {
        Buffer { data: Vec::with_capacity(capacity) }
    }

    /// The bytes written so far.
    pub fn into_vec(self) -> (v: Vec<u8>)
        ensures
            v@ == self@,
    {
        self.data
    }
}

impl ByteSink for Buffer {
    open spec fn reliable() -> bool {
        true
    }

    open spec fn contents(&self) -> Seq<u8> {
        self@
    }

    fn write_all(&mut self, data: &[u8]) -> (r: Result<(), std::io::Error>) {
        self.data.extend_from_slice(data);
        assert(self.data@ =~= old(self).data@ + data@);
        Ok(())
    }
}

} // verus!
