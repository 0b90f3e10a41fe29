//! Destinations for encoded bytes.

use vstd::prelude::*;

verus! {

/// A destination that accepts bytes in order, as `std::io::Write::write_all` does.
///
/// A sink whose contents the library can describe says so with `reliable`;
/// for any other sink (a file, a socket) nothing is claimed of `write_all`.
pub trait ByteSink {
    /// True when `contents` describes this kind of sink and `write_all` never fails.
    open spec fn reliable() -> bool {
        false
    }

    /// The bytes this sink holds, for a tracked sink.
    open spec fn contents(&self) -> Seq<u8> {
        Seq::empty()
    }

    /// Accept all of `data`, after what was accepted before.
    fn write_all(&mut self, data: &[u8]) -> (r: Result<(), std::io::Error>)
        ensures
            Self::reliable() ==> r is Ok && final(self).contents() == old(self).contents() + data@,
    ;
}

} // verus!
