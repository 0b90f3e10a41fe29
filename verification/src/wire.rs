//! Protobuf wire type constants.

use vstd::prelude::*;

verus! {

/// Protobuf wire types.
#[derive(Debug, Clone, Copy, PartialEq, Eq, Structural)]
pub enum WireType {
    Varint,
    I64,
    Len,
    I32,
}

/// Wire type for variable-length integers.
pub const WIRETYPE_VARINT: u8 = 0;

/// Wire type for 64-bit fixed values.
pub const WIRETYPE_I64: u8 = 1;

/// Wire type for length-delimited values.
pub const WIRETYPE_LEN: u8 = 2;

/// Wire type for 32-bit fixed values.
pub const WIRETYPE_I32: u8 = 5;

impl WireType {
    /// The wire type number of this wire type.
    pub open spec fn spec_number(self) -> u8 {
        match self {
            WireType::Varint => 0,
            WireType::I64 => 1,
            WireType::Len => 2,
            WireType::I32 => 5,
        }
    }

    /// The wire type number (0, 1, 2 or 5).
    pub fn number(self) -> (n: u8)
        ensures
            n == self.spec_number(),
    {
        match self {
            WireType::Varint => WIRETYPE_VARINT,
            WireType::I64 => WIRETYPE_I64,
            WireType::Len => WIRETYPE_LEN,
            WireType::I32 => WIRETYPE_I32,
        }
    }

    /// The wire type in the low three bits of a tag, if it is a known one.
    pub fn from_tag(tag: u32) -> (r: Option<WireType>)
        ensures
            match r {
                Some(w) => w.spec_number() as u32 == tag % 8,
                None => tag % 8 != 0 && tag % 8 != 1 && tag % 8 != 2 && tag % 8 != 5,
            },
    {
        let low = tag & 0x07;
        assert(tag & 7 == tag % 8) by (bit_vector);
        if low == 0 {
            Some(WireType::Varint)
        } else if low == 1 {
            Some(WireType::I64)
        } else if low == 2 {
            Some(WireType::Len)
        } else if low == 5 {
            Some(WireType::I32)
        } else {
            None
        }
    }
}

} // verus!
