//! Errors of parsing and writing.

use vstd::prelude::*;
use vstd::std_specs::cmp::PartialEqSpecImpl;
use vstd::string::StringExecFns;

verus! {

/// `std::io::Error`, carried through the library without looking inside.
#[verifier::external_type_specification]
#[verifier::external_body]
pub struct ExIoError(std::io::Error);

/// What went wrong while parsing.
#[derive(Debug, Clone, Copy, PartialEq, Eq)]
pub enum ParseErrorKind {
    /// A tag carried field number 0.
    InvalidFieldNumber,
    /// A varint ran over ten bytes.
    VarintTooLong,
    /// A tag carried a wire type other than 0, 1, 2 or 5.
    UnknownWireType(u8),
    /// A length prefix did not fit in a non-negative `i64`.
    NegativeLength(i64),
    /// Input ended inside a field.
    IncompleteField,
    /// Input ended inside this many embedded messages.
    UnclosedMessages(usize),
    /// An error built from a caller's message.
    Other,
}

/// Error during protobuf parsing. Two errors are equal when their messages are.
#[derive(Debug, Clone, Eq)]
pub struct ParseError {
    kind: ParseErrorKind,
    message: String,
}

impl PartialEq for ParseError {
    fn eq(&self, other: &Self) -> (r: bool) {
        self.message == other.message
    }
}

impl PartialEqSpecImpl for ParseError {
    open spec fn obeys_eq_spec() -> bool {
        true
    }

    open spec fn eq_spec(&self, other: &Self) -> bool {
        self.text() == other.text()
    }
}

/// The decimal digit `d` as a character.
pub open spec fn digit_char(d: nat) -> char {
    if d == 0 {
        '0'
    } else if d == 1 {
        '1'
    } else if d == 2 {
        '2'
    } else if d == 3 {
        '3'
    } else if d == 4 {
        '4'
    } else if d == 5 {
        '5'
    } else if d == 6 {
        '6'
    } else if d == 7 {
        '7'
    } else if d == 8 {
        '8'
    } else {
        '9'
    }
}

/// Decimal notation of a natural number, without leading zeros.
pub open spec fn decimal(n: nat) -> Seq<char>
    decreases n,
{
    if n < 10 {
        seq![digit_char(n)]
    } else {
        decimal(n / 10).push(digit_char(n % 10))
    }
}

/// Decimal notation of an integer, with a minus sign when negative.
pub open spec fn signed_decimal(n: int) -> Seq<char> {
    if n < 0 {
        seq!['-'] + decimal((-n) as nat)
    } else {
        decimal(n as nat)
    }
}

/// The message that goes with each kind of parse error.
pub open spec fn kind_text(kind: ParseErrorKind) -> Seq<char> {
    match kind {
        ParseErrorKind::InvalidFieldNumber => "invalid field number 0"@,
        ParseErrorKind::VarintTooLong => "varint too long"@,
        ParseErrorKind::UnknownWireType(w) => "unknown wire type: "@ + decimal(w as nat),
        ParseErrorKind::NegativeLength(n) => "negative length-delimited field size: "@
            + signed_decimal(n as int),
        ParseErrorKind::IncompleteField => "incomplete field at end of input"@,
        ParseErrorKind::UnclosedMessages(n) => "unclosed embedded messages: "@ + decimal(
            n as nat,
        ),
        ParseErrorKind::Other => Seq::empty(),
    }
}

fn digit_str(d: u64) -> (r: &'static str)
    requires
        d < 10,
    ensures
        r@ == seq![digit_char(d as nat)],
{
    if d == 0 {
        proof {
            reveal_strlit("0");
        }
        assert("0"@ =~= seq!['0']);
        "0"
    } else if d == 1 {
        proof {
            reveal_strlit("1");
        }
        assert("1"@ =~= seq!['1']);
        "1"
    } else if d == 2 {
        proof {
            reveal_strlit("2");
        }
        assert("2"@ =~= seq!['2']);
        "2"
    } else if d == 3 {
        proof {
            reveal_strlit("3");
        }
        assert("3"@ =~= seq!['3']);
        "3"
    } else if d == 4 {
        proof {
            reveal_strlit("4");
        }
        assert("4"@ =~= seq!['4']);
        "4"
    } else if d == 5 {
        proof {
            reveal_strlit("5");
        }
        assert("5"@ =~= seq!['5']);
        "5"
    } else if d == 6 {
        proof {
            reveal_strlit("6");
        }
        assert("6"@ =~= seq!['6']);
        "6"
    } else if d == 7 {
        proof {
            reveal_strlit("7");
        }
        assert("7"@ =~= seq!['7']);
        "7"
    } else if d == 8 {
        proof {
            reveal_strlit("8");
        }
        assert("8"@ =~= seq!['8']);
        "8"
    } else {
        proof {
            reveal_strlit("9");
        }
        assert("9"@ =~= seq!['9']);
        "9"
    }
}

/// Decimal notation of `n` as a string.
fn decimal_string(n: u64) -> (r: String)
    ensures
        r@ == decimal(n as nat),
    decreases n,
{
    if n < 10 {
        String::from_str(digit_str(n))
    } else {
        let mut s = decimal_string(n / 10);
        s.append(digit_str(n % 10));
        s
    }
}

/// Decimal notation of a signed `n` as a string.
fn signed_decimal_string(n: i64) -> (r: String)
    ensures
        r@ == signed_decimal(n as int),
{
    if n < 0 {
        let magnitude = (-(n + 1)) as u64 + 1;
        let digits = decimal_string(magnitude);
        let mut s = String::from_str("-");
        proof {
            reveal_strlit("-");
        }
        assert("-"@ =~= seq!['-']);
        s.append(digits.as_str());
        s
    } else {
        decimal_string(n as u64)
    }
}

impl ParseError {
    /// The kind of this error.
    pub closed spec fn spec_kind(&self) -> ParseErrorKind {
        self.kind
    }

    /// The message of this error.
    pub closed spec fn text(&self) -> Seq<char> {
        self.message@
    }

    /// An error with the given message.
    pub fn new(message: &str) -> (e: ParseError)
        ensures
            e.spec_kind() == ParseErrorKind::Other,
            e.text() == message@,
    {
        ParseError { kind: ParseErrorKind::Other, message: String::from_str(message) }
    }

    /// The error of the given kind, with its standard message.
    pub fn from_kind(kind: ParseErrorKind) -> (e: ParseError)
        requires
            !(kind is Other),
        ensures
            e.spec_kind() == kind,
            e.text() == kind_text(kind),
    {
        let message = match kind {
            ParseErrorKind::InvalidFieldNumber => String::from_str("invalid field number 0"),
            ParseErrorKind::VarintTooLong => String::from_str("varint too long"),
            ParseErrorKind::UnknownWireType(w) => {
                let mut s = String::from_str("unknown wire type: ");
                let digits = decimal_string(w as u64);
                s.append(digits.as_str());
                s
            },
            ParseErrorKind::NegativeLength(n) => {
                let mut s = String::from_str("negative length-delimited field size: ");
                let digits = signed_decimal_string(n);
                s.append(digits.as_str());
                s
            },
            ParseErrorKind::IncompleteField => String::from_str("incomplete field at end of input"),
            ParseErrorKind::UnclosedMessages(n) => {
                let mut s = String::from_str("unclosed embedded messages: ");
                let digits = decimal_string(n as u64);
                s.append(digits.as_str());
                s
            },
            ParseErrorKind::Other => String::new(),
        };
        ParseError { kind, message }
    }

    /// The kind of this error.
    pub fn kind(&self) -> (k: ParseErrorKind)
        ensures
            k == self.spec_kind(),
    {
        self.kind
    }

    /// The message of this error, as `Display` would show it.
    pub fn message(&self) -> (s: String)
        ensures
            s@ == self.text(),
    {
        self.message.clone()
    }
}

/// Error during protobuf writing: the sink failed.
#[derive(Debug)]
pub struct WriteError {
    source: std::io::Error,
}

impl WriteError {
    /// The sink error inside.
    pub closed spec fn spec_source(&self) -> std::io::Error {
        self.source
    }

    /// Wrap a sink error.
    pub fn new(source: std::io::Error) -> (e: WriteError)
        ensures
            e.spec_source() == source,
    {
        WriteError { source }
    }

    /// The sink error inside.
    pub fn into_source(self) -> (source: std::io::Error)
        ensures
            source == self.spec_source(),
    {
        self.source
    }
}

} // verus!
