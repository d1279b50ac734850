//! The failure kinds surfaced by the store.

use vstd::prelude::*;
use vstd::string::StringExecFns;

verus! {

/// `std::io::Error` carries the cause of a failed filesystem operation.
/// It is opaque here: the engine only stores and returns it.
#[verifier::external_type_specification]
#[verifier::external_body]
pub struct ExIoError(std::io::Error);

/// Every failure the store can report.
#[derive(Debug)]
pub enum Error {
    /// An underlying read, write or directory operation failed.
    Io(std::io::Error),
    /// A frame's stored CRC differs from the one computed over its bytes.
    CrcMismatch { expected: u32, actual: u32 },
    /// A frame does not begin with the magic bytes `KVSL`.
    InvalidMagic { expected: [u8; 4], actual: [u8; 4] },
    /// A frame's version byte is not the supported version.
    UnsupportedVersion(u8),
    /// A frame's kind byte names neither a put nor a delete.
    InvalidRecordKind(u8),
    /// A frame ended short, or its declared length is implausible.
    UnexpectedEof,
    /// The caller handed in a value above the size limit.
    ValueTooLarge { size: usize, max: usize },
    /// The caller handed in a key above the size limit.
    KeyTooLarge { size: usize, max: usize },
}

/// Convenient alias for operations that fail with [`Error`].
pub type Result<T> = core::result::Result<T, Error>;

impl From<std::io::Error> for Error {
    fn from(e: std::io::Error) -> (r: Self) {
        Error::Io(e)
    }
}

impl vstd::std_specs::convert::FromSpecImpl<std::io::Error> for Error {
    open spec fn obeys_from_spec() -> bool {
        true
    }

    open spec fn from_spec(e: std::io::Error) -> Self {
        Error::Io(e)
    }
}

/// Relies on `std::io::Error::new` to build the error value reported for a
/// read past the end of the log; nothing is assumed of the value.
#[verifier::external_body]
pub(crate) fn out_of_range_error() -> std::io::Error {
    std::io::Error::new(std::io::ErrorKind::UnexpectedEof, "read past the end of the log")
}

/// Relies on `std::io::Error`'s `Display` implementation for the text of
/// an underlying I/O failure.
#[verifier::external_body]
fn io_message(e: &std::io::Error) -> String {
    format!("I/O error: {}", e)
}

/// The character for one digit value, lower case, up to base sixteen.
pub open spec fn spec_digit(d: int) -> char {
    if d == 0 {
        '0'
    } else if d == 1 {
        '1'
    } else if d == 2 {
        '2'
    } else if d == 3 {
        '3'
    } else if d == 4 {
        '4'
    } else if d == 5 {
        '5'
    } else if d == 6 {
        '6'
    } else if d == 7 {
        '7'
    } else if d == 8 {
        '8'
    } else if d == 9 {
        '9'
    } else if d == 10 {
        'a'
    } else if d == 11 {
        'b'
    } else if d == 12 {
        'c'
    } else if d == 13 {
        'd'
    } else if d == 14 {
        'e'
    } else {
        'f'
    }
}

/// The decimal digits of `n`, most significant first.
pub open spec fn spec_dec(n: int) -> Seq<char>
    recommends
        n >= 0,
    decreases n,
{
    if n < 10 {
        seq![spec_digit(n)]
    } else {
        spec_dec(n / 10).push(spec_digit(n % 10))
    }
}

/// The hexadecimal digits of `n`, most significant first, lower case,
/// without leading zeros.
pub open spec fn spec_hex(n: int) -> Seq<char>
    recommends
        n >= 0,
    decreases n,
{
    if n < 16 {
        seq![spec_digit(n)]
    } else {
        spec_hex(n / 16).push(spec_digit(n % 16))
    }
}

/// Append the character of one digit value.
fn push_digit(s: &mut String, d: u8)
    requires
        d < 16,
    ensures
        final(s)@ == old(s)@.push(spec_digit(d as int)),
{
    let t: &str = match d {
        0 => "0",
        1 => "1",
        2 => "2",
        3 => "3",
        4 => "4",
        5 => "5",
        6 => "6",
        7 => "7",
        8 => "8",
        9 => "9",
        10 => "a",
        11 => "b",
        12 => "c",
        13 => "d",
        14 => "e",
        _ => "f",
    };
    proof {
        reveal_strlit("0");
        reveal_strlit("1");
        reveal_strlit("2");
        reveal_strlit("3");
        reveal_strlit("4");
        reveal_strlit("5");
        reveal_strlit("6");
        reveal_strlit("7");
        reveal_strlit("8");
        reveal_strlit("9");
        reveal_strlit("a");
        reveal_strlit("b");
        reveal_strlit("c");
        reveal_strlit("d");
        reveal_strlit("e");
        reveal_strlit("f");
        assert(t@ =~= seq![spec_digit(d as int)]);
    }
    s.append(t);
    proof {
        assert(s@ =~= old(s)@.push(spec_digit(d as int)));
    }
}

/// Append the decimal digits of `n`.
fn push_dec(s: &mut String, n: u64)
    ensures
        final(s)@ == old(s)@ + spec_dec(n as int),
    decreases n,
{
    if n < 10 {
        push_digit(s, n as u8);
        proof {
            assert(s@ =~= old(s)@ + spec_dec(n as int));
        }
    } else {
        push_dec(s, n / 10);
        push_digit(s, (n % 10) as u8);
        proof {
            assert((n / 10) as int == n as int / 10);
            assert((n % 10) as int == n as int % 10);
            assert(s@ =~= old(s)@ + spec_dec(n as int));
        }
    }
}

/// Append the hexadecimal digits of `n`.
fn push_hex(s: &mut String, n: u32)
    ensures
        final(s)@ == old(s)@ + spec_hex(n as int),
    decreases n,
{
    if n < 16 {
        push_digit(s, n as u8);
        proof {
            assert(s@ =~= old(s)@ + spec_hex(n as int));
        }
    } else {
        push_hex(s, n / 16);
        push_digit(s, (n % 16) as u8);
        proof {
            assert((n / 16) as int == n as int / 16);
            assert((n % 16) as int == n as int % 16);
            assert(s@ =~= old(s)@ + spec_hex(n as int));
        }
    }
}

/// Four bytes written out as decimal numbers in brackets.
pub open spec fn spec_bytes4(b: Seq<u8>) -> Seq<char>
    recommends
        b.len() == 4,
{
    "["@ + spec_dec(b[0] as int) + ", "@ + spec_dec(b[1] as int) + ", "@ + spec_dec(b[2] as int)
        + ", "@ + spec_dec(b[3] as int) + "]"@
}

/// The text [`Error::message`] produces for each failure other than
/// [`Error::Io`], whose text comes from the underlying error.
pub open spec fn spec_message(e: Error) -> Seq<char> {
    match e {
        Error::Io(_) => Seq::empty(),
        Error::CrcMismatch { expected, actual } => "CRC mismatch: expected 0x"@ + spec_hex(
            expected as int,
        ) + ", got 0x"@ + spec_hex(actual as int),
        Error::InvalidMagic { expected, actual } => "Invalid magic: expected "@ + spec_bytes4(
            expected@,
        ) + ", got "@ + spec_bytes4(actual@),
        Error::UnsupportedVersion(v) => "Unsupported version: "@ + spec_dec(v as int),
        Error::InvalidRecordKind(k) => "Invalid record kind: "@ + spec_dec(k as int),
        Error::UnexpectedEof => "Unexpected EOF while reading record"@,
        Error::ValueTooLarge { size, max } => "Value too large: "@ + spec_dec(size as int)
            + " bytes (max "@ + spec_dec(max as int) + ")"@,
        Error::KeyTooLarge { size, max } => "Key too large: "@ + spec_dec(size as int)
            + " bytes (max "@ + spec_dec(max as int) + ")"@,
    }
}

/// Append the bracketed decimal rendering of four bytes.
fn push_bytes4(s: &mut String, b: &[u8; 4])
    ensures
        final(s)@ == old(s)@ + spec_bytes4(b@),
{
    s.append("[");
    push_dec(s, *vstd::array::array_index_get(b, 0) as u64);
    s.append(", ");
    push_dec(s, *vstd::array::array_index_get(b, 1) as u64);
    s.append(", ");
    push_dec(s, *vstd::array::array_index_get(b, 2) as u64);
    s.append(", ");
    push_dec(s, *vstd::array::array_index_get(b, 3) as u64);
    s.append("]");
    proof {
        assert(s@ =~= old(s)@ + spec_bytes4(b@));
    }
}

impl Error {
    /// A human-readable description of the failure. For every kind but
    /// [`Error::Io`] the text is pinned down by [`spec_message`]; an I/O
    /// failure's text comes from the underlying error.
    pub fn message(&self) -> (r: String)
        ensures
            !(self is Io) ==> r@ == spec_message(*self),
    {
        let mut s = String::new();
        match self {
            Error::Io(e) => {
                return io_message(e);
            },
            Error::CrcMismatch { expected, actual } => {
                s.append("CRC mismatch: expected 0x");
                push_hex(&mut s, *expected);
                s.append(", got 0x");
                push_hex(&mut s, *actual);
            },
            Error::InvalidMagic { expected, actual } => {
                s.append("Invalid magic: expected ");
                push_bytes4(&mut s, expected);
                s.append(", got ");
                push_bytes4(&mut s, actual);
            },
            Error::UnsupportedVersion(v) => {
                s.append("Unsupported version: ");
                push_dec(&mut s, *v as u64);
            },
            Error::InvalidRecordKind(k) => {
                s.append("Invalid record kind: ");
                push_dec(&mut s, *k as u64);
            },
            Error::UnexpectedEof => {
                s.append("Unexpected EOF while reading record");
            },
            Error::ValueTooLarge { size, max } => {
                s.append("Value too large: ");
                push_dec(&mut s, *size as u64);
                s.append(" bytes (max ");
                push_dec(&mut s, *max as u64);
                s.append(")");
            },
            Error::KeyTooLarge { size, max } => {
                s.append("Key too large: ");
                push_dec(&mut s, *size as u64);
                s.append(" bytes (max ");
                push_dec(&mut s, *max as u64);
                s.append(")");
            },
        }
        proof {
            assert(s@ =~= spec_message(*self));
        }
        s
    }
}

} // verus!
