//! Errors raised while decoding or encoding a replay record.

use vstd::prelude::*;

verus! {

use vstd::string::StringExecFns;

/// Everything that can go wrong while reading or writing a replay record.
#[derive(Debug)]
pub enum ReplayError {
    /// A byte source or sink failed outside this crate.
    Io(String),
    /// The compressed event block could not be decompressed.
    Lzma(String),
    /// Bytes that should hold text are not valid UTF-8.
    Utf8(String),
    /// A numeric field of the textual sub-formats did not parse.
    Parse(String),
    /// The data does not follow the record format.
    InvalidFormat(String),
    /// The data ended before a field was complete.
    UnexpectedEof,
    /// A string field started with a marker byte other than 0x00 or 0x0b.
    InvalidStringByte(u8),
}

fn hex_digit(n: u8) -> (r: u8)
    requires
        n < 16,
{
    if n < 10 {
        48 + n
    } else {
        87 + n
    }
}

impl ReplayError {
    /// A human-readable description of the error.
    pub fn message(&self) -> String {
        match self {
            ReplayError::Io(s) => {
                let mut m = String::from_str("IO error: ");
                m.append(s.as_str());
                m
            },
            ReplayError::Lzma(s) => {
                let mut m = String::from_str("LZMA decompression error: ");
                m.append(s.as_str());
                m
            },
            ReplayError::Utf8(s) => {
                let mut m = String::from_str("UTF-8 conversion error: ");
                m.append(s.as_str());
                m
            },
            ReplayError::Parse(s) => {
                let mut m = String::from_str("String parsing error: ");
                m.append(s.as_str());
                m
            },
            ReplayError::InvalidFormat(s) => {
                let mut m = String::from_str("Invalid replay format: ");
                m.append(s.as_str());
                m
            },
            ReplayError::UnexpectedEof => String::from_str("Unexpected end of data"),
            ReplayError::InvalidStringByte(b) => {
                let mut m = String::from_str("Invalid string byte: expected 0x00 or 0x0b, got 0x");
                let hi = hex_digit(*b / 16);
                let lo = hex_digit(*b % 16);
                m.append(hex_char_str(hi).as_str());
                m.append(hex_char_str(lo).as_str());
                m
            },
        }
    }
}

/// The one-character string for a hexadecimal digit byte.
fn hex_char_str(d: u8) -> (r: String) {
    if d == 48 {
        String::from_str("0")
    } else if d == 49 {
        String::from_str("1")
    } else if d == 50 {
        String::from_str("2")
    } else if d == 51 {
        String::from_str("3")
    } else if d == 52 {
        String::from_str("4")
    } else if d == 53 {
        String::from_str("5")
    } else if d == 54 {
        String::from_str("6")
    } else if d == 55 {
        String::from_str("7")
    } else if d == 56 {
        String::from_str("8")
    } else if d == 57 {
        String::from_str("9")
    } else if d == 97 {
        String::from_str("a")
    } else if d == 98 {
        String::from_str("b")
    } else if d == 99 {
        String::from_str("c")
    } else if d == 100 {
        String::from_str("d")
    } else if d == 101 {
        String::from_str("e")
    } else {
        String::from_str("f")
    }
}

} // verus!
