//! The decoded content of a QR symbol, chunk by chunk.
use vstd::prelude::*;

verus! {

/// One piece of the data of a QR symbol (ECI is not taken).
#[derive(Clone)]
enum DataChunk {
    /// A mode indicator, 4 bits.
    Mode(u8),
    /// A character count.
    Count(u8),
    /// One byte, 8 bits.
    Byte(u8),
    /// Three decimal digits, 10 bits.
    Numeric(u16),
    /// Two alphanumeric characters, 11 bits.
    AlphaNum(u16),
    /// One kanji, 13 bits.
    Kanji(u16),
    Terminator,
}

/// The data of a QR symbol, with its version and error correction level
/// and whether it has been found valid.
#[derive(Clone)]
pub struct DataStream {
    data: Vec<DataChunk>,
    qr_version: u8,
    error_correction: u8,
    valid: Option<bool>,
}

/// The format code and codewords of a QR symbol.
#[derive(Clone)]
pub struct BitData {
    format_code: u16,
    codewords: Vec<u8>,
}

impl DataStream {
    /// Whether the stream has been found valid.
    pub closed spec fn spec_valid(&self) -> Option<bool> {
        self.valid
    }

    /// Whether the stream has been checked and found valid.
    pub fn is_valid(&self) -> (r: bool)
        ensures
            r == (self.spec_valid() == Some(true)),
    {
        match self.valid {
            Some(v) => v,
            None => false,
        }
    }
}

} // verus!
