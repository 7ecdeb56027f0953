//! Structured parse errors. Every variant carries the absolute byte offset so
//! diagnostics can say where a file is corrupt.
use crate::text::{dec_chars, hex4_chars, into_text, push_dec, push_hex4, push_text};
use vstd::prelude::*;
use vstd::utf8::encode_utf8;

verus! {

/// Structured parse error.
#[derive(Debug, Clone, PartialEq, Eq)]
pub enum ParseError {
    /// Ran off the end of the buffer.
    UnexpectedEof { offset: usize, needed: usize },
    /// A magic number didn't match (file header 0xA5E0, frame header 0xF1FA).
    BadMagic { offset: usize, expected: u16, found: u16 },
    /// A field held a value the format does not allow.
    Invalid { offset: usize, what: &'static str },
    /// A string field was not valid UTF-8.
    BadString { offset: usize },
    /// A safety limit from [`crate::limits`] was exceeded.
    LimitExceeded { offset: usize, what: &'static str },
}

impl ParseError {
    /// The absolute offset recorded in any variant.
    pub open spec fn spec_offset(self) -> usize {
        match self {
            ParseError::UnexpectedEof { offset, .. } => offset,
            ParseError::BadMagic { offset, .. } => offset,
            ParseError::Invalid { offset, .. } => offset,
            ParseError::BadString { offset } => offset,
            ParseError::LimitExceeded { offset, .. } => offset,
        }
    }

    /// Absolute byte offset at which the error was detected.
    pub fn offset(&self) -> (r: usize)
        ensures
            r == self.spec_offset(),
    {
        match *self {
            ParseError::UnexpectedEof { offset, .. } => offset,
            ParseError::BadMagic { offset, .. } => offset,
            ParseError::Invalid { offset, .. } => offset,
            ParseError::BadString { offset } => offset,
            ParseError::LimitExceeded { offset, .. } => offset,
        }
    }
}

/// The sentence describing an error, with its offset.
pub open spec fn parse_error_text(e: ParseError) -> Seq<char> {
    match e {
        ParseError::UnexpectedEof { offset, needed } => "unexpected end of file at offset "@
            + dec_chars(offset as nat) + " (needed "@ + dec_chars(needed as nat)
            + " more bytes)"@,
        ParseError::BadMagic { offset, expected, found } => "bad magic at offset "@ + dec_chars(
            offset as nat,
        ) + ": expected 0x"@ + hex4_chars(expected) + ", found 0x"@ + hex4_chars(found),
        ParseError::Invalid { offset, what } => "invalid "@ + what@ + " at offset "@ + dec_chars(
            offset as nat,
        ),
        ParseError::BadString { offset } => "invalid UTF-8 string at offset "@ + dec_chars(
            offset as nat,
        ),
        ParseError::LimitExceeded { offset, what } => "safety limit exceeded at offset "@
            + dec_chars(offset as nat) + ": "@ + what@,
    }
}

impl ParseError {
    /// The error as a sentence naming its offset.
    pub fn message(&self) -> (r: String)
        ensures
            r@ == parse_error_text(*self),
    {
        let mut b: Vec<u8> = Vec::new();
        let ghost mut g = Seq::<char>::empty();
        assert(b@ =~= encode_utf8(g));
        match self {
            ParseError::UnexpectedEof { offset, needed } => {
                let l1 = "unexpected end of file at offset ";
                let l2 = " (needed ";
                let l3 = " more bytes)";
                push_text(&mut b, Ghost(g), l1);
                proof { g = g + l1@; }
                push_dec(&mut b, Ghost(g), *offset);
                proof { g = g + dec_chars(*offset as nat); }
                push_text(&mut b, Ghost(g), l2);
                proof { g = g + l2@; }
                push_dec(&mut b, Ghost(g), *needed);
                proof { g = g + dec_chars(*needed as nat); }
                push_text(&mut b, Ghost(g), l3);
                proof { g = g + l3@; }
            },
            ParseError::BadMagic { offset, expected, found } => {
                let l1 = "bad magic at offset ";
                let l2 = ": expected 0x";
                let l3 = ", found 0x";
                push_text(&mut b, Ghost(g), l1);
                proof { g = g + l1@; }
                push_dec(&mut b, Ghost(g), *offset);
                proof { g = g + dec_chars(*offset as nat); }
                push_text(&mut b, Ghost(g), l2);
                proof { g = g + l2@; }
                push_hex4(&mut b, Ghost(g), *expected);
                proof { g = g + hex4_chars(*expected); }
                push_text(&mut b, Ghost(g), l3);
                proof { g = g + l3@; }
                push_hex4(&mut b, Ghost(g), *found);
                proof { g = g + hex4_chars(*found); }
            },
            ParseError::Invalid { offset, what } => {
                let l1 = "invalid ";
                let l2 = " at offset ";
                push_text(&mut b, Ghost(g), l1);
                proof { g = g + l1@; }
                push_text(&mut b, Ghost(g), what);
                proof { g = g + what@; }
                push_text(&mut b, Ghost(g), l2);
                proof { g = g + l2@; }
                push_dec(&mut b, Ghost(g), *offset);
                proof { g = g + dec_chars(*offset as nat); }
            },
            ParseError::BadString { offset } => {
                let l1 = "invalid UTF-8 string at offset ";
                push_text(&mut b, Ghost(g), l1);
                proof { g = g + l1@; }
                push_dec(&mut b, Ghost(g), *offset);
                proof { g = g + dec_chars(*offset as nat); }
            },
            ParseError::LimitExceeded { offset, what } => {
                let l1 = "safety limit exceeded at offset ";
                let l2 = ": ";
                push_text(&mut b, Ghost(g), l1);
                proof { g = g + l1@; }
                push_dec(&mut b, Ghost(g), *offset);
                proof { g = g + dec_chars(*offset as nat); }
                push_text(&mut b, Ghost(g), l2);
                proof { g = g + l2@; }
                push_text(&mut b, Ghost(g), what);
                proof { g = g + what@; }
            },
        }
        assert(g =~= parse_error_text(*self));
        into_text(b, Ghost(g))
    }
}

} // verus!
