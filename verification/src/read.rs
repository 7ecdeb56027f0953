//! Bounded little-endian reader. Every read is bounds-checked; parse code
//! never indexes the input buffer directly. Offsets are absolute so errors and
//! chunk seeks always refer to real file positions.
use crate::error::ParseError;
use vstd::prelude::*;
use vstd::utf8::{decode_utf8, valid_utf8};

verus! {

/// Little-endian WORD at index `i` of `s`.
pub open spec fn le_u16(s: Seq<u8>, i: int) -> u16 {
    (s[i] as int + s[i + 1] as int * 256) as u16
}

/// Little-endian DWORD at index `i` of `s`.
pub open spec fn le_u32(s: Seq<u8>, i: int) -> u32 {
    (s[i] as int + s[i + 1] as int * 256 + s[i + 2] as int * 65536 + s[i + 3] as int
        * 16777216) as u32
}

/// Little-endian QWORD at index `i` of `s`.
pub open spec fn le_u64(s: Seq<u8>, i: int) -> u64 {
    (le_u32(s, i) as int + le_u32(s, i + 4) as int * 4294967296) as u64
}

/// The error a read of `n` bytes at `at` reports when it runs off the end.
pub open spec fn eof_at(s: Seq<u8>, at: int, n: int) -> ParseError {
    ParseError::UnexpectedEof { offset: at as usize, needed: (n - (s.len() - at)) as usize }
}

/// The error a relative seek of `n` bytes from `at` reports past the end.
pub open spec fn skip_err(s: Seq<u8>, at: int, n: int) -> ParseError {
    if at + n > usize::MAX {
        ParseError::UnexpectedEof { offset: at as usize, needed: n as usize }
    } else {
        ParseError::UnexpectedEof { offset: s.len() as usize, needed: (at + n - s.len()) as usize }
    }
}

/// `n` bytes starting at `at` lie inside `s`.
pub open spec fn fits(s: Seq<u8>, at: int, n: int) -> bool {
    0 <= at && at + n <= s.len()
}

/// Text of a STRING field (WORD byte length, then UTF-8 bytes) at `at`, when
/// it fits and decodes.
pub open spec fn str_len_at(s: Seq<u8>, at: int) -> int {
    le_u16(s, at) as int
}

/// Outcome of reading a STRING at `at`: the text and the offset after it.
pub open spec fn read_string_at(s: Seq<u8>, at: int) -> Result<(Seq<char>, int), ParseError> {
    if !fits(s, at, 2) {
        Err(eof_at(s, at, 2))
    } else if !fits(s, at + 2, str_len_at(s, at)) {
        Err(eof_at(s, at + 2, str_len_at(s, at)))
    } else {
        let bytes = s.subrange(at + 2, at + 2 + str_len_at(s, at));
        if valid_utf8(bytes) {
            Ok((decode_utf8(bytes), at + 2 + str_len_at(s, at)))
        } else {
            Err(ParseError::BadString { offset: at as usize })
        }
    }
}

/// Converts bytes to a `String` when they are valid UTF-8.
///
/// Calls `String::from_utf8`, which std documents as succeeding exactly on
/// valid UTF-8; the contract takes vstd's `valid_utf8`/`decode_utf8` as the
/// meaning of that.
#[verifier::external_body]
pub(crate) fn utf8_to_string(bytes: &[u8]) -> (r: Option<String>)
    ensures
        r is Some <==> valid_utf8(bytes@),
        r matches Some(s) ==> s@ == decode_utf8(bytes@),
{
    String::from_utf8(bytes.to_vec()).ok()
}

/// The cursor is never negative.
pub broadcast proof fn lemma_cursor_nonneg(r: &Reader)
    ensures
        0 <= #[trigger] r.cursor(),
{
}

/// A cursor over the raw file bytes.
pub struct Reader<'a> {
    data: &'a [u8],
    pos: usize,
}

impl<'a> Reader<'a> {
    #[verifier::type_invariant]
    spec fn inv(self) -> bool {
        self.pos <= self.data@.len() <= usize::MAX
    }

    /// The whole input buffer.
    pub closed spec fn input(&self) -> Seq<u8> {
        self.data@
    }

    /// Absolute offset of the next byte to be read.
    pub closed spec fn cursor(&self) -> int {
        self.pos as int
    }


    /// A reader at offset 0 of `data`.
    pub fn new(data: &'a [u8]) -> (r: Self)
        ensures
            r.input() == data@,
            r.cursor() == 0,
    {
        let _len = data.len();
        Reader { data, pos: 0 }
    }

    /// Absolute offset of the next byte to be read.
    pub fn pos(&self) -> (p: usize)
        ensures
            p == self.cursor(),
            p <= self.input().len() <= usize::MAX,
    {
        proof {
            use_type_invariant(self);
        }
        self.pos
    }

    /// Bytes left after the cursor.
    pub fn remaining(&self) -> (n: usize)
        ensures
            n == self.input().len() - self.cursor(),
            self.cursor() <= self.input().len() <= usize::MAX,
    {
        proof {
            use_type_invariant(self);
        }
        self.data.len() - self.pos
    }

    /// Absolute seek. Seeking to the length (one past the end) is allowed;
    /// beyond that is an error.
    pub fn seek(&mut self, offset: usize) -> (r: Result<(), ParseError>)
        ensures
            final(self).input() == old(self).input(),
            final(self).cursor() <= final(self).input().len(),
            offset <= old(self).input().len() ==> r is Ok && final(self).cursor() == offset,
            offset > old(self).input().len() ==> r == Err::<(), ParseError>(
                ParseError::UnexpectedEof {
                    offset: old(self).input().len() as usize,
                    needed: (offset - old(self).input().len()) as usize,
                },
            ) && final(self).cursor() == old(self).cursor(),
    {
        proof {
            use_type_invariant(&*self);
        }
        if offset > self.data.len() {
            return Err(
                ParseError::UnexpectedEof {
                    offset: self.data.len(),
                    needed: offset - self.data.len(),
                },
            );
        }
        self.pos = offset;
        Ok(())
    }

    /// Relative seek by `n` bytes.
    pub fn skip(&mut self, n: usize) -> (r: Result<(), ParseError>)
        ensures
            final(self).input() == old(self).input(),
            final(self).cursor() <= final(self).input().len(),
            fits(old(self).input(), old(self).cursor(), n as int) ==> r is Ok
                && final(self).cursor() == old(self).cursor() + n,
            !fits(old(self).input(), old(self).cursor(), n as int) ==> r == Err::<(), ParseError>(
                skip_err(old(self).input(), old(self).cursor(), n as int),
            ) && final(self).cursor() == old(self).cursor(),
    {
        proof {
            use_type_invariant(&*self);
        }
        match self.pos.checked_add(n) {
            Some(target) => self.seek(target),
            None => Err(ParseError::UnexpectedEof { offset: self.pos, needed: n }),
        }
    }

    /// The next `n` bytes, advancing past them.
    pub fn bytes(&mut self, n: usize) -> (r: Result<&'a [u8], ParseError>)
        ensures
            final(self).input() == old(self).input(),
            final(self).cursor() <= final(self).input().len(),
            fits(old(self).input(), old(self).cursor(), n as int) ==> r is Ok
                && final(self).cursor() == old(self).cursor() + n,
            r matches Ok(b) ==> b@ == old(self).input().subrange(
                old(self).cursor(),
                old(self).cursor() + n,
            ),
            !fits(old(self).input(), old(self).cursor(), n as int) ==> r == Err::<
                &'a [u8],
                ParseError,
            >(eof_at(old(self).input(), old(self).cursor(), n as int)) && final(self).cursor()
                == old(self).cursor(),
    {
        proof {
            use_type_invariant(&*self);
        }
        if self.data.len() - self.pos < n {
            return Err(
                ParseError::UnexpectedEof { offset: self.pos, needed: n - (self.data.len() - self.pos) },
            );
        }
        let out = &self.data[self.pos..self.pos + n];
        self.pos = self.pos + n;
        Ok(out)
    }

    /// One byte.
    pub fn u8(&mut self) -> (r: Result<u8, ParseError>)
        ensures
            final(self).input() == old(self).input(),
            final(self).cursor() <= final(self).input().len(),
            fits(old(self).input(), old(self).cursor(), 1) ==> r == Ok::<u8, ParseError>(
                old(self).input()[old(self).cursor()],
            ) && final(self).cursor() == old(self).cursor() + 1,
            !fits(old(self).input(), old(self).cursor(), 1) ==> r == Err::<u8, ParseError>(
                eof_at(old(self).input(), old(self).cursor(), 1),
            ) && final(self).cursor() == old(self).cursor(),
    {
        let b = self.bytes(1)?;
        Ok(b[0])
    }

    /// Little-endian WORD.
    pub fn u16(&mut self) -> (r: Result<u16, ParseError>)
        ensures
            final(self).input() == old(self).input(),
            final(self).cursor() <= final(self).input().len(),
            fits(old(self).input(), old(self).cursor(), 2) ==> r == Ok::<u16, ParseError>(
                le_u16(old(self).input(), old(self).cursor()),
            ) && final(self).cursor() == old(self).cursor() + 2,
            !fits(old(self).input(), old(self).cursor(), 2) ==> r == Err::<u16, ParseError>(
                eof_at(old(self).input(), old(self).cursor(), 2),
            ) && final(self).cursor() == old(self).cursor(),
    {
        let b = self.bytes(2)?;
        Ok(b[0] as u16 + (b[1] as u16) * 256)
    }

    /// Little-endian signed WORD.
    pub fn i16(&mut self) -> (r: Result<i16, ParseError>)
        ensures
            final(self).input() == old(self).input(),
            final(self).cursor() <= final(self).input().len(),
            fits(old(self).input(), old(self).cursor(), 2) ==> r == Ok::<i16, ParseError>(
                le_u16(old(self).input(), old(self).cursor()) as i16,
            ) && final(self).cursor() == old(self).cursor() + 2,
            !fits(old(self).input(), old(self).cursor(), 2) ==> r == Err::<i16, ParseError>(
                eof_at(old(self).input(), old(self).cursor(), 2),
            ) && final(self).cursor() == old(self).cursor(),
    {
        let v = self.u16()?;
        Ok(v as i16)
    }

    /// Little-endian DWORD.
    pub fn u32(&mut self) -> (r: Result<u32, ParseError>)
        ensures
            final(self).input() == old(self).input(),
            final(self).cursor() <= final(self).input().len(),
            fits(old(self).input(), old(self).cursor(), 4) ==> r == Ok::<u32, ParseError>(
                le_u32(old(self).input(), old(self).cursor()),
            ) && final(self).cursor() == old(self).cursor() + 4,
            !fits(old(self).input(), old(self).cursor(), 4) ==> r == Err::<u32, ParseError>(
                eof_at(old(self).input(), old(self).cursor(), 4),
            ) && final(self).cursor() == old(self).cursor(),
    {
        let b = self.bytes(4)?;
        Ok(b[0] as u32 + (b[1] as u32) * 256 + (b[2] as u32) * 65536 + (b[3] as u32) * 16777216)
    }

    /// Little-endian signed DWORD.
    pub fn i32(&mut self) -> (r: Result<i32, ParseError>)
        ensures
            final(self).input() == old(self).input(),
            final(self).cursor() <= final(self).input().len(),
            fits(old(self).input(), old(self).cursor(), 4) ==> r == Ok::<i32, ParseError>(
                le_u32(old(self).input(), old(self).cursor()) as i32,
            ) && final(self).cursor() == old(self).cursor() + 4,
            !fits(old(self).input(), old(self).cursor(), 4) ==> r == Err::<i32, ParseError>(
                eof_at(old(self).input(), old(self).cursor(), 4),
            ) && final(self).cursor() == old(self).cursor(),
    {
        let v = self.u32()?;
        Ok(v as i32)
    }

    /// Little-endian QWORD.
    pub fn u64(&mut self) -> (r: Result<u64, ParseError>)
        ensures
            final(self).input() == old(self).input(),
            final(self).cursor() <= final(self).input().len(),
            fits(old(self).input(), old(self).cursor(), 8) ==> r == Ok::<u64, ParseError>(
                le_u64(old(self).input(), old(self).cursor()),
            ) && final(self).cursor() == old(self).cursor() + 8,
            !fits(old(self).input(), old(self).cursor(), 8) ==> r == Err::<u64, ParseError>(
                eof_at(old(self).input(), old(self).cursor(), 8),
            ) && final(self).cursor() == old(self).cursor(),
    {
        let b = self.bytes(8)?;
        let lo: u64 = b[0] as u64 + (b[1] as u64) * 256 + (b[2] as u64) * 65536 + (b[3] as u64)
            * 16777216;
        let hi: u64 = b[4] as u64 + (b[5] as u64) * 256 + (b[6] as u64) * 65536 + (b[7] as u64)
            * 16777216;
        Ok(lo + hi * 4294967296)
    }

    /// FLOAT: a little-endian IEEE single, returned as its raw bits
    /// (floating-point values are carried by their bits throughout).
    pub fn float_bits(&mut self) -> (r: Result<u32, ParseError>)
        ensures
            final(self).input() == old(self).input(),
            final(self).cursor() <= final(self).input().len(),
            fits(old(self).input(), old(self).cursor(), 4) ==> r == Ok::<u32, ParseError>(
                le_u32(old(self).input(), old(self).cursor()) as u32,
            ) && final(self).cursor() == old(self).cursor() + 4,
            !fits(old(self).input(), old(self).cursor(), 4) ==> r == Err::<u32, ParseError>(
                eof_at(old(self).input(), old(self).cursor(), 4),
            ) && final(self).cursor() == old(self).cursor(),
    {
        self.u32()
    }

    /// DOUBLE: a little-endian IEEE double, returned as its raw bits.
    pub fn double_bits(&mut self) -> (r: Result<u64, ParseError>)
        ensures
            final(self).input() == old(self).input(),
            final(self).cursor() <= final(self).input().len(),
            fits(old(self).input(), old(self).cursor(), 8) ==> r == Ok::<u64, ParseError>(
                le_u64(old(self).input(), old(self).cursor()) as u64,
            ) && final(self).cursor() == old(self).cursor() + 8,
            !fits(old(self).input(), old(self).cursor(), 8) ==> r == Err::<u64, ParseError>(
                eof_at(old(self).input(), old(self).cursor(), 8),
            ) && final(self).cursor() == old(self).cursor(),
    {
        self.u64()
    }

    /// FIXED: signed 16.16 fixed point, returned as its raw value (the
    /// number is the value divided by 65536).
    pub fn fixed(&mut self) -> (r: Result<i32, ParseError>)
        ensures
            final(self).input() == old(self).input(),
            final(self).cursor() <= final(self).input().len(),
            fits(old(self).input(), old(self).cursor(), 4) ==> r == Ok::<i32, ParseError>(
                le_u32(old(self).input(), old(self).cursor()) as i32,
            ) && final(self).cursor() == old(self).cursor() + 4,
            !fits(old(self).input(), old(self).cursor(), 4) ==> r == Err::<i32, ParseError>(
                eof_at(old(self).input(), old(self).cursor(), 4),
            ) && final(self).cursor() == old(self).cursor(),
    {
        self.i32()
    }

    /// STRING: WORD byte length, then that many UTF-8 bytes (no terminator).
    /// A bad encoding is reported at the offset of the length field.
    pub fn string(&mut self) -> (r: Result<String, ParseError>)
        ensures
            final(self).input() == old(self).input(),
            final(self).cursor() <= final(self).input().len(),
            match read_string_at(old(self).input(), old(self).cursor()) {
                Ok((text, end)) => r matches Ok(s) && s@ == text && final(self).cursor() == end,
                Err(e) => r == Err::<String, ParseError>(e),
            },
    {
        let start = self.pos();
        let len = self.u16()?;
        let bytes = self.bytes(len as usize)?;
        match utf8_to_string(bytes) {
            Some(s) => Ok(s),
            None => Err(ParseError::BadString { offset: start }),
        }
    }
}

} // verus!
