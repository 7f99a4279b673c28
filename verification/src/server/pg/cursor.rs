//! Reading the parts of a message.
use crate::bytes;
use crate::bytes::{copy_range, get_be};
use crate::server::pg::error::{PgError, PgErrorView};
use crate::text::text_from_utf8;
use vstd::prelude::*;
use vstd::string::*;
use vstd::utf8::{decode_utf8, valid_utf8};

verus! {

pub open spec fn truncated() -> PgErrorView {
    PgErrorView { code: "08P01"@, message: "message is truncated"@ }
}

pub open spec fn unterminated() -> PgErrorView {
    PgErrorView { code: "08P01"@, message: "unterminated string in message"@ }
}

pub open spec fn not_utf8() -> PgErrorView {
    PgErrorView { code: "22021"@, message: "string is not valid UTF-8"@ }
}

/// The byte at a place, and the place behind it.
pub open spec fn byte_at(payload: Seq<u8>, at: int) -> Result<(u8, int), PgErrorView> {
    if 0 <= at < payload.len() {
        Ok((payload[at], at + 1))
    } else {
        Err(truncated())
    }
}

/// Bytes at a place, and the place behind them.
pub open spec fn bytes_at(payload: Seq<u8>, at: int, count: nat) -> Result<
    (Seq<u8>, int),
    PgErrorView,
> {
    if 0 <= at && at + count <= payload.len() {
        Ok((payload.subrange(at, at + count), at + count))
    } else {
        Err(truncated())
    }
}

/// The signed number that sixteen bits stand for.
pub open spec fn signed16(bits: nat) -> int {
    if bits < 0x8000 {
        bits as int
    } else {
        bits - 0x1_0000
    }
}

/// The signed number that thirty-two bits stand for.
pub open spec fn signed32(bits: nat) -> int {
    if bits < 0x8000_0000 {
        bits as int
    } else {
        bits - 0x1_0000_0000
    }
}

pub open spec fn i16_at(payload: Seq<u8>, at: int) -> Result<(int, int), PgErrorView> {
    match bytes_at(payload, at, 2) {
        Err(error) => Err(error),
        Ok((taken, next)) => Ok((signed16(bytes::from_be(taken)), next)),
    }
}

pub open spec fn i32_at(payload: Seq<u8>, at: int) -> Result<(int, int), PgErrorView> {
    match bytes_at(payload, at, 4) {
        Err(error) => Err(error),
        Ok((taken, next)) => Ok((signed32(bytes::from_be(taken)), next)),
    }
}

/// The place of the first zero byte from a place on; the length where there is none.
pub open spec fn zero_at(payload: Seq<u8>, at: int) -> int
    decreases payload.len() - at,
{
    if at < 0 || at >= payload.len() {
        payload.len() as int
    } else if payload[at] == 0 {
        at
    } else {
        zero_at(payload, at + 1)
    }
}

/// The text at a place up to a zero byte, and the place behind that.
pub open spec fn text_at(payload: Seq<u8>, at: int) -> Result<(Seq<char>, int), PgErrorView> {
    let end = zero_at(payload, at);
    if end >= payload.len() {
        Err(unterminated())
    } else if !valid_utf8(payload.subrange(at, end)) {
        Err(not_utf8())
    } else {
        Ok((decode_utf8(payload.subrange(at, end)), end + 1))
    }
}

fn pg_error(code: &'static str, message: &str) -> (error: PgError)
    ensures
        error@ == (PgErrorView { code: code@, message: message@ }),
{
    PgError { code, message: String::from_str(message) }
}

/// A place in a message.
pub struct Cursor<'a> {
    payload: &'a [u8],
    position: usize,
}

impl<'a> Cursor<'a> {
    pub closed spec fn wf(&self) -> bool {
        self.position <= self.payload@.len()
    }

    pub closed spec fn message(&self) -> Seq<u8> {
        self.payload@
    }

    pub closed spec fn at(&self) -> int {
        self.position as int
    }

    /// The start of a message.
    pub fn new(payload: &'a [u8]) -> (cursor: Cursor<'a>)
        ensures
            cursor.wf(),
            cursor.message() == payload@,
            cursor.at() == 0,
    {
        Cursor { payload, position: 0 }
    }

    /// Takes a byte.
    pub fn take_u8(&mut self) -> (taken: Result<u8, PgError>)
        requires
            old(self).wf(),
        ensures
            final(self).wf(),
            final(self).message() == old(self).message(),
            match taken {
                Ok(byte) => byte_at(old(self).message(), old(self).at()) == Ok::<
                    (u8, int),
                    PgErrorView,
                >((byte, final(self).at())),
                Err(error) => byte_at(old(self).message(), old(self).at()) == Err::<
                    (u8, int),
                    PgErrorView,
                >(error@),
            },
    {
        if self.position >= self.payload.len() {
            return Err(pg_error("08P01", "message is truncated"));
        }
        let byte = self.payload[self.position];
        self.position = self.position + 1;
        Ok(byte)
    }

    /// Takes bytes.
    pub fn take_bytes(&mut self, count: usize) -> (taken: Result<Vec<u8>, PgError>)
        requires
            old(self).wf(),
        ensures
            final(self).wf(),
            final(self).message() == old(self).message(),
            match taken {
                Ok(taken) => bytes_at(old(self).message(), old(self).at(), count as nat) == Ok::<
                    (Seq<u8>, int),
                    PgErrorView,
                >((taken@, final(self).at())),
                Err(error) => bytes_at(old(self).message(), old(self).at(), count as nat) == Err::<
                    (Seq<u8>, int),
                    PgErrorView,
                >(error@),
            },
    {
        if self.payload.len() - self.position < count {
            return Err(pg_error("08P01", "message is truncated"));
        }
        let end: usize = self.position + count;
        let taken = copy_range(self.payload, self.position, end);
        self.position = end;
        Ok(taken)
    }

    /// Takes a number of sixteen bits.
    pub fn take_i16(&mut self) -> (taken: Result<i16, PgError>)
        requires
            old(self).wf(),
        ensures
            final(self).wf(),
            final(self).message() == old(self).message(),
            match taken {
                Ok(number) => i16_at(old(self).message(), old(self).at()) == Ok::<
                    (int, int),
                    PgErrorView,
                >((number as int, final(self).at())),
                Err(error) => i16_at(old(self).message(), old(self).at()) == Err::<
                    (int, int),
                    PgErrorView,
                >(error@),
            },
    {
        match self.take_bytes(2) {
            Err(error) => Err(error),
            Ok(taken) => {
                proof {
                    bytes::lemma_byte_limits();
                    assert(taken@.subrange(0, 2) =~= taken@);
                }
                let bits: u64 = get_be(taken.as_slice(), 0, 2);
                Ok(
                    if bits < 0x8000 {
                        bits as i16
                    } else {
                        (bits as i32 - 0x1_0000) as i16
                    },
                )
            },
        }
    }

    /// Takes a number of thirty-two bits.
    pub fn take_i32(&mut self) -> (taken: Result<i32, PgError>)
        requires
            old(self).wf(),
        ensures
            final(self).wf(),
            final(self).message() == old(self).message(),
            match taken {
                Ok(number) => i32_at(old(self).message(), old(self).at()) == Ok::<
                    (int, int),
                    PgErrorView,
                >((number as int, final(self).at())),
                Err(error) => i32_at(old(self).message(), old(self).at()) == Err::<
                    (int, int),
                    PgErrorView,
                >(error@),
            },
    {
        match self.take_bytes(4) {
            Err(error) => Err(error),
            Ok(taken) => {
                proof {
                    bytes::lemma_byte_limits();
                    assert(taken@.subrange(0, 4) =~= taken@);
                }
                let bits: u64 = get_be(taken.as_slice(), 0, 4);
                Ok(
                    if bits < 0x8000_0000 {
                        bits as i32
                    } else {
                        (bits as i64 - 0x1_0000_0000) as i32
                    },
                )
            },
        }
    }

    /// Takes text that ends with a zero byte.
    pub fn take_cstring(&mut self) -> (taken: Result<String, PgError>)
        requires
            old(self).wf(),
        ensures
            final(self).wf(),
            final(self).message() == old(self).message(),
            match taken {
                Ok(taken) => text_at(old(self).message(), old(self).at()) == Ok::<
                    (Seq<char>, int),
                    PgErrorView,
                >((taken@, final(self).at())),
                Err(error) => text_at(old(self).message(), old(self).at()) == Err::<
                    (Seq<char>, int),
                    PgErrorView,
                >(error@),
            },
    {
        let start: usize = self.position;
        let length: usize = self.payload.len();
        let ghost payload = self.payload@;
        let mut end: usize = start;
        while end < length && self.payload[end] != 0
            invariant
                start <= end <= length == payload.len(),
                payload == self.payload@,
                zero_at(payload, start as int) == zero_at(payload, end as int),
            decreases length - end,
        {
            end = end + 1;
        }
        if end == length {
            return Err(pg_error("08P01", "unterminated string in message"));
        }
        self.position = end + 1;
        match text_from_utf8(copy_range(self.payload, start, end)) {
            Some(taken) => Ok(taken),
            None => Err(pg_error("22021", "string is not valid UTF-8")),
        }
    }
}

} // verus!
