//! Reading the values of a slot payload.
//!
//! Payload fields are stored inline, little-endian, with no padding. A
//! payload that ends early, or holds a string that is not UTF-8, is an
//! error, never a panic.

use vstd::prelude::*;
use vstd::utf8::{valid_utf8, decode_utf8};
use crate::manifest::{le_u32, Corruption, OutkiError, OutkiResult};
use crate::strings::string_from_utf8;

verus! {

/// A cursor over the bytes of one payload.
pub struct BinDataStream<'a> {
    slice: &'a [u8],
    pos: usize,
}

impl<'a> BinDataStream<'a> {
    /// The bytes not read yet.
    pub closed spec fn rest(&self) -> Seq<u8> {
        self.slice@.subrange(self.pos as int, self.slice@.len() as int)
    }

    #[verifier::type_invariant]
    spec fn inv(&self) -> bool {
        self.pos <= self.slice@.len()
    }

    pub fn new(slice: &'a [u8]) -> (r: Self)
        ensures
            r.rest() == slice@,
    {
        let r = BinDataStream { slice, pos: 0 };
        assert(r.rest() =~= slice@);
        r
    }

    /// How many bytes are left.
    pub fn remaining(&self) -> (r: usize)
        ensures
            r == self.rest().len(),
    {
        proof {
            use_type_invariant(self);
        }
        if self.pos <= self.slice.len() {
            self.slice.len() - self.pos
        } else {
            0
        }
    }

    /// Takes the next byte; an error when none is left.
    pub fn next_byte(&mut self) -> (r: OutkiResult<u8>)
        ensures
            old(self).rest().len() > 0 ==> r == Ok::<u8, OutkiError>(old(self).rest()[0]) && final(self).rest()
                == old(self).rest().drop_first(),
            old(self).rest().len() == 0 ==> r == Err::<u8, OutkiError>(OutkiError::DataMissing),
    {
        proof {
            use_type_invariant(&*self);
        }
        if self.pos < self.slice.len() {
            let b = self.slice[self.pos];
            let ghost before = self.rest();
            self.pos = self.pos + 1;
            assert(self.rest() =~= before.drop_first());
            Ok(b)
        } else {
            assert(old(self).rest().len() == 0);
            Err(OutkiError::DataMissing)
        }
    }
}

/// Reads a value of the implementing type from a payload.
pub trait BinReader: Sized {
    fn read(stream: &mut BinDataStream) -> OutkiResult<Self>;
}

/// The little-endian `u16` at the front of `s`.
pub open spec fn le_u16(s: Seq<u8>) -> int {
    s[0] + 256 * s[1]
}

impl BinReader for u8 {
    fn read(stream: &mut BinDataStream) -> (r: OutkiResult<u8>)
        ensures
            old(stream).rest().len() >= 1 ==> r == Ok::<u8, OutkiError>(old(stream).rest()[0]) && final(stream).rest()
                == old(stream).rest().skip(1),
            old(stream).rest().len() < 1 ==> r == Err::<u8, OutkiError>(OutkiError::DataMissing),
    {
        let r = stream.next_byte();
        assert(old(stream).rest().drop_first() =~= old(stream).rest().skip(1));
        r
    }
}

impl BinReader for u16 {
    fn read(stream: &mut BinDataStream) -> (r: OutkiResult<u16>)
        ensures
            old(stream).rest().len() >= 2 ==> r == Ok::<u16, OutkiError>(le_u16(old(stream).rest()) as u16)
                && final(stream).rest() == old(stream).rest().skip(2),
            old(stream).rest().len() < 2 ==> r is Err,
    {
        let ghost s = stream.rest();
        if stream.remaining() < 2 {
            return Err(OutkiError::DataMissing);
        }
        let b0 = stream.next_byte().unwrap();
        let b1 = stream.next_byte().unwrap();
        assert(stream.rest() =~= s.skip(2));
        Ok((b0 as u16) + (b1 as u16) * 256)
    }
}

impl BinReader for u32 {
    fn read(stream: &mut BinDataStream) -> (r: OutkiResult<u32>)
        ensures
            old(stream).rest().len() >= 4 ==> r == Ok::<u32, OutkiError>(le_u32(old(stream).rest(), 0) as u32)
                && final(stream).rest() == old(stream).rest().skip(4),
            old(stream).rest().len() < 4 ==> r is Err,
    {
        let ghost s = stream.rest();
        if stream.remaining() < 4 {
            return Err(OutkiError::DataMissing);
        }
        let b0 = stream.next_byte().unwrap();
        let b1 = stream.next_byte().unwrap();
        let b2 = stream.next_byte().unwrap();
        let b3 = stream.next_byte().unwrap();
        assert(stream.rest() =~= s.skip(4));
        Ok((b0 as u32) + (b1 as u32) * 256 + (b2 as u32) * 65536 + (b3 as u32) * 16777216)
    }
}

impl BinReader for i32 {
    /// The bits of a `u32`, as a two's complement `i32`.
    fn read(stream: &mut BinDataStream) -> (r: OutkiResult<i32>)
        ensures
            old(stream).rest().len() >= 4 ==> r == Ok::<i32, OutkiError>(le_u32(old(stream).rest(), 0) as i32)
                && final(stream).rest() == old(stream).rest().skip(4),
            old(stream).rest().len() < 4 ==> r is Err,
    {
        match u32::read(stream) {
            Ok(v) => Ok(v as i32),
            Err(e) => Err(e),
        }
    }
}

impl BinReader for usize {
    /// A `usize` field is 8 bytes: the value in the low word, and a high
    /// word that must be zero.
    fn read(stream: &mut BinDataStream) -> (r: OutkiResult<usize>)
        ensures
            old(stream).rest().len() >= 8 && le_u32(old(stream).rest(), 4) == 0 ==> r == Ok::<usize, OutkiError>(
                le_u32(old(stream).rest(), 0) as usize,
            ) && final(stream).rest() == old(stream).rest().skip(8),
            old(stream).rest().len() >= 8 && le_u32(old(stream).rest(), 4) != 0 ==> r == Err::<
                usize,
                OutkiError,
            >(OutkiError::CorruptPackage(Corruption::OversizedLength)),
            old(stream).rest().len() < 8 ==> r is Err,
    {
        let ghost s = stream.rest();
        if stream.remaining() < 8 {
            return Err(OutkiError::DataMissing);
        }
        let low = u32::read(stream).unwrap();
        let ghost s4 = stream.rest();
        let high = u32::read(stream).unwrap();
        assert(stream.rest() =~= s.skip(8));
        assert(le_u32(s4, 0) == le_u32(s, 4)) by {
            assert(s4[0] == s[4] && s4[1] == s[5] && s4[2] == s[6] && s4[3] == s[7]);
        }
        if high != 0 {
            return Err(OutkiError::CorruptPackage(Corruption::OversizedLength));
        }
        Ok(low as usize)
    }
}

impl BinReader for bool {
    /// A byte, true exactly when it is 1.
    fn read(stream: &mut BinDataStream) -> (r: OutkiResult<bool>)
        ensures
            old(stream).rest().len() >= 1 ==> r == Ok::<bool, OutkiError>(old(stream).rest()[0] == 1)
                && final(stream).rest() == old(stream).rest().skip(1),
            old(stream).rest().len() < 1 ==> r is Err,
    {
        match u8::read(stream) {
            Ok(b) => Ok(b == 1),
            Err(e) => Err(e),
        }
    }
}

impl BinReader for String {
    /// A `usize` byte length, then that many UTF-8 bytes.
    fn read(stream: &mut BinDataStream) -> (r: OutkiResult<String>)
        ensures
            r matches Ok(s) ==> {
                let n = le_u32(old(stream).rest(), 0);
                &&& old(stream).rest().len() >= 8 + n
                &&& le_u32(old(stream).rest(), 4) == 0
                &&& valid_utf8(old(stream).rest().subrange(8, 8 + n))
                &&& s@ == decode_utf8(old(stream).rest().subrange(8, 8 + n))
                &&& final(stream).rest() == old(stream).rest().skip(8 + n)
            },
            ({
                let s = old(stream).rest();
                s.len() >= 8 && le_u32(s, 4) == 0 && s.len() >= 8 + le_u32(s, 0) && valid_utf8(
                    s.subrange(8, 8 + le_u32(s, 0)),
                )
            }) ==> r is Ok,
    {
        let ghost s = stream.rest();
        let len = match usize::read(stream) {
            Ok(v) => v,
            Err(e) => return Err(e),
        };
        if stream.remaining() < len {
            return Err(OutkiError::DataMissing);
        }
        let mut bytes: Vec<u8> = Vec::new();
        let mut i: usize = 0;
        let ghost s8 = stream.rest();
        while i < len
            invariant
                i <= len <= s8.len(),
                s8 == s.skip(8),
                stream.rest() == s8.skip(i as int),
                bytes@ == s8.take(i as int),
            decreases len - i,
        {
            let b = stream.next_byte().unwrap();
            assert(s8.skip(i as int).drop_first() =~= s8.skip(i + 1));
            bytes.push(b);
            assert(bytes@ =~= s8.take(i + 1));
            i = i + 1;
        }
        assert(s8.take(len as int) =~= s.subrange(8, 8 + len));
        assert(s8.skip(len as int) =~= s.skip(8 + len));
        match string_from_utf8(bytes) {
            Some(x) => Ok(x),
            None => Err(OutkiError::CorruptPackage(Corruption::InvalidUtf8)),
        }
    }
}

impl<T: BinReader> BinReader for Vec<T> {
    /// A `usize` element count, then that many elements.
    fn read(stream: &mut BinDataStream) -> (r: OutkiResult<Vec<T>>)
        ensures
            r matches Ok(v) ==> old(stream).rest().len() >= 8 && v@.len() == le_u32(old(stream).rest(), 0),
            old(stream).rest().len() < 8 ==> r is Err,
            old(stream).rest().len() >= 8 && le_u32(old(stream).rest(), 4) != 0 ==> r == Err::<Vec<T>, OutkiError>(
                OutkiError::CorruptPackage(Corruption::OversizedLength),
            ),
    {
        let ghost s = stream.rest();
        let len = match usize::read(stream) {
            Ok(v) => v,
            Err(e) => return Err(e),
        };
        let mut vec: Vec<T> = Vec::new();
        let mut i: usize = 0;
        while i < len
            invariant
                i <= len,
                vec@.len() == i,
                old(stream).rest().len() >= 8,
                le_u32(old(stream).rest(), 4) == 0,
                len == le_u32(old(stream).rest(), 0),
            decreases len - i,
        {
            match T::read(stream) {
                Ok(x) => vec.push(x),
                Err(e) => return Err(e),
            }
            i = i + 1;
        }
        Ok(vec)
    }
}

} // verus!
