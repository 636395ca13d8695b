//! Reading little-endian numbers from a byte slice.

use crate::arith::{wrap16, wrap32, wrap8};
use crate::error::{Error, Fault};
use vstd::prelude::*;
use vstd::slice::slice_subrange;

verus! {

/// The unsigned 32-bit number at place `p`.
pub open spec fn le_u32(s: Seq<u8>, p: int) -> u32 {
    (s[p] + 0x100 * s[p + 1] + 0x1_0000 * s[p + 2] + 0x100_0000 * s[p + 3]) as u32
}

/// The signed 32-bit number at place `p`.
pub open spec fn le_i32(s: Seq<u8>, p: int) -> i32 {
    wrap32(le_u32(s, p) as int)
}

/// The signed 16-bit number at place `p`.
pub open spec fn le_i16(s: Seq<u8>, p: int) -> i16 {
    wrap16(s[p] + 0x100 * s[p + 1])
}

/// `n` signed 32-bit numbers from place `p` on.
pub open spec fn i32s(s: Seq<u8>, p: int, n: nat) -> Seq<i32> {
    Seq::new(n, |i: int| le_i32(s, p + 4 * i))
}

/// `n` signed 16-bit numbers from place `p` on.
pub open spec fn i16s(s: Seq<u8>, p: int, n: nat) -> Seq<i16> {
    Seq::new(n, |i: int| le_i16(s, p + 2 * i))
}

/// `n` signed 8-bit numbers from place `p` on.
pub open spec fn i8s(s: Seq<u8>, p: int, n: nat) -> Seq<i8> {
    Seq::new(n, |i: int| wrap8(s[p + i] as int))
}

/// A byte slice that is consumed from the front. Its view is what is left.
pub struct Reader<'a> {
    bytes: &'a [u8],
    pos: usize,
}

impl<'a> View for Reader<'a> {
    type V = Seq<u8>;

    open spec fn view(&self) -> Seq<u8> {
        self.source().skip(self.offset())
    }
}

impl<'a> Reader<'a> {
    #[verifier::type_invariant]
    spec fn inv(self) -> bool {
        self.pos <= self.bytes@.len()
    }

    /// All bytes, consumed or not.
    pub closed spec fn source(self) -> Seq<u8> {
        self.bytes@
    }

    /// How many bytes have been consumed.
    pub closed spec fn offset(self) -> int {
        self.pos as int
    }

    /// Whether this reader comes from `before` by consuming bytes, if any.
    pub open spec fn advanced(self, before: Reader<'a>) -> bool {
        &&& self.source() == before.source()
        &&& before.offset() <= self.offset()
    }

    /// A reader of all of `bytes`.
    pub fn new(bytes: &'a [u8]) -> (r: Self)
        ensures
            r@ == bytes@,
            r.source() == bytes@,
            r.offset() == 0,
    {
        let r = Reader { bytes, pos: 0 };
        assert(r@ =~= bytes@);
        r
    }

    /// The number of bytes that are left.
    pub fn remaining(&self) -> (r: usize)
        ensures
            r == self@.len(),
    {
        proof {
            use_type_invariant(self);
        }
        self.bytes.len() - self.pos
    }

    /// The next `count` bytes. Nothing is consumed where fewer are left.
    pub fn take(&mut self, count: usize) -> (r: Result<&'a [u8], Error>)
        ensures
            final(self).advanced(*old(self)),
            r is Ok <==> count <= old(self)@.len(),
            r matches Ok(bytes) ==> bytes@ == old(self)@.take(count as int) && final(self)@
                == old(self)@.skip(count as int),
            r matches Err(e) ==> e@ == Fault::UnexpectedEof && *final(self) == *old(self),
    {
        proof {
            use_type_invariant(&*self);
        }
        if count <= self.bytes.len() - self.pos {
            let bytes = slice_subrange(self.bytes, self.pos, self.pos + count);
            self.pos = self.pos + count;
            assert(bytes@ =~= old(self)@.take(count as int));
            assert(self@ =~= old(self)@.skip(count as int));
            Ok(bytes)
        } else {
            Err(Error::UnexpectedEof)
        }
    }
}

/// The unsigned 32-bit number at place `p`.
pub fn u32_at(bytes: &[u8], p: usize) -> (r: u32)
    requires
        p + 4 <= bytes@.len(),
    ensures
        r == le_u32(bytes@, p as int),
{
    bytes[p] as u32 + 0x100 * bytes[p + 1] as u32 + 0x1_0000 * bytes[p + 2] as u32 + 0x100_0000
        * bytes[p + 3] as u32
}

/// Reads an unsigned 32-bit number. Nothing is consumed where it is cut off.
pub fn read_u32(reader: &mut Reader) -> (r: Result<u32, Error>)
    ensures
        final(reader).advanced(*old(reader)),
        r is Ok <==> 4 <= old(reader)@.len(),
        r matches Ok(value) ==> value == le_u32(old(reader)@, 0) && final(reader)@
            == old(reader)@.skip(4),
        r matches Err(e) ==> e@ == Fault::UnexpectedEof && *final(reader) == *old(reader),
{
    match reader.take(4) {
        Ok(bytes) => Ok(u32_at(bytes, 0)),
        Err(e) => Err(e),
    }
}

/// Reads `count` signed 32-bit numbers. Nothing is consumed where fewer are left.
pub fn read_i32_raw(reader: &mut Reader, count: usize) -> (r: Result<Vec<i32>, Error>)
    ensures
        final(reader).advanced(*old(reader)),
        r is Ok <==> 4 * count <= old(reader)@.len(),
        r matches Ok(values) ==> values@ == i32s(old(reader)@, 0, count as nat) && final(reader)@
            == old(reader)@.skip(4 * count),
        r matches Err(e) ==> e@ == Fault::UnexpectedEof && *final(reader) == *old(reader),
{
    if reader.remaining() / 4 < count {
        return Err(Error::UnexpectedEof);
    }
    let bytes = match reader.take(4 * count) {
        Ok(bytes) => bytes,
        Err(e) => {
            return Err(e);
        },
    };
    let mut out: Vec<i32> = Vec::with_capacity(count);
    let mut i: usize = 0;
    while i < count
        invariant
            i <= count,
            4 * count <= old(reader)@.len() <= usize::MAX,
            bytes@ == old(reader)@.take(4 * count),
            out@ == i32s(old(reader)@, 0, i as nat),
        decreases count - i,
    {
        let word: u32 = u32_at(bytes, 4 * i);
        assert(word as i32 == if word < 0x8000_0000 {
            word as int
        } else {
            word - 0x1_0000_0000
        }) by (bit_vector);
        out.push(word as i32);
        i = i + 1;
        assert(out@ =~= i32s(old(reader)@, 0, i as nat));
    }
    Ok(out)
}

/// Reads `count` signed 16-bit numbers. Nothing is consumed where fewer are left.
pub fn read_i16_raw(reader: &mut Reader, count: usize) -> (r: Result<Vec<i16>, Error>)
    ensures
        final(reader).advanced(*old(reader)),
        r is Ok <==> 2 * count <= old(reader)@.len(),
        r matches Ok(values) ==> values@ == i16s(old(reader)@, 0, count as nat) && final(reader)@
            == old(reader)@.skip(2 * count),
        r matches Err(e) ==> e@ == Fault::UnexpectedEof && *final(reader) == *old(reader),
{
    if reader.remaining() / 2 < count {
        return Err(Error::UnexpectedEof);
    }
    let bytes = match reader.take(2 * count) {
        Ok(bytes) => bytes,
        Err(e) => {
            return Err(e);
        },
    };
    let mut out: Vec<i16> = Vec::with_capacity(count);
    let mut i: usize = 0;
    while i < count
        invariant
            i <= count,
            2 * count <= old(reader)@.len() <= usize::MAX,
            bytes@ == old(reader)@.take(2 * count),
            out@ == i16s(old(reader)@, 0, i as nat),
        decreases count - i,
    {
        let word: u16 = bytes[2 * i] as u16 + 0x100 * bytes[2 * i + 1] as u16;
        assert(word as i16 == if word < 0x8000 {
            word as int
        } else {
            word - 0x1_0000
        }) by (bit_vector);
        out.push(word as i16);
        i = i + 1;
        assert(out@ =~= i16s(old(reader)@, 0, i as nat));
    }
    Ok(out)
}

/// Reads `count` signed 8-bit numbers. Nothing is consumed where fewer are left.
pub fn read_i8_raw(reader: &mut Reader, count: usize) -> (r: Result<Vec<i8>, Error>)
    ensures
        final(reader).advanced(*old(reader)),
        r is Ok <==> count <= old(reader)@.len(),
        r matches Ok(values) ==> values@ == i8s(old(reader)@, 0, count as nat) && final(reader)@
            == old(reader)@.skip(count as int),
        r matches Err(e) ==> e@ == Fault::UnexpectedEof && *final(reader) == *old(reader),
{
    let bytes = match reader.take(count) {
        Ok(bytes) => bytes,
        Err(e) => {
            return Err(e);
        },
    };
    let mut out: Vec<i8> = Vec::with_capacity(count);
    let mut i: usize = 0;
    while i < count
        invariant
            i <= count,
            count <= old(reader)@.len(),
            bytes@ == old(reader)@.take(count as int),
            out@ == i8s(old(reader)@, 0, i as nat),
        decreases count - i,
    {
        let b: u8 = bytes[i];
        assert(b as i8 == if b < 0x80 {
            b as int
        } else {
            b - 0x100
        }) by (bit_vector);
        out.push(b as i8);
        i = i + 1;
        assert(out@ =~= i8s(old(reader)@, 0, i as nat));
    }
    Ok(out)
}

} // verus!
