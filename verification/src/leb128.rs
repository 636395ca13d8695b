//! Blocks of signed numbers in the LEB128 variable-length encoding.
//!
//! A block is the text `COMPRESSED_LEB128`, the number of data bytes as an
//! unsigned 32-bit number, and the data. A number is stored in groups of seven
//! bits, lowest first, one group to a byte; every byte but the last one of a
//! number has its top bit set. The top bit of the last group is the sign.

use crate::arith::{low16, low32, wrap16, wrap32};
use crate::error::{Error, Fault};
use crate::reader::{le_u32, read_u32, Reader};
use vstd::prelude::*;

verus! {

/// The text that opens a block: `COMPRESSED_LEB128`.
pub const MAGIC: [u8; 17] = [
    67, 79, 77, 80, 82, 69, 83, 83, 69, 68, 95, 76, 69, 66, 49, 50, 56,
];

/// The number of bytes that the number at the front of `s` takes, or 0 where
/// `s` ends before the number does.
pub open spec fn leb_len(s: Seq<u8>) -> nat
    decreases s.len(),
{
    if s.len() == 0 {
        0
    } else if s[0] < 128 {
        1
    } else {
        let rest = leb_len(s.skip(1));
        if rest == 0 {
            0
        } else {
            rest + 1
        }
    }
}

/// The number at the front of `s`.
pub open spec fn leb_value(s: Seq<u8>) -> int
    decreases s.len(),
{
    if s.len() == 0 {
        0
    } else if s[0] < 64 {
        s[0] as int
    } else if s[0] < 128 {
        s[0] - 128
    } else {
        s[0] - 128 + 128 * leb_value(s.skip(1))
    }
}

/// The `n` numbers that make up `s`, each of at most `max` bytes, or nothing
/// where `s` is not made up of `n` such numbers.
pub open spec fn leb_values(s: Seq<u8>, n: nat, max: nat) -> Option<Seq<int>>
    decreases n,
{
    if n == 0 {
        if s.len() == 0 {
            Some(Seq::empty())
        } else {
            None
        }
    } else {
        let k = leb_len(s);
        if k == 0 || k > max {
            None
        } else {
            match leb_values(s.skip(k as int), (n - 1) as nat, max) {
                Some(rest) => Some(seq![leb_value(s)] + rest),
                None => None,
            }
        }
    }
}

/// The `n` numbers of the block at the front of `s`, and the length of the block.
#[verifier::opaque]
pub open spec fn leb_block(s: Seq<u8>, n: nat, max: nat) -> Result<(Seq<int>, int), Fault> {
    if s.len() < 17 {
        Err(Fault::UnexpectedEof)
    } else if s.take(17) != MAGIC@ {
        Err(Fault::InvalidData("bad LEB128 magic"@))
    } else if s.len() < 21 || s.len() < 21 + le_u32(s, 17) {
        Err(Fault::UnexpectedEof)
    } else {
        match leb_values(s.subrange(21, 21 + le_u32(s, 17)), n, max) {
            Some(values) => Ok((values, 21 + le_u32(s, 17))),
            None => Err(Fault::InvalidData("bad LEB128 data"@)),
        }
    }
}

/// How many bytes are consumed once the block at the front of `s` has been
/// refused for what it holds: the opening text, if that is wrong, or the block.
pub open spec fn block_stop(s: Seq<u8>) -> int {
    if s.take(17) != MAGIC@ {
        17
    } else {
        21 + le_u32(s, 17)
    }
}

/// A block that can be read holds as many numbers as were asked for, and lies
/// within `s`.
pub proof fn block_has_count(s: Seq<u8>, n: nat, max: nat)
    ensures
        leb_block(s, n, max) matches Ok((values, len)) ==> values.len() == n && 0 <= len <= s.len(),
{
    reveal(leb_block);
    if leb_block(s, n, max) is Ok {
        lemma_values_len(s.subrange(21, 21 + le_u32(s, 17)), n, max);
    }
}

/// What follows a block does not matter.
pub proof fn block_ignores_rest(s: Seq<u8>, t: Seq<u8>, n: nat, max: nat)
    requires
        leb_block(s, n, max) is Ok,
    ensures
        leb_block(s + t, n, max) == leb_block(s, n, max),
{
    reveal(leb_block);
    assert((s + t).take(17) =~= s.take(17));
    assert((s + t).subrange(21, 21 + le_u32(s, 17)) =~= s.subrange(21, 21 + le_u32(s, 17)));
}

/// A block that is cut short is refused for that; one that is not stays as it is.
pub proof fn cut_block_is_refused(s: Seq<u8>, m: int, n: nat, max: nat)
    requires
        leb_block(s, n, max) is Ok,
        0 <= m <= s.len(),
    ensures
        m < leb_block(s, n, max)->Ok_0.1 ==> leb_block(s.take(m), n, max) == Err::<
            (Seq<int>, int),
            _,
        >(Fault::UnexpectedEof),
        m >= leb_block(s, n, max)->Ok_0.1 ==> leb_block(s.take(m), n, max) == leb_block(
            s,
            n,
            max,
        ),
{
    reveal(leb_block);
    let cut = s.take(m);
    if m >= 17 {
        assert(cut.take(17) =~= s.take(17));
    }
    if m >= 21 {
        assert(le_u32(cut, 17) == le_u32(s, 17));
        if m >= 21 + le_u32(s, 17) {
            assert(cut.subrange(21, 21 + le_u32(s, 17)) =~= s.subrange(21, 21 + le_u32(s, 17)));
        }
    }
}

proof fn lemma_values_len(s: Seq<u8>, n: nat, max: nat)
    ensures
        leb_values(s, n, max) matches Some(values) ==> values.len() == n,
    decreases n,
{
    if n > 0 {
        lemma_values_len(s.skip(leb_len(s) as int), (n - 1) as nat, max);
    }
}

/// The bytes of a number, as few as possible.
pub open spec fn leb_bytes(x: int) -> Seq<u8>
    decreases if x >= 0 {
        x
    } else {
        -x
    },
{
    if -64 <= x < 64 {
        seq![(x % 128) as u8]
    } else {
        seq![(x % 128 + 128) as u8] + leb_bytes(x / 128)
    }
}

/// A number that is written is read back, whatever follows it.
pub proof fn number_is_read_back(x: int, rest: Seq<u8>)
    ensures
        leb_bytes(x).len() > 0,
        leb_len(leb_bytes(x) + rest) == leb_bytes(x).len(),
        leb_value(leb_bytes(x) + rest) == x,
    decreases if x >= 0 {
        x
    } else {
        -x
    },
{
    let s = leb_bytes(x) + rest;
    if !(-64 <= x < 64) {
        number_is_read_back(x / 128, rest);
        assert(s.skip(1) =~= leb_bytes(x / 128) + rest);
    }
}

/// Numbers of 16 bits take at most three bytes, numbers of 32 bits at most five.
pub proof fn number_len(x: int)
    ensures
        -0x8000 <= x < 0x8000 ==> leb_bytes(x).len() <= 3,
        -0x8000_0000 <= x < 0x8000_0000 ==> leb_bytes(x).len() <= 5,
{
    reveal_with_fuel(leb_bytes, 6);
}

/// The bytes of several numbers.
pub open spec fn leb_data(values: Seq<int>) -> Seq<u8>
    decreases values.len(),
{
    if values.len() == 0 {
        Seq::empty()
    } else {
        leb_bytes(values[0]) + leb_data(values.skip(1))
    }
}

/// Numbers that are written are read back.
pub proof fn numbers_are_read_back(values: Seq<int>, max: nat)
    requires
        forall|i: int| 0 <= i < values.len() ==> leb_bytes(#[trigger] values[i]).len() <= max,
    ensures
        leb_values(leb_data(values), values.len(), max) == Some(values),
    decreases values.len(),
{
    if values.len() == 0 {
        assert(values =~= Seq::empty());
    } else {
        let rest = values.skip(1);
        let s = leb_data(values);
        let first = leb_bytes(values[0]);
        number_is_read_back(values[0], leb_data(rest));
        assert forall|i: int| 0 <= i < rest.len() implies leb_bytes(#[trigger] rest[i]).len()
            <= max by {
            assert(rest[i] == values[i + 1]);
        }
        numbers_are_read_back(rest, max);
        assert(s.skip(first.len() as int) =~= leb_data(rest));
        assert(seq![values[0]] + rest =~= values);
    }
}

/// A bound on the numbers of `n` bytes.
spec fn reach(n: nat) -> int
    decreases n,
{
    if n == 0 {
        1
    } else {
        128 * reach((n - 1) as nat)
    }
}

/// Decodes the number at `pos`, if it has at most `max` bytes, and counts them.
fn decode_one(data: &[u8], pos: usize, max: usize) -> (r: Option<(i64, usize)>)
    requires
        pos <= data@.len(),
        max <= 5,
    ensures
        match r {
            Some((value, len)) => {
                &&& len == leb_len(data@.skip(pos as int))
                &&& 1 <= len <= max
                &&& pos + len <= data@.len()
                &&& value == leb_value(data@.skip(pos as int))
                &&& -reach(max as nat) <= value < reach(max as nat)
            },
            None => leb_len(data@.skip(pos as int)) == 0 || leb_len(data@.skip(pos as int)) > max,
        },
    decreases max,
{
    proof {
        reveal_with_fuel(reach, 6);
    }
    if pos >= data.len() || max == 0 {
        return None;
    }
    let ghost s = data@.skip(pos as int);
    let b: u8 = data[pos];
    if b < 64 {
        return Some((b as i64, 1));
    }
    if b < 128 {
        return Some((b as i64 - 128, 1));
    }
    assert(s.skip(1) =~= data@.skip(pos + 1));
    match decode_one(data, pos + 1, max - 1) {
        Some((rest, len)) => Some((b as i64 - 128 + 128 * rest, len + 1)),
        None => None,
    }
}

/// Decodes `count` numbers that fill `data`, cut to 32 bits.
fn decode_all(data: &[u8], count: usize, max: usize) -> (r: Option<Vec<i32>>)
    requires
        max <= 5,
    ensures
        match leb_values(data@, count as nat, max as nat) {
            Some(values) => r matches Some(v) && v@ == values.map_values(|x: int| wrap32(x)),
            None => r is None,
        },
{
    let mut out: Vec<i32> = Vec::with_capacity(count);
    let mut pos: usize = 0;
    let end: usize = data.len();
    let ghost mut done: Seq<int> = Seq::empty();
    assert(data@.skip(0) =~= data@);
    assert(forall|s: Seq<int>| Seq::<int>::empty() + s =~= s);
    while out.len() < count
        invariant
            pos <= end,
            end == data@.len(),
            out@.len() <= count,
            max <= 5,
            out@ == done.map_values(|x: int| wrap32(x)),
            leb_values(data@, count as nat, max as nat) == match leb_values(
                data@.skip(pos as int),
                (count - out@.len()) as nat,
                max as nat,
            ) {
                Some(rest) => Some(done + rest),
                None => None,
            },
        decreases count - out.len(),
    {
        let ghost s = data@.skip(pos as int);
        match decode_one(data, pos, max) {
            Some((value, len)) => {
                proof {
                    reveal_with_fuel(reach, 6);
                    assert(data@.skip(pos + len) =~= s.skip(len as int));
                    let rest = leb_values(
                        s.skip(len as int),
                        (count - out@.len() - 1) as nat,
                        max as nat,
                    );
                    if rest is Some {
                        assert(done + (seq![value as int] + rest->0) =~= done.push(value as int)
                            + rest->0);
                    }
                    done = done.push(value as int);
                }
                out.push(low32(value));
                pos = pos + len;
                assert(out@ =~= done.map_values(|x: int| wrap32(x)));
            },
            None => {
                return None;
            },
        }
    }
    if pos == end {
        assert(done + Seq::empty() =~= done);
        Some(out)
    } else {
        None
    }
}

/// Whether `bytes` is the text that opens a block.
fn is_magic(bytes: &[u8]) -> (r: bool)
    requires
        bytes@.len() == 17,
    ensures
        r == (bytes@ == MAGIC@),
{
    let mut i: usize = 0;
    while i < 17
        invariant
            i <= 17,
            bytes@.len() == 17,
            forall|k: int| 0 <= k < i ==> bytes@[k] == MAGIC@[k],
        decreases 17 - i,
    {
        if bytes[i] != MAGIC[i] {
            assert(bytes@[i as int] != MAGIC@[i as int]);
            return false;
        }
        i = i + 1;
    }
    assert(bytes@ =~= MAGIC@);
    true
}

/// Reads a block of `count` numbers of at most `max` bytes each, cut to 32 bits.
fn read_block(reader: &mut Reader, count: usize, max: usize) -> (r: Result<Vec<i32>, Error>)
    requires
        max <= 5,
    ensures
        final(reader).advanced(*old(reader)),
        match leb_block(old(reader)@, count as nat, max as nat) {
            Ok((values, len)) => {
                &&& r matches Ok(v) && v@ == values.map_values(|x: int| wrap32(x))
                &&& final(reader)@ == old(reader)@.skip(len)
            },
            Err(fault) => {
                &&& r matches Err(e) && e@ == fault
                &&& fault != Fault::UnexpectedEof ==> {
                    &&& block_stop(old(reader)@) <= old(reader)@.len()
                    &&& final(reader)@ == old(reader)@.skip(block_stop(old(reader)@))
                }
            },
        },
{
    reveal(leb_block);
    let ghost s = reader@;
    match reader.take(17) {
        Ok(magic) => {
            if !is_magic(magic) {
                return Err(Error::InvalidData("bad LEB128 magic"));
            }
        },
        Err(e) => {
            return Err(e);
        },
    }
    let size: u32 = match read_u32(reader) {
        Ok(size) => size,
        Err(e) => {
            return Err(e);
        },
    };
    assert(size == le_u32(s, 17));
    assert(reader@ =~= s.skip(21));
    let data = match reader.take(size as usize) {
        Ok(data) => data,
        Err(e) => {
            return Err(e);
        },
    };
    assert(data@ =~= s.subrange(21, 21 + size));
    assert(reader@ =~= s.skip(21 + size));
    match decode_all(data, count, max) {
        Some(values) => Ok(values),
        None => Err(Error::InvalidData("bad LEB128 data")),
    }
}

/// Reads a block of `count` signed 16-bit numbers.
pub fn read_i16(reader: &mut Reader, count: usize) -> (r: Result<Vec<i16>, Error>)
    ensures
        final(reader).advanced(*old(reader)),
        match leb_block(old(reader)@, count as nat, 3) {
            Ok((values, len)) => {
                &&& r matches Ok(v) && v@ == values.map_values(|x: int| wrap16(x))
                &&& final(reader)@ == old(reader)@.skip(len)
            },
            Err(fault) => {
                &&& r matches Err(e) && e@ == fault
                &&& fault != Fault::UnexpectedEof ==> {
                    &&& block_stop(old(reader)@) <= old(reader)@.len()
                    &&& final(reader)@ == old(reader)@.skip(block_stop(old(reader)@))
                }
            },
        },
{
    let wide: Vec<i32> = match read_block(reader, count, 3) {
        Ok(wide) => wide,
        Err(e) => {
            return Err(e);
        },
    };
    let mut out: Vec<i16> = Vec::with_capacity(wide.len());
    let mut i: usize = 0;
    while i < wide.len()
        invariant
            i <= wide@.len(),
            out@.len() == i,
            forall|k: int| 0 <= k < i ==> out@[k] == wrap16(wide@[k] as int),
        decreases wide.len() - i,
    {
        out.push(low16(wide[i] as i64));
        i = i + 1;
    }
    proof {
        let (values, len) = leb_block(old(reader)@, count as nat, 3)->Ok_0;
        assert forall|k: int| 0 <= k < values.len() implies wrap16(wrap32(values[k]) as int)
            == wrap16(#[trigger] values[k]) by {}
        assert(out@ =~= values.map_values(|x: int| wrap16(x)));
    }
    Ok(out)
}

/// Reads a block of `count` signed 32-bit numbers.
pub fn read_i32(reader: &mut Reader, count: usize) -> (r: Result<Vec<i32>, Error>)
    ensures
        final(reader).advanced(*old(reader)),
        match leb_block(old(reader)@, count as nat, 5) {
            Ok((values, len)) => {
                &&& r matches Ok(v) && v@ == values.map_values(|x: int| wrap32(x))
                &&& final(reader)@ == old(reader)@.skip(len)
            },
            Err(fault) => {
                &&& r matches Err(e) && e@ == fault
                &&& fault != Fault::UnexpectedEof ==> {
                    &&& block_stop(old(reader)@) <= old(reader)@.len()
                    &&& final(reader)@ == old(reader)@.skip(block_stop(old(reader)@))
                }
            },
        },
{
    read_block(reader, count, 5)
}

} // verus!
