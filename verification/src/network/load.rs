//! Loading networks.

use super::{bucket_models, Bucket, Layers, Network};
use crate::arith::{lemma_wrap16_step, low16, wrap16};
use crate::error::{Error, Fault};
use crate::feature::Arch;
use crate::format::{
    block_end, body_network, body_stop, bucket_at, bucket_len, detected, file_end, file_stop,
    halfka_network, halfka_stop, halfkp_network, hm_end, hm_network, hm_stop, kp_len, network_file,
    network_has_length, refusals_tell_where, stacks_at, stacks_len, v10_end, v10_network, v10_stop,
    v2_len, v2_network, width_for, FEATURE_HASH_HM, FEATURE_HASH_THREATS, FEATURE_HASH_V2,
    VERSION_HALFKA, VERSION_HALFKP,
};
use crate::leb128;
use crate::reader::{
    i16s, i32s, i8s, le_i32, le_u32, read_i16_raw, read_i32_raw, read_i8_raw, read_u32, u32_at,
    Reader,
};
use crate::threats::THREAT_DIMENSIONS;
use vstd::prelude::*;

verus! {

/// Numbers read after skipping `k` bytes are those at place `k`.
proof fn lemma_skipped(s: Seq<u8>, k: int, p: int, n: nat)
    requires
        0 <= k,
        0 <= p,
    ensures
        k + p + n <= s.len() ==> i8s(s.skip(k), p, n) == i8s(s, k + p, n),
        k + p + 2 * n <= s.len() ==> i16s(s.skip(k), p, n) == i16s(s, k + p, n),
        k + p + 4 * n <= s.len() ==> i32s(s.skip(k), p, n) == i32s(s, k + p, n),
        k + p + 4 <= s.len() ==> le_i32(s.skip(k), p) == le_i32(s, k + p),
        k + p + 4 <= s.len() ==> le_u32(s.skip(k), p) == le_u32(s, k + p),
{
    if k + p + n <= s.len() {
        assert(i8s(s.skip(k), p, n) =~= i8s(s, k + p, n));
    }
    if k + p + 2 * n <= s.len() {
        assert(i16s(s.skip(k), p, n) =~= i16s(s, k + p, n));
    }
    if k + p + 4 * n <= s.len() {
        assert(i32s(s.skip(k), p, n) =~= i32s(s, k + p, n));
    }
}

/// Layers read after skipping `k` bytes are those at place `k`.
proof fn lemma_bucket_skipped(s: Seq<u8>, k: int, p: int, fc0_out: nat, fc0_in: nat, fc1_out: nat)
    requires
        0 <= k,
        0 <= p,
        k + p + bucket_len(fc0_out, fc0_in, fc1_out) <= s.len(),
    ensures
        bucket_at(s.skip(k), p, fc0_out, fc0_in, fc1_out) == bucket_at(
            s,
            k + p,
            fc0_out,
            fc0_in,
            fc1_out,
        ),
{
    let p1 = p + 4 * fc0_out;
    let p2 = p1 + fc0_out * fc0_in;
    let p3 = p2 + 4 * fc1_out;
    let p4 = p3 + fc1_out * 32;
    lemma_skipped(s, k, p, fc0_out);
    lemma_skipped(s, k, p1, fc0_out * fc0_in);
    lemma_skipped(s, k, p2, fc1_out);
    lemma_skipped(s, k, p3, fc1_out * 32);
    lemma_skipped(s, k, p4, 0);
    lemma_skipped(s, k, p4 + 4, fc1_out);
}

/// Eight stacks read after skipping `k` bytes are those at place `k`.
proof fn lemma_stacks_skipped(s: Seq<u8>, k: int, fc0_in: nat)
    requires
        0 <= k,
        k + stacks_len(fc0_in) <= s.len(),
    ensures
        stacks_at(s.skip(k), 0, fc0_in) == stacks_at(s, k, fc0_in),
{
    let size = 4int + bucket_len(16, fc0_in, 32);
    assert forall|i: int| 0 <= i < 8 implies #[trigger] stacks_at(s.skip(k), 0, fc0_in)[i]
        == stacks_at(s, k, fc0_in)[i] by {
        assert(0 <= i * size && i * size + size <= 8 * size) by (nonlinear_arith)
            requires
                0 <= i < 8,
                size >= 0,
        ;
        lemma_bucket_skipped(s, k, i * size + 4, 16, fc0_in, 32);
    }
    assert(stacks_at(s.skip(k), 0, fc0_in) =~= stacks_at(s, k, fc0_in));
}

/// Every one of eight stacks has the layer widths with which it was read.
proof fn lemma_stacks_shaped(s: Seq<u8>, p: int, fc0_in: nat)
    ensures
        forall|k: int|
            0 <= k < 8 ==> (#[trigger] stacks_at(s, p, fc0_in)[k]).shaped(16, fc0_in as int, 32),
{
}

/// Twice each number, in 16-bit arithmetic.
fn doubled(values: &Vec<i16>) -> (r: Vec<i16>)
    ensures
        r@ == values@.map_values(|x: i16| wrap16(2 * x)),
{
    let mut out: Vec<i16> = Vec::with_capacity(values.len());
    let mut i: usize = 0;
    while i < values.len()
        invariant
            i <= values@.len(),
            out@.len() == i,
            forall|k: int| 0 <= k < i ==> out@[k] == wrap16(2 * values@[k]),
        decreases values.len() - i,
    {
        out.push(low16(2 * values[i] as i64));
        i = i + 1;
    }
    assert(out@ =~= values@.map_values(|x: i16| wrap16(2 * x)));
    out
}

/// Cutting a number to 16 bits before doubling it makes no difference.
proof fn lemma_doubled(values: Seq<int>)
    ensures
        values.map_values(|x: int| wrap16(x)).map_values(|x: i16| wrap16(2 * x))
            == values.map_values(|x: int| wrap16(2 * x)),
{
    assert forall|k: int| 0 <= k < values.len() implies wrap16(2 * wrap16(values[k])) == wrap16(
        2 * #[trigger] values[k],
    ) by {
        let x = values[k];
        lemma_wrap16_step(x, wrap16(x) as int);
        lemma_wrap16_step(x, x);
    }
    assert(values.map_values(|x: int| wrap16(x)).map_values(|x: i16| wrap16(2 * x))
        =~= values.map_values(|x: int| wrap16(2 * x)));
}

/// Where the block at place `p` ends, as far as `bytes` tells.
fn find_block_end(bytes: &[u8], p: u64) -> (r: u64)
    requires
        p <= 0x100_0000_0000,
    ensures
        r == block_end(bytes@, p as int),
        p + 21 <= r <= p + 0x1_0000_0100,
{
    if (bytes.len() as u64) < p + 21 {
        p + 21
    } else {
        p + 21 + u32_at(bytes, p as usize + 17) as u64
    }
}

/// Where the mirrored network at place `p` ends, as far as `bytes` tells.
fn find_hm_end(bytes: &[u8], p: u64, l1: usize) -> (r: u64)
    requires
        p <= 0x10_0000_0000,
        l1 <= 4096,
    ensures
        r == hm_end(bytes@, p as int, l1 as nat),
{
    let n: u64 = bytes.len() as u64;
    let e1: u64 = find_block_end(bytes, p);
    if n < e1 {
        return e1;
    }
    let e2: u64 = find_block_end(bytes, e1);
    if n < e2 {
        return e2;
    }
    let e3: u64 = find_block_end(bytes, e2);
    if n < e3 {
        return e3;
    }
    e3 + stacks_size(l1)
}

/// Where the network with attack features at place `p` ends, as far as `bytes`
/// tells.
fn find_v10_end(bytes: &[u8], p: u64, l1: usize) -> (r: u64)
    requires
        p <= 0x10_0000_0000,
        l1 <= 4096,
    ensures
        r == v10_end(bytes@, p as int, l1 as nat),
{
    let n: u64 = bytes.len() as u64;
    let e1: u64 = find_block_end(bytes, p);
    if n < e1 {
        return e1;
    }
    let q: u64 = e1 + (THREAT_DIMENSIONS * l1) as u64;
    if n < q {
        return q;
    }
    let e2: u64 = find_block_end(bytes, q);
    if n < e2 {
        return e2;
    }
    let e3: u64 = find_block_end(bytes, e2);
    if n < e3 {
        return e3;
    }
    e3 + stacks_size(l1)
}

/// The length of eight stacks.
fn stacks_size(fc0_in: usize) -> (r: u64)
    requires
        fc0_in <= 8192,
    ensures
        r == stacks_len(fc0_in as nat),
        r <= 0x1000_0000,
{
    8 * (4 + (4 * 16 + 16 * fc0_in as u64 + 4 * 32 + 32 * 32 + 4 + 32))
}

impl Network {
    /// Where the network file ends, as far as the bytes at its front tell.
    ///
    /// Reading up to there never reads past the file, and once that many bytes
    /// are there, [`Network::from_bytes`] has all that it needs.
    pub fn file_end(bytes: &[u8]) -> (r: u64)
        ensures
            r == file_end(bytes@),
    {
        let n: u64 = bytes.len() as u64;
        if n < 12 {
            return 12;
        }
        let p: u64 = 12 + u32_at(bytes, 8) as u64;
        if n < p {
            return p;
        }
        let version: u32 = u32_at(bytes, 0);
        if version == VERSION_HALFKP {
            return p + (4 + 2 * 256 + 2 * (256 * 41024) + 4 + (4 * 32 + 32 * 512 + 4 * 32 + 32 * 32
                + 4 + 32));
        }
        if version != VERSION_HALFKA {
            return p;
        }
        if n < p + 4 {
            return p + 4;
        }
        match Self::detect_halfka(u32_at(bytes, p as usize)) {
            Ok((Arch::Sfnnv10, l1)) => find_v10_end(bytes, p + 4, l1),
            Ok((Arch::HalfKAv2Hm, l1)) => find_hm_end(bytes, p + 4, l1),
            Ok((_, l1)) => p + 4 + (2 * l1 as u64 + 2 * (l1 as u64 * 45056) + 4 * (8 * 45056)
                + stacks_size(2 * l1)),
            Err(_) => p + 4,
        }
    }

    fn width(ft_hash: u32, feature_hash: u32) -> (r: Option<usize>)
        ensures
            match width_for(ft_hash, feature_hash) {
                Some(l1) => r == Some(l1 as usize) && 16 <= l1 <= 4096 && l1 % 16 == 0,
                None => r is None,
            },
    {
        let x: u32 = ft_hash ^ feature_hash;
        if x != 0 && x % 2 == 0 {
            let l1: usize = (x / 2) as usize;
            if l1 >= 16 && l1 <= 4096 && l1 % 16 == 0 {
                return Some(l1);
            }
        }
        None
    }

    /// Tells the architecture and the accumulator width from the hash of the
    /// feature transformer.
    fn detect_halfka(ft_hash: u32) -> (r: Result<(Arch, usize), Error>)
        ensures
            match detected(ft_hash) {
                Some((arch, l1)) => {
                    &&& r matches Ok((a, n)) && a == arch && n == l1
                    &&& arch != Arch::HalfKP
                    &&& 16 <= l1 <= 4096
                    &&& l1 % 16 == 0
                },
                None => r matches Err(e) && e@ == Fault::InvalidData(
                    "bad feature-transformer width"@,
                ),
            },
    {
        if let Some(l1) = Self::width(ft_hash, FEATURE_HASH_THREATS) {
            return Ok((Arch::Sfnnv10, l1));
        }
        if let Some(l1) = Self::width(ft_hash, FEATURE_HASH_HM) {
            return Ok((Arch::HalfKAv2Hm, l1));
        }
        if let Some(l1) = Self::width(ft_hash, FEATURE_HASH_V2) {
            return Ok((Arch::HalfKAv2, l1));
        }
        Err(Error::InvalidData("bad feature-transformer width"))
    }

    /// Reads a stack of dense layers.
    fn read_bucket(
        reader: &mut Reader,
        fc0_out: usize,
        fc0_in: usize,
        fc1_out: usize,
    ) -> (r: Result<Bucket, Error>)
        requires
            fc0_out <= 32,
            fc0_in <= 8192,
            fc1_out <= 32,
        ensures
            final(reader).advanced(*old(reader)),
            r is Ok <==> bucket_len(fc0_out as nat, fc0_in as nat, fc1_out as nat)
                <= old(reader)@.len(),
            r matches Ok(bucket) ==> {
                &&& bucket@ == bucket_at(
                    old(reader)@,
                    0,
                    fc0_out as nat,
                    fc0_in as nat,
                    fc1_out as nat,
                )
                &&& bucket@.shaped(fc0_out as int, fc0_in as int, fc1_out as int)
                &&& final(reader)@ == old(reader)@.skip(
                    bucket_len(fc0_out as nat, fc0_in as nat, fc1_out as nat) as int,
                )
            },
            r matches Err(e) ==> e@ == Fault::UnexpectedEof,
    {
        let ghost s = reader@;
        assert(0 <= fc0_out * fc0_in <= 32 * 8192) by (nonlinear_arith)
            requires
                0 <= fc0_out <= 32,
                0 <= fc0_in <= 8192,
        ;
        let ghost p1 = 4 * fc0_out;
        let ghost p2 = p1 + fc0_out * fc0_in;
        let ghost p3 = p2 + 4 * fc1_out;
        let ghost p4 = p3 + fc1_out * 32;
        let fc0_bias: Vec<i32> = read_i32_raw(reader, fc0_out)?;
        assert(reader@ =~= s.skip(p1));
        let fc0_weight: Vec<i8> = read_i8_raw(reader, fc0_out * fc0_in)?;
        assert(reader@ =~= s.skip(p2));
        let fc1_bias: Vec<i32> = read_i32_raw(reader, fc1_out)?;
        assert(reader@ =~= s.skip(p3));
        let fc1_weight: Vec<i8> = read_i8_raw(reader, fc1_out * 32)?;
        assert(reader@ =~= s.skip(p4));
        let fc2_bias: Vec<i32> = read_i32_raw(reader, 1)?;
        assert(reader@ =~= s.skip(p4 + 4));
        let fc2_weight: Vec<i8> = read_i8_raw(reader, fc1_out)?;
        proof {
            assert(reader@ =~= s.skip(p4 + 4 + fc1_out));
            lemma_skipped(s, p1, 0, (fc0_out * fc0_in) as nat);
            lemma_skipped(s, p2, 0, fc1_out as nat);
            lemma_skipped(s, p3, 0, (fc1_out * 32) as nat);
            lemma_skipped(s, p4, 0, 1);
            lemma_skipped(s, p4 + 4, 0, fc1_out as nat);
        }
        let fc2_bias: i32 = fc2_bias[0];
        Ok(Bucket { fc0_bias, fc0_weight, fc1_bias, fc1_weight, fc2_bias, fc2_weight })
    }

    /// Reads eight stacks, each of them after a hash.
    fn read_stacks(reader: &mut Reader, fc0_in: usize) -> (r: Result<Vec<Bucket>, Error>)
        requires
            fc0_in <= 8192,
        ensures
            final(reader).advanced(*old(reader)),
            r is Ok <==> stacks_len(fc0_in as nat) <= old(reader)@.len(),
            r matches Ok(buckets) ==> {
                &&& bucket_models(buckets@) == stacks_at(old(reader)@, 0, fc0_in as nat)
                &&& final(reader)@ == old(reader)@.skip(stacks_len(fc0_in as nat) as int)
            },
            r matches Err(e) ==> e@ == Fault::UnexpectedEof,
    {
        let ghost s = reader@;
        let ghost size: int = 4int + bucket_len(16, fc0_in as nat, 32);
        let mut buckets: Vec<Bucket> = Vec::with_capacity(8);
        assert(buckets@.len() * size == 0) by (nonlinear_arith)
            requires
                buckets@.len() == 0,
        ;
        assert(s.skip(0) =~= s);
        while buckets.len() < 8
            invariant
                s == old(reader)@,
                fc0_in <= 8192,
                size == 4 + bucket_len(16, fc0_in as nat, 32),
                buckets@.len() <= 8,
                buckets@.len() * size <= s.len(),
                reader@ == s.skip(buckets@.len() * size),
                reader.advanced(*old(reader)),
                forall|k: int|
                    0 <= k < buckets@.len() ==> (#[trigger] buckets@[k])@ == stacks_at(
                        s,
                        0,
                        fc0_in as nat,
                    )[k],
            decreases 8 - buckets.len(),
        {
            let ghost n = buckets@.len() as int;
            let ghost p = n * size;
            assert(8 * size >= p + size) by (nonlinear_arith)
                requires
                    p == n * size,
                    0 <= n < 8,
                    size >= 0,
            ;
            assert((n + 1) * size == p + size) by (nonlinear_arith)
                requires
                    p == n * size,
            ;
            read_u32(reader)?;
            assert(reader@ =~= s.skip(p + 4));
            let bucket = Self::read_bucket(reader, 16, fc0_in, 32)?;
            proof {
                assert(reader@ =~= s.skip(p + size));
                lemma_bucket_skipped(s, p + 4, 0, 16, fc0_in as nat, 32);
            }
            buckets.push(bucket);
        }
        assert(bucket_models(buckets@) =~= stacks_at(s, 0, fc0_in as nat));
        Ok(buckets)
    }

    /// Loads a mirrored king-relative network.
    fn load_halfka_hm(reader: &mut Reader, l1: usize) -> (r: Result<Self, Error>)
        requires
            16 <= l1 <= 4096,
            l1 % 16 == 0,
        ensures
            final(reader).advanced(*old(reader)),
            match hm_network(old(reader)@, l1 as nat) {
                Ok((network, len)) => {
                    &&& r matches Ok(n) && n@ == network
                    &&& final(reader)@ == old(reader)@.skip(len)
                },
                Err(fault) => {
                    &&& r matches Err(e) && e@ == fault
                    &&& fault != Fault::UnexpectedEof ==> {
                        &&& 0 <= hm_stop(old(reader)@, l1 as nat) <= old(reader)@.len()
                        &&& final(reader)@ == old(reader)@.skip(hm_stop(old(reader)@, l1 as nat))
                    }
                },
            },
    {
        reveal(hm_network);
        let ghost s = reader@;
        let bias: Vec<i16> = leb128::read_i16(reader, l1)?;
        let ghost (bias_values, n1) = leb128::leb_block(s, l1 as nat, 3)->Ok_0;
        proof {
            leb128::block_has_count(s, l1 as nat, 3);
        }
        let ghost s1 = reader@;
        let weight: Vec<i16> = leb128::read_i16(reader, l1 * 22528)?;
        let ghost (weight_values, n2) = leb128::leb_block(s1, (l1 * 22528) as nat, 3)->Ok_0;
        proof {
            leb128::block_has_count(s1, (l1 * 22528) as nat, 3);
            assert(reader@ =~= s.skip(n1 + n2));
        }
        let ghost s2 = reader@;
        let ft_psqt: Vec<i32> = leb128::read_i32(reader, 8 * 22528)?;
        let ghost (psqt_values, n3) = leb128::leb_block(s2, 8 * 22528, 5)->Ok_0;
        let ghost p = n1 + n2 + n3;
        proof {
            leb128::block_has_count(s2, 8 * 22528, 5);
            assert(reader@ =~= s.skip(p));
        }
        let ft_bias: Vec<i16> = doubled(&bias);
        let ft_weight: Vec<i16> = doubled(&weight);
        let buckets = Self::read_stacks(reader, l1)?;
        proof {
            assert(reader@ =~= s.skip(p + stacks_len(l1 as nat)));
            lemma_doubled(bias_values);
            lemma_doubled(weight_values);
            lemma_stacks_skipped(s, p, l1 as nat);
            lemma_stacks_shaped(s, p, l1 as nat);
        }
        Ok(
            Network {
                arch: Arch::HalfKAv2Hm,
                l1,
                ft_bias,
                ft_weight,
                layers: Layers::HalfKAv2Hm { ft_psqt, buckets },
            },
        )
    }

    /// Loads an unmirrored king-relative network.
    fn load_halfka_v2(reader: &mut Reader, l1: usize) -> (r: Result<Self, Error>)
        requires
            16 <= l1 <= 4096,
            l1 % 16 == 0,
        ensures
            final(reader).advanced(*old(reader)),
            r is Ok <==> v2_len(l1 as nat) <= old(reader)@.len(),
            r matches Ok(n) ==> {
                &&& n@ == v2_network(old(reader)@, l1 as nat)
                &&& final(reader)@ == old(reader)@.skip(v2_len(l1 as nat) as int)
            },
            r matches Err(e) ==> e@ == Fault::UnexpectedEof,
    {
        let ghost s = reader@;
        let ghost p1: int = 2int * l1;
        let ghost p2: int = p1 + 2 * (l1 * 45056);
        let ghost p3: int = p2 + 4 * (8 * 45056);
        let ft_bias: Vec<i16> = read_i16_raw(reader, l1)?;
        assert(reader@ =~= s.skip(p1));
        let ft_weight: Vec<i16> = read_i16_raw(reader, l1 * 45056)?;
        assert(reader@ =~= s.skip(p2));
        let ft_psqt: Vec<i32> = read_i32_raw(reader, 8 * 45056)?;
        assert(reader@ =~= s.skip(p3));
        let buckets = Self::read_stacks(reader, 2 * l1)?;
        proof {
            assert(reader@ =~= s.skip(v2_len(l1 as nat) as int));
            lemma_skipped(s, p1, 0, (l1 * 45056) as nat);
            lemma_skipped(s, p2, 0, 8 * 45056);
            lemma_stacks_skipped(s, p3, (2 * l1) as nat);
            lemma_stacks_shaped(s, p3, (2 * l1) as nat);
        }
        Ok(
            Network {
                arch: Arch::HalfKAv2,
                l1,
                ft_bias,
                ft_weight,
                layers: Layers::HalfKAv2 { ft_psqt, buckets },
            },
        )
    }

    /// Loads a network with attack features.
    #[verifier::rlimit(40)]
    fn load_sfnnv10(reader: &mut Reader, l1: usize) -> (r: Result<Self, Error>)
        requires
            16 <= l1 <= 4096,
            l1 % 16 == 0,
        ensures
            final(reader).advanced(*old(reader)),
            match v10_network(old(reader)@, l1 as nat) {
                Ok((network, len)) => {
                    &&& r matches Ok(n) && n@ == network
                    &&& final(reader)@ == old(reader)@.skip(len)
                },
                Err(fault) => {
                    &&& r matches Err(e) && e@ == fault
                    &&& fault != Fault::UnexpectedEof ==> {
                        &&& 0 <= v10_stop(old(reader)@, l1 as nat) <= old(reader)@.len()
                        &&& final(reader)@ == old(reader)@.skip(v10_stop(old(reader)@, l1 as nat))
                    }
                },
            },
    {
        reveal(v10_network);
        let ghost s = reader@;
        let ft_bias: Vec<i16> = leb128::read_i16(reader, l1)?;
        let ghost (bias_values, n1) = leb128::leb_block(s, l1 as nat, 3)->Ok_0;
        proof {
            leb128::block_has_count(s, l1 as nat, 3);
        }
        let threat_weight: Vec<i8> = read_i8_raw(reader, THREAT_DIMENSIONS * l1)?;
        let ghost p1 = n1 + THREAT_DIMENSIONS * l1;
        proof {
            assert(reader@ =~= s.skip(p1));
            lemma_skipped(s, n1, 0, (THREAT_DIMENSIONS * l1) as nat);
        }
        let ghost s1 = reader@;
        let ft_weight: Vec<i16> = leb128::read_i16(reader, l1 * 22528)?;
        let ghost (weight_values, n2) = leb128::leb_block(s1, (l1 * 22528) as nat, 3)->Ok_0;
        proof {
            leb128::block_has_count(s1, (l1 * 22528) as nat, 3);
            assert(reader@ =~= s.skip(p1 + n2));
        }
        let ghost s2 = reader@;
        let mut threat_psqt: Vec<i32> = leb128::read_i32(reader, (THREAT_DIMENSIONS + 22528) * 8)?;
        let ghost sums = threat_psqt@;
        let ghost (psqt_values, n3) = leb128::leb_block(
            s2,
            ((THREAT_DIMENSIONS + 22528) * 8) as nat,
            5,
        )->Ok_0;
        let ghost p = p1 + n2 + n3;
        proof {
            leb128::block_has_count(s2, ((THREAT_DIMENSIONS + 22528) * 8) as nat, 5);
            assert(reader@ =~= s.skip(p));
        }
        let ft_psqt: Vec<i32> = threat_psqt.split_off(THREAT_DIMENSIONS * 8);
        assert(threat_psqt@ =~= sums.take(THREAT_DIMENSIONS * 8));
        assert(ft_psqt@ =~= sums.skip(THREAT_DIMENSIONS * 8));
        let buckets = Self::read_stacks(reader, l1)?;
        proof {
            assert(reader@ =~= s.skip(p + stacks_len(l1 as nat)));
            lemma_stacks_skipped(s, p, l1 as nat);
            lemma_stacks_shaped(s, p, l1 as nat);
        }
        Ok(
            Network {
                arch: Arch::Sfnnv10,
                l1,
                ft_bias,
                ft_weight,
                layers: Layers::Sfnnv10 { ft_psqt, threat_weight, threat_psqt, buckets },
            },
        )
    }

    fn load_halfka(reader: &mut Reader) -> (r: Result<Self, Error>)
        ensures
            final(reader).advanced(*old(reader)),
            match halfka_network(old(reader)@) {
                Ok((network, len)) => {
                    &&& r matches Ok(n) && n@ == network
                    &&& final(reader)@ == old(reader)@.skip(len)
                },
                Err(fault) => {
                    &&& r matches Err(e) && e@ == fault
                    &&& fault != Fault::UnexpectedEof ==> {
                        &&& 0 <= halfka_stop(old(reader)@) <= old(reader)@.len()
                        &&& final(reader)@ == old(reader)@.skip(halfka_stop(old(reader)@))
                    }
                },
            },
    {
        let ghost s = reader@;
        let ft_hash: u32 = read_u32(reader)?;
        let (arch, l1): (Arch, usize) = Self::detect_halfka(ft_hash)?;
        proof {
            network_has_length(s);
        }
        let network = match arch {
            Arch::Sfnnv10 => Self::load_sfnnv10(reader, l1)?,
            Arch::HalfKAv2Hm => Self::load_halfka_hm(reader, l1)?,
            _ => Self::load_halfka_v2(reader, l1)?,
        };
        proof {
            let len = halfka_network(s)->Ok_0.1;
            assert(s.skip(4).skip(len - 4) =~= s.skip(len));
        }
        Ok(network)
    }

    fn load_halfkp(reader: &mut Reader) -> (r: Result<Self, Error>)
        ensures
            final(reader).advanced(*old(reader)),
            match halfkp_network(old(reader)@) {
                Ok((network, len)) => {
                    &&& r matches Ok(n) && n@ == network
                    &&& final(reader)@ == old(reader)@.skip(len)
                },
                Err(fault) => r matches Err(e) && e@ == fault,
            },
    {
        let ghost s = reader@;
        read_u32(reader)?;
        assert(reader@ =~= s.skip(4));
        let ft_bias: Vec<i16> = read_i16_raw(reader, 256)?;
        assert(reader@ =~= s.skip(516));
        let ft_weight: Vec<i16> = read_i16_raw(reader, 256 * 41024)?;
        let ghost p: int = 516int + 2 * (256 * 41024);
        assert(reader@ =~= s.skip(p));
        read_u32(reader)?;
        assert(reader@ =~= s.skip(p + 4));
        let bucket = Self::read_bucket(reader, 32, 512, 32)?;
        proof {
            assert(reader@ =~= s.skip(kp_len() as int));
            lemma_skipped(s, 4, 0, 256);
            lemma_skipped(s, 516, 0, 256 * 41024);
            lemma_bucket_skipped(s, p + 4, 0, 32, 512, 32);
        }
        Ok(
            Network {
                arch: Arch::HalfKP,
                l1: 256,
                ft_bias,
                ft_weight,
                layers: Layers::HalfKP(bucket),
            },
        )
    }

    /// Reads the header of a file and returns the version.
    fn read_header(reader: &mut Reader) -> (r: Result<u32, Error>)
        ensures
            final(reader).advanced(*old(reader)),
            r is Ok <==> old(reader)@.len() >= 12 && old(reader)@.len() >= 12 + le_u32(
                old(reader)@,
                8,
            ),
            r matches Ok(version) ==> version == le_u32(old(reader)@, 0) && final(reader)@
                == old(reader)@.skip(12 + le_u32(old(reader)@, 8)),
            r matches Err(e) ==> e@ == Fault::UnexpectedEof,
    {
        let ghost s = reader@;
        let version: u32 = read_u32(reader)?;
        assert(reader@ =~= s.skip(4));
        read_u32(reader)?;
        assert(reader@ =~= s.skip(8));
        let desc_len: u32 = read_u32(reader)?;
        proof {
            assert(reader@ =~= s.skip(12));
            lemma_skipped(s, 8, 0, 0);
        }
        reader.take(desc_len as usize)?;
        assert(reader@ =~= s.skip(12 + desc_len));
        Ok(version)
    }

    /// Loads what follows the header in a file of the given version.
    fn load_body(reader: &mut Reader, version: u32) -> (r: Result<Self, Error>)
        ensures
            final(reader).advanced(*old(reader)),
            match body_network(version, old(reader)@) {
                Ok((network, len)) => {
                    &&& r matches Ok(n) && n@ == network
                    &&& network.wf()
                    &&& 0 <= len <= old(reader)@.len()
                    &&& final(reader)@ == old(reader)@.skip(len)
                },
                Err(fault) => {
                    &&& r matches Err(e) && e@ == fault
                    &&& fault != Fault::UnexpectedEof ==> {
                        &&& 0 <= body_stop(version, old(reader)@) <= old(reader)@.len()
                        &&& final(reader)@ == old(reader)@.skip(
                            body_stop(version, old(reader)@),
                        )
                    }
                },
            },
    {
        proof {
            network_has_length(reader@);
            assert(reader@.skip(0) =~= reader@);
        }
        let network = match version {
            VERSION_HALFKA => Self::load_halfka(reader)?,
            VERSION_HALFKP => Self::load_halfkp(reader)?,
            other => {
                return Err(Error::UnsupportedVersion(other));
            },
        };
        proof {
            use_type_invariant(&network);
        }
        Ok(network)
    }

    /// Loads a network from a reader, which is left behind the network. Where the
    /// network is refused for what it holds, the reader is left behind what has
    /// been read to see that: behind the header where the version is not known,
    /// and behind the hash that follows where the width is bad.
    ///
    /// The architecture is selected from the file's version header.
    pub fn from_reader(reader: &mut Reader) -> (r: Result<Self, Error>)
        ensures
            final(reader).advanced(*old(reader)),
            match network_file(old(reader)@) {
                Ok((network, len)) => {
                    &&& r matches Ok(n) && n@ == network
                    &&& network.wf()
                    &&& final(reader)@ == old(reader)@.skip(len)
                },
                Err(fault) => {
                    &&& r matches Err(e) && e@ == fault
                    &&& fault != Fault::UnexpectedEof ==> {
                        &&& 0 <= file_stop(old(reader)@) <= old(reader)@.len()
                        &&& final(reader)@ == old(reader)@.skip(file_stop(old(reader)@))
                    }
                },
            },
            r matches Err(e) ==> (e@ is UnsupportedVersion ==> final(reader)@ == old(reader)@.skip(
                12 + le_u32(old(reader)@, 8),
            )),
            r matches Err(e) ==> (e@ == Fault::InvalidData("bad feature-transformer width"@)
                ==> final(reader)@ == old(reader)@.skip(16 + le_u32(old(reader)@, 8))),
    {
        let ghost s = reader@;
        let version: u32 = Self::read_header(reader)?;
        let ghost body = reader@;
        proof {
            refusals_tell_where(s);
        }
        let network = Self::load_body(reader, version)?;
        proof {
            let len = body_network(version, body)->Ok_0.1;
            assert(body.skip(len) =~= s.skip(12 + le_u32(s, 8) + len));
        }
        Ok(network)
    }

    /// Loads a network from a byte slice. What follows the network is ignored.
    pub fn from_bytes(bytes: &[u8]) -> (r: Result<Self, Error>)
        ensures
            match network_file(bytes@) {
                Ok((network, len)) => r matches Ok(n) && n@ == network && network.wf(),
                Err(fault) => r matches Err(e) && e@ == fault,
            },
    {
        let mut reader = Reader::new(bytes);
        Self::from_reader(&mut reader)
    }
}

} // verus!
