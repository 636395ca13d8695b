//! The layout of network files.
//!
//! A file starts with three unsigned 32-bit numbers: the version, a hash of
//! the architecture, and the length of a description, which follows. What
//! comes then depends on the version.

use crate::arith::{wrap16, wrap32};
use crate::error::Fault;
use crate::feature::Arch;
use crate::leb128::{
    block_has_count, block_ignores_rest, block_stop, cut_block_is_refused, leb_block,
};
use crate::model::{BucketModel, NetworkModel};
use crate::reader::{i16s, i32s, i8s, le_i32, le_u32};
use crate::threats::THREAT_DIMENSIONS;
use vstd::prelude::*;

verus! {

/// The version of the king-relative architectures.
pub const VERSION_HALFKA: u32 = 0x7AF32F20;

/// The version of the HalfKP architecture.
pub const VERSION_HALFKP: u32 = 0x7AF32F16;

/// What identifies the feature sets: the hash in the file is one of these
/// numbers, combined by exclusive or with twice the accumulator width.
pub const FEATURE_HASH_THREATS: u32 = 0x8f234cb8;

pub const FEATURE_HASH_HM: u32 = 0x7f234cb8;

pub const FEATURE_HASH_V2: u32 = 0x5f234cb8;

/// The accumulator width that `ft_hash` stands for with the given feature set:
/// a multiple of 16 up to 4096.
pub open spec fn width_for(ft_hash: u32, feature_hash: u32) -> Option<nat> {
    let x = ft_hash ^ feature_hash;
    if x % 2 == 0 && 16 <= x / 2 <= 4096 && (x / 2) % 16 == 0 {
        Some((x / 2) as nat)
    } else {
        None
    }
}

/// The feature set and the accumulator width that `ft_hash` stands for.
pub open spec fn detected(ft_hash: u32) -> Option<(Arch, nat)> {
    match width_for(ft_hash, FEATURE_HASH_THREATS) {
        Some(l1) => Some((Arch::Sfnnv10, l1)),
        None => match width_for(ft_hash, FEATURE_HASH_HM) {
            Some(l1) => Some((Arch::HalfKAv2Hm, l1)),
            None => match width_for(ft_hash, FEATURE_HASH_V2) {
                Some(l1) => Some((Arch::HalfKAv2, l1)),
                None => None,
            },
        },
    }
}

/// The length of a stack of dense layers.
pub open spec fn bucket_len(fc0_out: nat, fc0_in: nat, fc1_out: nat) -> nat {
    4 * fc0_out + fc0_out * fc0_in + 4 * fc1_out + fc1_out * 32 + 4 + fc1_out
}

/// The stack of dense layers at place `p`.
pub open spec fn bucket_at(
    s: Seq<u8>,
    p: int,
    fc0_out: nat,
    fc0_in: nat,
    fc1_out: nat,
) -> BucketModel {
    let p1 = p + 4 * fc0_out;
    let p2 = p1 + fc0_out * fc0_in;
    let p3 = p2 + 4 * fc1_out;
    let p4 = p3 + fc1_out * 32;
    BucketModel {
        fc0_bias: i32s(s, p, fc0_out),
        fc0_weight: i8s(s, p1, fc0_out * fc0_in),
        fc1_bias: i32s(s, p2, fc1_out),
        fc1_weight: i8s(s, p3, fc1_out * 32),
        fc2_bias: le_i32(s, p4),
        fc2_weight: i8s(s, p4 + 4, fc1_out),
    }
}

/// The length of eight stacks, each of them after a hash.
pub open spec fn stacks_len(fc0_in: nat) -> nat {
    8 * (4 + bucket_len(16, fc0_in, 32))
}

/// The eight stacks at place `p`.
pub open spec fn stacks_at(s: Seq<u8>, p: int, fc0_in: nat) -> Seq<BucketModel> {
    Seq::new(
        8,
        |k: int| bucket_at(s, p + k * (4 + bucket_len(16, fc0_in, 32)) + 4, 16, fc0_in, 32),
    )
}

/// The mirrored king-relative network at the front of `s`, and its length.
/// Biases and weights are stored at half their value.
#[verifier::opaque]
pub open spec fn hm_network(s: Seq<u8>, l1: nat) -> Result<(NetworkModel, int), Fault> {
    match leb_block(s, l1, 3) {
        Err(fault) => Err(fault),
        Ok((bias, n1)) => match leb_block(s.skip(n1), (l1 * 22528) as nat, 3) {
            Err(fault) => Err(fault),
            Ok((weight, n2)) => match leb_block(s.skip(n1 + n2), 8 * 22528, 5) {
                Err(fault) => Err(fault),
                Ok((psqt, n3)) => {
                    let p = n1 + n2 + n3;
                    if s.len() < p + stacks_len(l1) {
                        Err(Fault::UnexpectedEof)
                    } else {
                        Ok(
                            (
                                NetworkModel {
                                    arch: Arch::HalfKAv2Hm,
                                    l1,
                                    ft_bias: bias.map_values(|x: int| wrap16(2 * x)),
                                    ft_weight: weight.map_values(|x: int| wrap16(2 * x)),
                                    ft_psqt: psqt.map_values(|x: int| wrap32(x)),
                                    threat_weight: Seq::empty(),
                                    threat_psqt: Seq::empty(),
                                    buckets: stacks_at(s, p, l1),
                                },
                                p + stacks_len(l1),
                            ),
                        )
                    }
                },
            },
        },
    }
}

/// The network with attack features at the front of `s`, and its length. The
/// piece-square weights of the attacks come before those of the pieces.
#[verifier::opaque]
pub open spec fn v10_network(s: Seq<u8>, l1: nat) -> Result<(NetworkModel, int), Fault> {
    match leb_block(s, l1, 3) {
        Err(fault) => Err(fault),
        Ok((bias, n1)) => {
            let threat_len = (THREAT_DIMENSIONS * l1) as nat;
            let p1 = n1 + threat_len;
            if s.len() < p1 {
                Err(Fault::UnexpectedEof)
            } else {
                match leb_block(s.skip(p1), (l1 * 22528) as nat, 3) {
                    Err(fault) => Err(fault),
                    Ok((weight, n2)) => match leb_block(
                        s.skip(p1 + n2),
                        ((THREAT_DIMENSIONS + 22528) * 8) as nat,
                        5,
                    ) {
                        Err(fault) => Err(fault),
                        Ok((psqt, n3)) => {
                            let p = p1 + n2 + n3;
                            let sums = psqt.map_values(|x: int| wrap32(x));
                            if s.len() < p + stacks_len(l1) {
                                Err(Fault::UnexpectedEof)
                            } else {
                                Ok(
                                    (
                                        NetworkModel {
                                            arch: Arch::Sfnnv10,
                                            l1,
                                            ft_bias: bias.map_values(|x: int| wrap16(x)),
                                            ft_weight: weight.map_values(|x: int| wrap16(x)),
                                            ft_psqt: sums.skip(THREAT_DIMENSIONS * 8),
                                            threat_weight: i8s(s, n1, threat_len),
                                            threat_psqt: sums.take(THREAT_DIMENSIONS * 8),
                                            buckets: stacks_at(s, p, l1),
                                        },
                                        p + stacks_len(l1),
                                    ),
                                )
                            }
                        },
                    },
                }
            }
        },
    }
}

/// The length of an unmirrored king-relative network.
pub open spec fn v2_len(l1: nat) -> nat {
    2 * l1 + 2 * (l1 * 45056) + 4 * (8 * 45056) + stacks_len(2 * l1)
}

/// The unmirrored king-relative network at the front of `s`.
pub open spec fn v2_network(s: Seq<u8>, l1: nat) -> NetworkModel {
    let p1 = 2 * l1;
    let p2 = p1 + 2 * (l1 * 45056);
    let p3 = p2 + 4 * (8 * 45056);
    NetworkModel {
        arch: Arch::HalfKAv2,
        l1,
        ft_bias: i16s(s, 0, l1),
        ft_weight: i16s(s, p1 as int, (l1 * 45056) as nat),
        ft_psqt: i32s(s, p2 as int, 8 * 45056),
        threat_weight: Seq::empty(),
        threat_psqt: Seq::empty(),
        buckets: stacks_at(s, p3 as int, 2 * l1),
    }
}

/// The length of a HalfKP network.
pub open spec fn kp_len() -> nat {
    4 + 2 * 256 + 2 * (256 * 41024) + 4 + bucket_len(32, 512, 32)
}

/// The HalfKP network at the front of `s`: a hash, the feature transformer, a
/// hash, and one stack of layers.
pub open spec fn kp_network(s: Seq<u8>) -> NetworkModel {
    let p1 = 4 + 2 * 256;
    let p2 = p1 + 2 * (256 * 41024) + 4;
    NetworkModel {
        arch: Arch::HalfKP,
        l1: 256,
        ft_bias: i16s(s, 4, 256),
        ft_weight: i16s(s, p1 as int, 256 * 41024),
        ft_psqt: Seq::empty(),
        threat_weight: Seq::empty(),
        threat_psqt: Seq::empty(),
        buckets: seq![bucket_at(s, p2 as int, 32, 512, 32)],
    }
}

/// What follows the description in a king-relative file: the hash of the
/// feature transformer, which tells the architectures apart, and the network.
pub open spec fn halfka_network(s: Seq<u8>) -> Result<(NetworkModel, int), Fault> {
    if s.len() < 4 {
        Err(Fault::UnexpectedEof)
    } else {
        let body = s.skip(4);
        let found = match detected(le_u32(s, 0)) {
            None => Err(Fault::InvalidData("bad feature-transformer width"@)),
            Some((Arch::Sfnnv10, l1)) => v10_network(body, l1),
            Some((Arch::HalfKAv2Hm, l1)) => hm_network(body, l1),
            Some((_, l1)) => if body.len() < v2_len(l1) {
                Err(Fault::UnexpectedEof)
            } else {
                Ok((v2_network(body, l1), v2_len(l1) as int))
            },
        };
        match found {
            Ok((network, len)) => Ok((network, 4 + len)),
            Err(fault) => Err(fault),
        }
    }
}

/// What follows the description in a HalfKP file.
pub open spec fn halfkp_network(s: Seq<u8>) -> Result<(NetworkModel, int), Fault> {
    if s.len() < kp_len() {
        Err(Fault::UnexpectedEof)
    } else {
        Ok((kp_network(s), kp_len() as int))
    }
}

/// What follows the description in a file of the given version.
pub open spec fn body_network(version: u32, s: Seq<u8>) -> Result<(NetworkModel, int), Fault> {
    if version == VERSION_HALFKA {
        halfka_network(s)
    } else if version == VERSION_HALFKP {
        halfkp_network(s)
    } else {
        Err(Fault::UnsupportedVersion(version))
    }
}

/// The network file at the front of `s`: the network and the length of the file.
pub open spec fn network_file(s: Seq<u8>) -> Result<(NetworkModel, int), Fault> {
    if s.len() < 12 || s.len() < 12 + le_u32(s, 8) {
        Err(Fault::UnexpectedEof)
    } else {
        let header = 12 + le_u32(s, 8);
        match body_network(le_u32(s, 0), s.skip(header)) {
            Ok((network, len)) => Ok((network, header + len)),
            Err(fault) => Err(fault),
        }
    }
}

/// How many bytes are consumed once the mirrored network at the front of `s` has
/// been refused for what it holds.
pub open spec fn hm_stop(s: Seq<u8>, l1: nat) -> int {
    match leb_block(s, l1, 3) {
        Err(_) => block_stop(s),
        Ok((_, n1)) => match leb_block(s.skip(n1), (l1 * 22528) as nat, 3) {
            Err(_) => n1 + block_stop(s.skip(n1)),
            Ok((_, n2)) => n1 + n2 + block_stop(s.skip(n1 + n2)),
        },
    }
}

/// How many bytes are consumed once the network with attack features at the
/// front of `s` has been refused for what it holds.
pub open spec fn v10_stop(s: Seq<u8>, l1: nat) -> int {
    match leb_block(s, l1, 3) {
        Err(_) => block_stop(s),
        Ok((_, n1)) => {
            let p1 = n1 + THREAT_DIMENSIONS * l1;
            match leb_block(s.skip(p1), (l1 * 22528) as nat, 3) {
                Err(_) => p1 + block_stop(s.skip(p1)),
                Ok((_, n2)) => p1 + n2 + block_stop(s.skip(p1 + n2)),
            }
        },
    }
}

/// How many bytes after the description are consumed once a king-relative file
/// has been refused for what it holds.
pub open spec fn halfka_stop(s: Seq<u8>) -> int {
    match detected(le_u32(s, 0)) {
        Some((Arch::Sfnnv10, l1)) => 4 + v10_stop(s.skip(4), l1),
        Some((Arch::HalfKAv2Hm, l1)) => 4 + hm_stop(s.skip(4), l1),
        _ => 4,
    }
}

/// How many bytes after the description are consumed once a file of the given
/// version has been refused for what it holds.
pub open spec fn body_stop(version: u32, s: Seq<u8>) -> int {
    if version == VERSION_HALFKA {
        halfka_stop(s)
    } else {
        0
    }
}

/// How many bytes are consumed once the file at the front of `s` has been refused
/// for what it holds: the header, where the version is not known, or what has
/// been read to see that the rest is wrong.
pub open spec fn file_stop(s: Seq<u8>) -> int {
    let header = 12 + le_u32(s, 8);
    header + body_stop(le_u32(s, 0), s.skip(header))
}

/// What a block is refused for is never the width of the accumulators.
proof fn lemma_block_fault(s: Seq<u8>, n: nat, max: nat)
    ensures
        leb_block(s, n, max) matches Err(fault) ==> fault != Fault::InvalidData(
            "bad feature-transformer width"@,
        ) && !(fault is UnsupportedVersion),
{
    reveal(leb_block);
    reveal_strlit("bad feature-transformer width");
    reveal_strlit("bad LEB128 magic");
    reveal_strlit("bad LEB128 data");
    assert("bad feature-transformer width"@.len() == 29);
    assert("bad LEB128 magic"@.len() == 16);
    assert("bad LEB128 data"@.len() == 15);
}

proof fn lemma_hm_fault(s: Seq<u8>, l1: nat)
    ensures
        hm_network(s, l1) matches Err(fault) ==> fault != Fault::InvalidData(
            "bad feature-transformer width"@,
        ) && !(fault is UnsupportedVersion),
{
    reveal(hm_network);
    lemma_block_fault(s, l1, 3);
    if let Ok((_, n1)) = leb_block(s, l1, 3) {
        lemma_block_fault(s.skip(n1), (l1 * 22528) as nat, 3);
        if let Ok((_, n2)) = leb_block(s.skip(n1), (l1 * 22528) as nat, 3) {
            lemma_block_fault(s.skip(n1 + n2), 8 * 22528, 5);
        }
    }
}

proof fn lemma_v10_fault(s: Seq<u8>, l1: nat)
    ensures
        v10_network(s, l1) matches Err(fault) ==> fault != Fault::InvalidData(
            "bad feature-transformer width"@,
        ) && !(fault is UnsupportedVersion),
{
    reveal(v10_network);
    lemma_block_fault(s, l1, 3);
    if let Ok((_, n1)) = leb_block(s, l1, 3) {
        let p1 = n1 + THREAT_DIMENSIONS * l1;
        lemma_block_fault(s.skip(p1), (l1 * 22528) as nat, 3);
        if let Ok((_, n2)) = leb_block(s.skip(p1), (l1 * 22528) as nat, 3) {
            lemma_block_fault(s.skip(p1 + n2), ((THREAT_DIMENSIONS + 22528) * 8) as nat, 5);
        }
    }
}

/// The reason of a refusal tells where reading stops: behind the header where the
/// version is not known, and four bytes further where the width is bad.
pub proof fn refusals_tell_where(s: Seq<u8>)
    ensures
        network_file(s) matches Err(fault) ==> {
            &&& fault is UnsupportedVersion ==> file_stop(s) == 12 + le_u32(s, 8)
            &&& fault == Fault::InvalidData("bad feature-transformer width"@) ==> file_stop(s)
                == 16 + le_u32(s, 8)
        },
{
    let body = s.skip(12 + le_u32(s, 8));
    if let Some((_, l1)) = detected(le_u32(body, 0)) {
        lemma_hm_fault(body.skip(4), l1);
        lemma_v10_fault(body.skip(4), l1);
    }
}

/// Every architecture with every width has a hash that is recognised, and that
/// stands for nothing else.
pub proof fn every_width_is_detected(l1: u32)
    requires
        16 <= l1 <= 4096,
        l1 % 16 == 0,
    ensures
        detected(FEATURE_HASH_THREATS ^ (2 * l1) as u32) == Some((Arch::Sfnnv10, l1 as nat)),
        detected(FEATURE_HASH_HM ^ (2 * l1) as u32) == Some((Arch::HalfKAv2Hm, l1 as nat)),
        detected(FEATURE_HASH_V2 ^ (2 * l1) as u32) == Some((Arch::HalfKAv2, l1 as nat)),
{
    let x: u32 = (2 * l1) as u32;
    assert((0x8f234cb8u32 ^ x) ^ 0x8f234cb8 == x) by (bit_vector);
    assert((0x7f234cb8u32 ^ x) ^ 0x7f234cb8 == x && (0x7f234cb8u32 ^ x) ^ 0x8f234cb8 > 0x1000_0000)
        by (bit_vector)
        requires
            x <= 8192,
    ;
    assert((0x5f234cb8u32 ^ x) ^ 0x5f234cb8 == x && (0x5f234cb8u32 ^ x) ^ 0x7f234cb8 > 0x1000_0000
        && (0x5f234cb8u32 ^ x) ^ 0x8f234cb8 > 0x1000_0000) by (bit_vector)
        requires
            x <= 8192,
    ;
}

/// A network lies within the bytes that it is read from.
pub proof fn network_has_length(s: Seq<u8>)
    ensures
        halfka_network(s) matches Ok((_, len)) ==> 4 <= len <= s.len(),
        halfkp_network(s) matches Ok((_, len)) ==> 4 <= len <= s.len(),
{
    if let Some((_, l1)) = detected(le_u32(s, 0)) {
        lemma_hm_length(s.skip(4), l1);
        lemma_v10_length(s.skip(4), l1);
    }
}

proof fn lemma_hm_length(s: Seq<u8>, l1: nat)
    ensures
        hm_network(s, l1) matches Ok((_, len)) ==> 0 <= len <= s.len(),
{
    reveal(hm_network);
    block_has_count(s, l1, 3);
    if let Ok((_, n1)) = leb_block(s, l1, 3) {
        block_has_count(s.skip(n1), (l1 * 22528) as nat, 3);
        if let Ok((_, n2)) = leb_block(s.skip(n1), (l1 * 22528) as nat, 3) {
            block_has_count(s.skip(n1 + n2), 8 * 22528, 5);
        }
    }
}

proof fn lemma_v10_length(s: Seq<u8>, l1: nat)
    ensures
        v10_network(s, l1) matches Ok((_, len)) ==> 0 <= len <= s.len(),
{
    reveal(v10_network);
    block_has_count(s, l1, 3);
    if let Ok((_, n1)) = leb_block(s, l1, 3) {
        let p1 = n1 + THREAT_DIMENSIONS * l1;
        assert(THREAT_DIMENSIONS * l1 >= 0) by (nonlinear_arith);
        block_has_count(s.skip(p1), (l1 * 22528) as nat, 3);
        if let Ok((_, n2)) = leb_block(s.skip(p1), (l1 * 22528) as nat, 3) {
            block_has_count(s.skip(p1 + n2), ((THREAT_DIMENSIONS + 22528) * 8) as nat, 5);
        }
    }
}

/// Numbers that lie within `s` do not depend on what follows.
proof fn lemma_numbers_extended(s: Seq<u8>, t: Seq<u8>, p: int, n: nat)
    requires
        0 <= p,
    ensures
        p + n <= s.len() ==> i8s(s + t, p, n) == i8s(s, p, n),
        p + 2 * n <= s.len() ==> i16s(s + t, p, n) == i16s(s, p, n),
        p + 4 * n <= s.len() ==> i32s(s + t, p, n) == i32s(s, p, n),
        p + 4 <= s.len() ==> le_i32(s + t, p) == le_i32(s, p),
        p + 4 <= s.len() ==> le_u32(s + t, p) == le_u32(s, p),
{
    if p + n <= s.len() {
        assert(i8s(s + t, p, n) =~= i8s(s, p, n));
    }
    if p + 2 * n <= s.len() {
        assert(i16s(s + t, p, n) =~= i16s(s, p, n));
    }
    if p + 4 * n <= s.len() {
        assert(i32s(s + t, p, n) =~= i32s(s, p, n));
    }
}

proof fn lemma_bucket_extended(
    s: Seq<u8>,
    t: Seq<u8>,
    p: int,
    fc0_out: nat,
    fc0_in: nat,
    fc1_out: nat,
)
    requires
        0 <= p,
        p + bucket_len(fc0_out, fc0_in, fc1_out) <= s.len(),
    ensures
        bucket_at(s + t, p, fc0_out, fc0_in, fc1_out) == bucket_at(
            s,
            p,
            fc0_out,
            fc0_in,
            fc1_out,
        ),
{
    let p1 = p + 4 * fc0_out;
    let p2 = p1 + fc0_out * fc0_in;
    let p3 = p2 + 4 * fc1_out;
    let p4 = p3 + fc1_out * 32;
    lemma_numbers_extended(s, t, p, fc0_out);
    lemma_numbers_extended(s, t, p1, fc0_out * fc0_in);
    lemma_numbers_extended(s, t, p2, fc1_out);
    lemma_numbers_extended(s, t, p3, fc1_out * 32);
    lemma_numbers_extended(s, t, p4, 0);
    lemma_numbers_extended(s, t, p4 + 4, fc1_out);
}

proof fn lemma_stacks_extended(s: Seq<u8>, t: Seq<u8>, p: int, fc0_in: nat)
    requires
        0 <= p,
        p + stacks_len(fc0_in) <= s.len(),
    ensures
        stacks_at(s + t, p, fc0_in) == stacks_at(s, p, fc0_in),
{
    let size = 4int + bucket_len(16, fc0_in, 32);
    assert forall|i: int| 0 <= i < 8 implies #[trigger] stacks_at(s + t, p, fc0_in)[i]
        == stacks_at(s, p, fc0_in)[i] by {
        assert(0 <= i * size && i * size + size <= 8 * size) by (nonlinear_arith)
            requires
                0 <= i < 8,
                size >= 0,
        ;
        lemma_bucket_extended(s, t, p + i * size + 4, 16, fc0_in, 32);
    }
    assert(stacks_at(s + t, p, fc0_in) =~= stacks_at(s, p, fc0_in));
}

proof fn lemma_hm_extended(s: Seq<u8>, t: Seq<u8>, l1: nat)
    requires
        hm_network(s, l1) is Ok,
    ensures
        hm_network(s + t, l1) == hm_network(s, l1),
{
    reveal(hm_network);
    let (_, n1) = leb_block(s, l1, 3)->Ok_0;
    block_has_count(s, l1, 3);
    block_ignores_rest(s, t, l1, 3);
    let s1 = s.skip(n1);
    assert((s + t).skip(n1) =~= s1 + t);
    let (_, n2) = leb_block(s1, (l1 * 22528) as nat, 3)->Ok_0;
    block_has_count(s1, (l1 * 22528) as nat, 3);
    block_ignores_rest(s1, t, (l1 * 22528) as nat, 3);
    let s2 = s.skip(n1 + n2);
    assert((s + t).skip(n1 + n2) =~= s2 + t);
    let (_, n3) = leb_block(s2, 8 * 22528, 5)->Ok_0;
    block_has_count(s2, 8 * 22528, 5);
    block_ignores_rest(s2, t, 8 * 22528, 5);
    lemma_stacks_extended(s, t, n1 + n2 + n3, l1);
}

proof fn lemma_v10_extended(s: Seq<u8>, t: Seq<u8>, l1: nat)
    requires
        v10_network(s, l1) is Ok,
    ensures
        v10_network(s + t, l1) == v10_network(s, l1),
{
    reveal(v10_network);
    let (_, n1) = leb_block(s, l1, 3)->Ok_0;
    block_has_count(s, l1, 3);
    block_ignores_rest(s, t, l1, 3);
    let p1 = n1 + THREAT_DIMENSIONS * l1;
    assert(THREAT_DIMENSIONS * l1 >= 0) by (nonlinear_arith);
    lemma_numbers_extended(s, t, n1, (THREAT_DIMENSIONS * l1) as nat);
    let s1 = s.skip(p1);
    assert((s + t).skip(p1) =~= s1 + t);
    let (_, n2) = leb_block(s1, (l1 * 22528) as nat, 3)->Ok_0;
    block_has_count(s1, (l1 * 22528) as nat, 3);
    block_ignores_rest(s1, t, (l1 * 22528) as nat, 3);
    let s2 = s.skip(p1 + n2);
    assert((s + t).skip(p1 + n2) =~= s2 + t);
    let count = ((THREAT_DIMENSIONS + 22528) * 8) as nat;
    let (_, n3) = leb_block(s2, count, 5)->Ok_0;
    block_has_count(s2, count, 5);
    block_ignores_rest(s2, t, count, 5);
    lemma_stacks_extended(s, t, p1 + n2 + n3, l1);
}

proof fn lemma_v2_extended(s: Seq<u8>, t: Seq<u8>, l1: nat)
    requires
        v2_len(l1) <= s.len(),
    ensures
        v2_network(s + t, l1) == v2_network(s, l1),
{
    let p1 = 2 * l1;
    let p2 = p1 + 2 * (l1 * 45056);
    let p3 = p2 + 4 * (8 * 45056);
    lemma_numbers_extended(s, t, 0, l1);
    lemma_numbers_extended(s, t, p1 as int, (l1 * 45056) as nat);
    lemma_numbers_extended(s, t, p2 as int, 8 * 45056);
    lemma_stacks_extended(s, t, p3 as int, 2 * l1);
}

proof fn lemma_kp_extended(s: Seq<u8>, t: Seq<u8>)
    requires
        kp_len() <= s.len(),
    ensures
        kp_network(s + t) == kp_network(s),
{
    let p1: int = 4int + 2 * 256;
    let p2: int = p1 + 2 * (256 * 41024) + 4;
    lemma_numbers_extended(s, t, 4, 256);
    lemma_numbers_extended(s, t, p1, 256 * 41024);
    lemma_bucket_extended(s, t, p2, 32, 512, 32);
}

proof fn lemma_halfka_extended(s: Seq<u8>, t: Seq<u8>)
    requires
        halfka_network(s) is Ok,
    ensures
        halfka_network(s + t) == halfka_network(s),
{
    lemma_numbers_extended(s, t, 0, 0);
    let body = s.skip(4);
    assert((s + t).skip(4) =~= body + t);
    match detected(le_u32(s, 0)) {
        None => {},
        Some((Arch::Sfnnv10, l1)) => lemma_v10_extended(body, t, l1),
        Some((Arch::HalfKAv2Hm, l1)) => lemma_hm_extended(body, t, l1),
        Some((_, l1)) => lemma_v2_extended(body, t, l1),
    }
}

proof fn lemma_body_extended(version: u32, s: Seq<u8>, t: Seq<u8>)
    requires
        body_network(version, s) is Ok,
    ensures
        body_network(version, s + t) == body_network(version, s),
{
    if version == VERSION_HALFKA {
        lemma_halfka_extended(s, t);
    } else {
        lemma_kp_extended(s, t);
    }
}

/// What follows a network file does not matter: the network that is loaded, and
/// where loading stops, stay the same.
pub proof fn trailing_bytes_are_ignored(s: Seq<u8>, t: Seq<u8>)
    requires
        network_file(s) is Ok,
    ensures
        network_file(s + t) == network_file(s),
{
    lemma_numbers_extended(s, t, 0, 0);
    lemma_numbers_extended(s, t, 8, 0);
    let header = 12 + le_u32(s, 8);
    assert((s + t).skip(header) =~= s.skip(header) + t);
    lemma_body_extended(le_u32(s, 0), s.skip(header), t);
}

proof fn lemma_hm_cut(s: Seq<u8>, n: int, l1: nat)
    requires
        hm_network(s, l1) is Ok,
        0 <= n < hm_network(s, l1)->Ok_0.1,
    ensures
        hm_network(s.take(n), l1) == Err::<(NetworkModel, int), _>(Fault::UnexpectedEof),
{
    lemma_hm_length(s, l1);
    reveal(hm_network);
    let (_, n1) = leb_block(s, l1, 3)->Ok_0;
    block_has_count(s, l1, 3);
    cut_block_is_refused(s, n, l1, 3);
    if n >= n1 {
        let s1 = s.skip(n1);
        let (_, n2) = leb_block(s1, (l1 * 22528) as nat, 3)->Ok_0;
        assert(s.take(n).skip(n1) =~= s1.take(n - n1));
        block_has_count(s1, (l1 * 22528) as nat, 3);
        cut_block_is_refused(s1, n - n1, (l1 * 22528) as nat, 3);
        if n >= n1 + n2 {
            let s2 = s.skip(n1 + n2);
            assert(s.take(n).skip(n1 + n2) =~= s2.take(n - n1 - n2));
            block_has_count(s2, 8 * 22528, 5);
            cut_block_is_refused(s2, n - n1 - n2, 8 * 22528, 5);
        }
    }
}

proof fn lemma_v10_cut(s: Seq<u8>, n: int, l1: nat)
    requires
        v10_network(s, l1) is Ok,
        0 <= n < v10_network(s, l1)->Ok_0.1,
    ensures
        v10_network(s.take(n), l1) == Err::<(NetworkModel, int), _>(Fault::UnexpectedEof),
{
    lemma_v10_length(s, l1);
    reveal(v10_network);
    let (_, n1) = leb_block(s, l1, 3)->Ok_0;
    block_has_count(s, l1, 3);
    cut_block_is_refused(s, n, l1, 3);
    assert(THREAT_DIMENSIONS * l1 >= 0) by (nonlinear_arith);
    let p1 = n1 + THREAT_DIMENSIONS * l1;
    if n >= p1 {
        let s1 = s.skip(p1);
        let (_, n2) = leb_block(s1, (l1 * 22528) as nat, 3)->Ok_0;
        assert(s.take(n).skip(p1) =~= s1.take(n - p1));
        block_has_count(s1, (l1 * 22528) as nat, 3);
        cut_block_is_refused(s1, n - p1, (l1 * 22528) as nat, 3);
        if n >= p1 + n2 {
            let s2 = s.skip(p1 + n2);
            let count = ((THREAT_DIMENSIONS + 22528) * 8) as nat;
            assert(s.take(n).skip(p1 + n2) =~= s2.take(n - p1 - n2));
            block_has_count(s2, count, 5);
            cut_block_is_refused(s2, n - p1 - n2, count, 5);
        }
    }
}

proof fn lemma_halfka_cut(s: Seq<u8>, n: int)
    requires
        halfka_network(s) is Ok,
        0 <= n < halfka_network(s)->Ok_0.1,
    ensures
        halfka_network(s.take(n)) == Err::<(NetworkModel, int), _>(Fault::UnexpectedEof),
{
    network_has_length(s);
    if n >= 4 {
        let body = s.skip(4);
        assert(le_u32(s.take(n), 0) == le_u32(s, 0));
        assert(s.take(n).skip(4) =~= body.take(n - 4));
        match detected(le_u32(s, 0)) {
            None => {},
            Some((Arch::Sfnnv10, l1)) => lemma_v10_cut(body, n - 4, l1),
            Some((Arch::HalfKAv2Hm, l1)) => lemma_hm_cut(body, n - 4, l1),
            Some((_, l1)) => {},
        }
    }
}

/// A network file that is cut short anywhere is refused, and for that reason.
pub proof fn cut_file_is_refused(s: Seq<u8>, n: int)
    requires
        network_file(s) is Ok,
        0 <= n < network_file(s)->Ok_0.1,
    ensures
        network_file(s.take(n)) == Err::<(NetworkModel, int), _>(Fault::UnexpectedEof),
{
    let version = le_u32(s, 0);
    let header = 12 + le_u32(s, 8);
    let body = s.skip(header);
    network_has_length(body);
    if n >= 12 {
        assert(le_u32(s.take(n), 0) == version);
        assert(le_u32(s.take(n), 8) == le_u32(s, 8));
        if n >= header {
            assert(s.take(n).skip(header) =~= body.take(n - header));
            if version == VERSION_HALFKA {
                lemma_halfka_cut(body, n - header);
            }
        }
    }
}

/// Where the block at place `p` ends, as far as `s` tells.
pub open spec fn block_end(s: Seq<u8>, p: int) -> int {
    if s.len() < p + 21 {
        p + 21
    } else {
        p + 21 + le_u32(s, p + 17)
    }
}

/// Where the mirrored network at place `p` ends, as far as `s` tells.
pub open spec fn hm_end(s: Seq<u8>, p: int, l1: nat) -> int {
    let e1 = block_end(s, p);
    let e2 = block_end(s, e1);
    let e3 = block_end(s, e2);
    if s.len() < e1 {
        e1
    } else if s.len() < e2 {
        e2
    } else if s.len() < e3 {
        e3
    } else {
        e3 + stacks_len(l1)
    }
}

/// Where the network with attack features at place `p` ends, as far as `s` tells.
pub open spec fn v10_end(s: Seq<u8>, p: int, l1: nat) -> int {
    let e1 = block_end(s, p);
    let t = e1 + THREAT_DIMENSIONS * l1;
    let e2 = block_end(s, t);
    let e3 = block_end(s, e2);
    if s.len() < e1 {
        e1
    } else if s.len() < t {
        t
    } else if s.len() < e2 {
        e2
    } else if s.len() < e3 {
        e3
    } else {
        e3 + stacks_len(l1)
    }
}

/// Where the network file ends, as far as the bytes `s` at its front tell.
pub open spec fn file_end(s: Seq<u8>) -> int {
    let p = 12 + le_u32(s, 8);
    if s.len() < 12 {
        12
    } else if s.len() < p {
        p
    } else if le_u32(s, 0) == VERSION_HALFKP {
        p + kp_len()
    } else if le_u32(s, 0) != VERSION_HALFKA {
        p
    } else if s.len() < p + 4 {
        p + 4
    } else {
        match detected(le_u32(s, p)) {
            None => p + 4,
            Some((Arch::Sfnnv10, l1)) => v10_end(s, p + 4, l1),
            Some((Arch::HalfKAv2Hm, l1)) => hm_end(s, p + 4, l1),
            Some((_, l1)) => p + 4 + v2_len(l1),
        }
    }
}

/// A block that can be read ends where its front says.
proof fn lemma_block_end(s: Seq<u8>, p: int, n: nat, max: nat)
    requires
        0 <= p <= s.len(),
    ensures
        leb_block(s.skip(p), n, max) matches Ok((_, len)) ==> p + len == block_end(s, p) && p + len
            <= s.len(),
        s.len() >= block_end(s, p) ==> leb_block(s.skip(p), n, max) != Err::<(Seq<int>, int), _>(
            Fault::UnexpectedEof,
        ),
{
    reveal(leb_block);
}

/// More bytes do not change where a block ends.
proof fn lemma_block_end_extended(s: Seq<u8>, t: Seq<u8>, p: int)
    requires
        0 <= p,
    ensures
        s.len() >= p + 21 ==> block_end(s + t, p) == block_end(s, p),
        block_end(s, p) <= block_end(s + t, p),
        block_end(s, p) >= p + 21,
{
}

proof fn lemma_hm_end(s: Seq<u8>, t: Seq<u8>, p: int, l1: nat)
    requires
        0 <= p <= s.len(),
    ensures
        hm_network((s + t).skip(p), l1) matches Ok((_, len)) ==> hm_end(s, p, l1) <= p + len,
{
    let (e1, e2) = (block_end(s, p), block_end(s, block_end(s, p)));
    lemma_hm_reads(s + t, p, l1);
    lemma_block_end_extended(s, t, p);
    lemma_block_end_extended(s, t, e1);
    lemma_block_end_extended(s, t, e2);
}

/// How the length of a mirrored network comes about.
proof fn lemma_hm_reads(s: Seq<u8>, p: int, l1: nat)
    requires
        0 <= p <= s.len(),
    ensures
        hm_network(s.skip(p), l1) matches Ok((_, len)) ==> {
            let e1 = block_end(s, p);
            let e2 = block_end(s, e1);
            let e3 = block_end(s, e2);
            p + len == e3 + stacks_len(l1) && e1 <= e2 <= e3 <= s.len() && p + len <= s.len()
        },
        s.len() >= hm_end(s, p, l1) ==> hm_network(s.skip(p), l1) != Err::<(NetworkModel, int), _>(
            Fault::UnexpectedEof,
        ),
{
    reveal(hm_network);
    lemma_block_end(s, p, l1, 3);
    if let Ok((_, n1)) = leb_block(s.skip(p), l1, 3) {
        let e1 = p + n1;
        assert(s.skip(p).skip(n1) =~= s.skip(e1));
        lemma_block_end(s, e1, (l1 * 22528) as nat, 3);
        if let Ok((_, n2)) = leb_block(s.skip(e1), (l1 * 22528) as nat, 3) {
            let e2 = e1 + n2;
            assert(s.skip(p).skip(n1 + n2) =~= s.skip(e2));
            lemma_block_end(s, e2, 8 * 22528, 5);
        }
    }
}

/// How the length of a network with attack features comes about.
proof fn lemma_v10_reads(s: Seq<u8>, p: int, l1: nat)
    requires
        0 <= p <= s.len(),
    ensures
        v10_network(s.skip(p), l1) matches Ok((_, len)) ==> {
            let e1 = block_end(s, p);
            let q = e1 + THREAT_DIMENSIONS * l1;
            let e2 = block_end(s, q);
            let e3 = block_end(s, e2);
            p + len == e3 + stacks_len(l1) && e1 <= q <= e2 <= e3 <= s.len() && p + len <= s.len()
        },
        s.len() >= v10_end(s, p, l1) ==> v10_network(s.skip(p), l1) != Err::<
            (NetworkModel, int),
            _,
        >(Fault::UnexpectedEof),
{
    reveal(v10_network);
    assert(THREAT_DIMENSIONS * l1 >= 0) by (nonlinear_arith);
    lemma_block_end(s, p, l1, 3);
    if let Ok((_, n1)) = leb_block(s.skip(p), l1, 3) {
        let q = p + n1 + THREAT_DIMENSIONS * l1;
        if q <= s.len() {
            assert(s.skip(p).skip(n1 + THREAT_DIMENSIONS * l1) =~= s.skip(q));
            lemma_block_end(s, q, (l1 * 22528) as nat, 3);
            if let Ok((_, n2)) = leb_block(s.skip(q), (l1 * 22528) as nat, 3) {
                let e2 = q + n2;
                assert(s.skip(p).skip(n1 + THREAT_DIMENSIONS * l1 + n2) =~= s.skip(e2));
                lemma_block_end(s, e2, ((THREAT_DIMENSIONS + 22528) * 8) as nat, 5);
            }
        }
    }
}

proof fn lemma_v10_end(s: Seq<u8>, t: Seq<u8>, p: int, l1: nat)
    requires
        0 <= p <= s.len(),
    ensures
        v10_network((s + t).skip(p), l1) matches Ok((_, len)) ==> v10_end(s, p, l1) <= p + len,
{
    assert(THREAT_DIMENSIONS * l1 >= 0) by (nonlinear_arith);
    let e1 = block_end(s, p);
    let q = e1 + THREAT_DIMENSIONS * l1;
    let e2 = block_end(s, q);
    lemma_v10_reads(s + t, p, l1);
    lemma_block_end_extended(s, t, p);
    lemma_block_end_extended(s, t, q);
    lemma_block_end_extended(s, t, e2);
}

proof fn lemma_halfka_end(s: Seq<u8>, t: Seq<u8>, p: int)
    requires
        0 <= p,
        p + 4 <= s.len(),
    ensures
        ({
            let end = match detected(le_u32(s, p)) {
                None => p + 4,
                Some((Arch::Sfnnv10, l1)) => v10_end(s, p + 4, l1),
                Some((Arch::HalfKAv2Hm, l1)) => hm_end(s, p + 4, l1),
                Some((_, l1)) => p + 4 + v2_len(l1),
            };
            &&& halfka_network((s + t).skip(p)) matches Ok((_, len)) ==> end <= p + len
            &&& s.len() >= end ==> halfka_network(s.skip(p)) != Err::<(NetworkModel, int), _>(
                Fault::UnexpectedEof,
            )
        }),
{
    assert(s.skip(p).skip(4) =~= s.skip(p + 4));
    assert((s + t).skip(p).skip(4) =~= (s + t).skip(p + 4));
    lemma_numbers_extended(s, t, p, 0);
    assert(le_u32((s + t).skip(p), 0) == le_u32(s, p));
    assert(le_u32(s.skip(p), 0) == le_u32(s, p));
    if let Some((_, l1)) = detected(le_u32(s, p)) {
        lemma_v10_end(s, t, p + 4, l1);
        lemma_v10_reads(s, p + 4, l1);
        lemma_hm_end(s, t, p + 4, l1);
        lemma_hm_reads(s, p + 4, l1);
    }
}

/// A file never ends before the place that its first bytes tell: reading up to
/// there does not read past the file.
pub proof fn file_end_is_within(s: Seq<u8>, t: Seq<u8>)
    requires
        network_file(s + t) is Ok,
    ensures
        file_end(s) <= network_file(s + t)->Ok_0.1,
{
    let p = 12 + le_u32(s, 8);
    lemma_numbers_extended(s, t, 0, 0);
    lemma_numbers_extended(s, t, 8, 0);
    let len = network_file(s + t)->Ok_0.1;
    network_has_length((s + t).skip(12 + le_u32(s + t, 8)));
    assert(12 + le_u32(s + t, 8) + 4 <= len);
    if s.len() >= p + 4 && s.len() >= 12 {
        lemma_halfka_end(s, t, p);
    }
}

/// Bytes that reach up to the place where they say the file ends are enough:
/// the file is loaded or refused, but not for being too short.
pub proof fn file_end_is_enough(s: Seq<u8>)
    requires
        file_end(s) <= s.len(),
    ensures
        network_file(s) != Err::<(NetworkModel, int), _>(Fault::UnexpectedEof),
{
    let p = 12 + le_u32(s, 8);
    if le_u32(s, 0) == VERSION_HALFKA {
        lemma_halfka_end(s, Seq::empty(), p);
    }
}

} // verus!
