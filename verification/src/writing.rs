//! Writing networks down: what a file holds is what is loaded.

use crate::arith::{wrap16, wrap32};
use crate::error::Fault;
use crate::feature::Arch;
use crate::format::{
    bucket_at, bucket_len, detected, every_width_is_detected, halfka_network, hm_network,
    network_file, stacks_at, stacks_len, v10_network,
};
use crate::leb128::{
    leb_block, leb_bytes, leb_data, leb_len, leb_value, leb_values, number_is_read_back, number_len,
    numbers_are_read_back, MAGIC,
};
use crate::model::{BucketModel, NetworkModel};
use crate::reader::{i16s, i32s, i8s, le_i16, le_i32, le_u32};
use vstd::prelude::*;

verus! {

/// Whether `t` stands at place `p` of `s`.
pub open spec fn holds(s: Seq<u8>, p: int, t: Seq<u8>) -> bool {
    &&& 0 <= p
    &&& p + t.len() <= s.len()
    &&& forall|i: int| 0 <= i < t.len() ==> #[trigger] t[i] == s[p + i]
}

/// Byte `k` of a number, lowest first.
pub open spec fn byte_of(x: int, k: int) -> u8 {
    if k == 0 {
        (x % 256) as u8
    } else if k == 1 {
        (x / 256 % 256) as u8
    } else if k == 2 {
        (x / 65536 % 256) as u8
    } else {
        (x / 16777216 % 256) as u8
    }
}

/// The four bytes of an unsigned number.
pub open spec fn u32_text(x: u32) -> Seq<u8> {
    Seq::new(4, |k: int| byte_of(x as int, k))
}

/// The bytes of signed 32-bit numbers, four each, in two's complement.
pub open spec fn i32_text(values: Seq<i32>) -> Seq<u8> {
    Seq::new(4 * values.len(), |i: int| byte_of(values[i / 4] as int, i % 4))
}

/// The bytes of signed 16-bit numbers, two each, in two's complement.
pub open spec fn i16_text(values: Seq<i16>) -> Seq<u8> {
    Seq::new(2 * values.len(), |i: int| byte_of(values[i / 2] as int, i % 2))
}

/// The bytes of signed 8-bit numbers, in two's complement.
pub open spec fn i8_text(values: Seq<i8>) -> Seq<u8> {
    Seq::new(values.len(), |i: int| byte_of(values[i] as int, 0))
}

proof fn lemma_holds_split(s: Seq<u8>, p: int, a: Seq<u8>, b: Seq<u8>)
    requires
        holds(s, p, a + b),
    ensures
        holds(s, p, a),
        holds(s, p + a.len(), b),
{
    let t = a + b;
    assert forall|i: int| 0 <= i < a.len() implies #[trigger] a[i] == s[p + i] by {
        assert(t[i] == s[p + i]);
    }
    assert forall|i: int| 0 <= i < b.len() implies #[trigger] b[i] == s[p + a.len() + i] by {
        assert(t[a.len() + i] == s[p + (a.len() + i)]);
    }
}

proof fn lemma_holds_skipped(s: Seq<u8>, k: int, p: int, t: Seq<u8>)
    requires
        0 <= k <= p,
        holds(s, p, t),
    ensures
        holds(s.skip(k), p - k, t),
{
    assert forall|i: int| 0 <= i < t.len() implies #[trigger] t[i] == s.skip(k)[p - k + i] by {
        assert(t[i] == s[p + i]);
    }
}

proof fn lemma_bytes32(x: int)
    requires
        0 <= x < 0x1_0000_0000,
    ensures
        x % 256 + 0x100 * (x / 256 % 256) + 0x1_0000 * (x / 65536 % 256) + 0x100_0000 * (x
            / 16777216 % 256) == x,
{
}

/// An unsigned number is read as it is written.
pub proof fn unsigned_is_read_back(s: Seq<u8>, p: int, x: u32)
    requires
        holds(s, p, u32_text(x)),
    ensures
        le_u32(s, p) == x,
{
    let t = u32_text(x);
    assert(t[0] == s[p] && t[1] == s[p + 1] && t[2] == s[p + 2] && t[3] == s[p + 3]);
    lemma_bytes32(x as int);
}

proof fn lemma_signed_bytes32(v: int)
    requires
        -0x8000_0000 <= v < 0,
    ensures
        ({
            let x = v + 0x1_0000_0000;
            &&& v % 256 == x % 256
            &&& v / 256 % 256 == x / 256 % 256
            &&& v / 65536 % 256 == x / 65536 % 256
            &&& v / 16777216 % 256 == x / 16777216 % 256
        }),
{
}

/// Signed 32-bit numbers are read as they are written.
pub proof fn wide_numbers_are_read_back(s: Seq<u8>, p: int, values: Seq<i32>)
    requires
        holds(s, p, i32_text(values)),
    ensures
        i32s(s, p, values.len()) == values,
{
    let t = i32_text(values);
    assert forall|k: int| 0 <= k < values.len() implies le_i32(s, p + 4 * k)
        == #[trigger] values[k] by {
        let v = values[k] as int;
        assert((4 * k) / 4 == k && (4 * k) % 4 == 0);
        assert((4 * k + 1) / 4 == k && (4 * k + 1) % 4 == 1);
        assert((4 * k + 2) / 4 == k && (4 * k + 2) % 4 == 2);
        assert((4 * k + 3) / 4 == k && (4 * k + 3) % 4 == 3);
        assert(t[4 * k] == s[p + 4 * k] && t[4 * k + 1] == s[p + (4 * k + 1)] && t[4 * k + 2] == s[p
            + (4 * k + 2)] && t[4 * k + 3] == s[p + (4 * k + 3)]);
        let x = if v >= 0 {
            v
        } else {
            v + 0x1_0000_0000
        };
        if v < 0 {
            lemma_signed_bytes32(v);
        }
        lemma_bytes32(x);
        assert(le_u32(s, p + 4 * k) == x);
    }
    assert(i32s(s, p, values.len()) =~= values);
}

/// Signed 16-bit numbers are read as they are written.
pub proof fn short_numbers_are_read_back(s: Seq<u8>, p: int, values: Seq<i16>)
    requires
        holds(s, p, i16_text(values)),
    ensures
        i16s(s, p, values.len()) == values,
{
    let t = i16_text(values);
    assert forall|k: int| 0 <= k < values.len() implies le_i16(s, p + 2 * k)
        == #[trigger] values[k] by {
        let v = values[k] as int;
        assert((2 * k) / 2 == k && (2 * k) % 2 == 0);
        assert((2 * k + 1) / 2 == k && (2 * k + 1) % 2 == 1);
        assert(t[2 * k] == s[p + 2 * k] && t[2 * k + 1] == s[p + (2 * k + 1)]);
        let x = if v >= 0 {
            v
        } else {
            v + 0x1_0000
        };
        assert(v % 256 == x % 256 && v / 256 % 256 == x / 256 % 256);
        assert(x % 256 + 256 * (x / 256 % 256) == x);
    }
    assert(i16s(s, p, values.len()) =~= values);
}

/// Signed 8-bit numbers are read as they are written.
pub proof fn bytes_are_read_back(s: Seq<u8>, p: int, values: Seq<i8>)
    requires
        holds(s, p, i8_text(values)),
    ensures
        i8s(s, p, values.len()) == values,
{
    let t = i8_text(values);
    assert forall|k: int| 0 <= k < values.len() implies i8s(s, p, values.len())[k]
        == #[trigger] values[k] by {
        assert(t[k] == s[p + k]);
    }
    assert(i8s(s, p, values.len()) =~= values);
}

/// A stack of dense layers in a file: biases and weights layer by layer.
pub open spec fn stack_text(b: BucketModel) -> Seq<u8> {
    i32_text(b.fc0_bias) + (i8_text(b.fc0_weight) + (i32_text(b.fc1_bias) + (i8_text(b.fc1_weight)
        + (i32_text(seq![b.fc2_bias]) + i8_text(b.fc2_weight)))))
}

/// A stack is read as it is written.
pub proof fn stack_is_read_back(
    s: Seq<u8>,
    p: int,
    b: BucketModel,
    fc0_out: nat,
    fc0_in: nat,
    fc1_out: nat,
)
    requires
        b.shaped(fc0_out as int, fc0_in as int, fc1_out as int),
        holds(s, p, stack_text(b)),
    ensures
        stack_text(b).len() == bucket_len(fc0_out, fc0_in, fc1_out),
        bucket_at(s, p, fc0_out, fc0_in, fc1_out) == b,
{
    let t5 = i32_text(seq![b.fc2_bias]) + i8_text(b.fc2_weight);
    let t4 = i8_text(b.fc1_weight) + t5;
    let t3 = i32_text(b.fc1_bias) + t4;
    let t2 = i8_text(b.fc0_weight) + t3;
    let p1 = p + 4 * fc0_out;
    let p2 = p1 + fc0_out * fc0_in;
    let p3 = p2 + 4 * fc1_out;
    let p4 = p3 + fc1_out * 32;
    lemma_holds_split(s, p, i32_text(b.fc0_bias), t2);
    lemma_holds_split(s, p1, i8_text(b.fc0_weight), t3);
    lemma_holds_split(s, p2, i32_text(b.fc1_bias), t4);
    lemma_holds_split(s, p3, i8_text(b.fc1_weight), t5);
    lemma_holds_split(s, p4, i32_text(seq![b.fc2_bias]), i8_text(b.fc2_weight));
    wide_numbers_are_read_back(s, p, b.fc0_bias);
    bytes_are_read_back(s, p1, b.fc0_weight);
    wide_numbers_are_read_back(s, p2, b.fc1_bias);
    bytes_are_read_back(s, p3, b.fc1_weight);
    wide_numbers_are_read_back(s, p4, seq![b.fc2_bias]);
    bytes_are_read_back(s, p4 + 4, b.fc2_weight);
    assert(i32s(s, p4, 1)[0] == le_i32(s, p4));
    assert(seq![b.fc2_bias][0] == b.fc2_bias);
}

/// The first `n` stacks in a file, each of them after a hash.
pub open spec fn stacks_text(
    stacks: Seq<BucketModel>,
    hashes: spec_fn(int) -> u32,
    n: nat,
) -> Seq<u8>
    decreases n,
{
    if n == 0 {
        Seq::empty()
    } else {
        stacks_text(stacks, hashes, (n - 1) as nat) + (u32_text(hashes(n - 1)) + stack_text(
            stacks[n - 1],
        ))
    }
}

proof fn lemma_stacks_text(
    s: Seq<u8>,
    p: int,
    stacks: Seq<BucketModel>,
    hashes: spec_fn(int) -> u32,
    fc0_in: nat,
    n: nat,
)
    requires
        n <= stacks.len(),
        n <= 8,
        forall|k: int| 0 <= k < n ==> (#[trigger] stacks[k]).shaped(16, fc0_in as int, 32),
        holds(s, p, stacks_text(stacks, hashes, n)),
    ensures
        stacks_text(stacks, hashes, n).len() == n * (4 + bucket_len(16, fc0_in, 32)),
        forall|k: int| 0 <= k < n ==> #[trigger] stacks_at(s, p, fc0_in)[k] == stacks[k],
    decreases n,
{
    let size = 4int + bucket_len(16, fc0_in, 32);
    if n == 0 {
        assert(0 * size == 0);
    } else {
        let before = stacks_text(stacks, hashes, (n - 1) as nat);
        let last = u32_text(hashes(n - 1)) + stack_text(stacks[n - 1]);
        lemma_holds_split(s, p, before, last);
        lemma_stacks_text(s, p, stacks, hashes, fc0_in, (n - 1) as nat);
        let q = p + (n - 1) * size;
        assert(before.len() == (n - 1) * size);
        lemma_holds_split(s, q, u32_text(hashes(n - 1)), stack_text(stacks[n - 1]));
        stack_is_read_back(s, q + 4, stacks[n - 1], 16, fc0_in, 32);
        assert(n * size == (n - 1) * size + size) by (nonlinear_arith);
        assert(stacks_at(s, p, fc0_in)[n - 1] == bucket_at(s, q + 4, 16, fc0_in, 32));
    }
}

/// Eight stacks are read as they are written.
pub proof fn stacks_are_read_back(
    s: Seq<u8>,
    p: int,
    stacks: Seq<BucketModel>,
    hashes: spec_fn(int) -> u32,
    fc0_in: nat,
)
    requires
        stacks.len() == 8,
        forall|k: int| 0 <= k < 8 ==> (#[trigger] stacks[k]).shaped(16, fc0_in as int, 32),
        holds(s, p, stacks_text(stacks, hashes, 8)),
    ensures
        stacks_text(stacks, hashes, 8).len() == stacks_len(fc0_in),
        stacks_at(s, p, fc0_in) == stacks,
{
    lemma_stacks_text(s, p, stacks, hashes, fc0_in, 8);
    assert(stacks_at(s, p, fc0_in) =~= stacks);
}

/// The text `COMPRESSED_LEB128`.
pub open spec fn leb_opening() -> Seq<u8> {
    seq![67u8, 79, 77, 80, 82, 69, 83, 83, 69, 68, 95, 76, 69, 66, 49, 50, 56]
}

/// A block of numbers: the opening text, the number of bytes, and the bytes.
pub open spec fn block_text(values: Seq<int>) -> Seq<u8> {
    leb_opening() + (u32_text(leb_data(values).len() as u32) + leb_data(values))
}

proof fn lemma_data_len(values: Seq<int>, max: nat)
    requires
        forall|i: int| 0 <= i < values.len() ==> leb_bytes(#[trigger] values[i]).len() <= max,
    ensures
        leb_data(values).len() <= max * values.len(),
    decreases values.len(),
{
    let n = values.len() as int;
    if n == 0 {
        assert(max * n == 0) by (nonlinear_arith)
            requires
                n == 0,
        ;
    } else {
        let rest = values.skip(1);
        assert forall|i: int| 0 <= i < rest.len() implies leb_bytes(#[trigger] rest[i]).len()
            <= max by {
            assert(rest[i] == values[i + 1]);
        }
        lemma_data_len(rest, max);
        assert(leb_bytes(values[0]).len() <= max);
        assert(max * n == max * (n - 1) + max) by (nonlinear_arith);
    }
}

proof fn lemma_block_parts(r: Seq<u8>, values: Seq<int>)
    requires
        leb_data(values).len() <= u32::MAX,
        holds(r, 0, block_text(values)),
    ensures
        r.len() >= 21 + leb_data(values).len(),
        r.take(17) == MAGIC@,
        le_u32(r, 17) == leb_data(values).len(),
        r.subrange(21, 21 + leb_data(values).len() as int) == leb_data(values),
{
    let data = leb_data(values);
    lemma_holds_split(r, 0, leb_opening(), u32_text(data.len() as u32) + data);
    lemma_holds_split(r, 17, u32_text(data.len() as u32), data);
    unsigned_is_read_back(r, 17, data.len() as u32);
    assert(r.take(17) =~= MAGIC@) by {
        assert forall|i: int| 0 <= i < 17 implies r.take(17)[i] == MAGIC@[i] by {
            assert(leb_opening()[i] == r[0 + i]);
        }
    }
    assert(r.subrange(21, 21 + data.len() as int) =~= data) by {
        assert forall|i: int| 0 <= i < data.len() implies r.subrange(21, 21 + data.len() as int)[i]
            == data[i] by {
            assert(data[i] == r[21 + i]);
        }
    }
}

/// A block is read as it is written, if no number takes more bytes than allowed.
pub proof fn block_is_read_back(s: Seq<u8>, p: int, values: Seq<int>, max: nat)
    requires
        max <= 5,
        values.len() <= 0x2000_0000,
        forall|i: int| 0 <= i < values.len() ==> leb_bytes(#[trigger] values[i]).len() <= max,
        holds(s, p, block_text(values)),
    ensures
        leb_block(s.skip(p), values.len(), max) == Ok::<_, Fault>(
            (values, block_text(values).len() as int),
        ),
{
    reveal(leb_block);
    let data = leb_data(values);
    lemma_data_len(values, max);
    assert(max * values.len() <= 5 * 0x2000_0000) by (nonlinear_arith)
        requires
            max <= 5,
            values.len() <= 0x2000_0000,
    ;
    let r = s.skip(p);
    lemma_holds_skipped(s, p, p, block_text(values));
    lemma_block_parts(r, values);
    numbers_are_read_back(values, max);
}

/// Numbers of 16 bits as numbers of any size.
pub open spec fn shorts(values: Seq<i16>) -> Seq<int> {
    Seq::new(values.len(), |i: int| values[i] as int)
}

/// Numbers of 32 bits as numbers of any size.
pub open spec fn longs(values: Seq<i32>) -> Seq<int> {
    Seq::new(values.len(), |i: int| values[i] as int)
}

/// Whether each number of `table` is twice that of `halves`, in 16 bits.
pub open spec fn twice(table: Seq<i16>, halves: Seq<i16>) -> bool {
    &&& table.len() == halves.len()
    &&& forall|i: int|
        0 <= i < halves.len() ==> {
            let double = 2 * halves[i];
            &&& (#[trigger] table[i] - double) % 0x1_0000 == 0
            &&& -0x8000 <= double < 0x8000 ==> table[i] == double
        }
}

/// A block of 16-bit numbers is read as it is written.
pub proof fn short_block_is_read_back(s: Seq<u8>, p: int, values: Seq<i16>)
    requires
        values.len() <= 0x2000_0000,
        holds(s, p, block_text(shorts(values))),
    ensures
        leb_block(s.skip(p), values.len(), 3) == Ok::<_, Fault>(
            (shorts(values), block_text(shorts(values)).len() as int),
        ),
{
    let all = shorts(values);
    assert forall|i: int| 0 <= i < all.len() implies leb_bytes(#[trigger] all[i]).len() <= 3 by {
        number_len(all[i]);
    }
    block_is_read_back(s, p, all, 3);
}

/// A block of 32-bit numbers is read as it is written.
pub proof fn wide_block_is_read_back(s: Seq<u8>, p: int, values: Seq<i32>)
    requires
        values.len() <= 0x2000_0000,
        holds(s, p, block_text(longs(values))),
    ensures
        leb_block(s.skip(p), values.len(), 5) == Ok::<_, Fault>(
            (longs(values), block_text(longs(values)).len() as int),
        ),
{
    let all = longs(values);
    assert forall|i: int| 0 <= i < all.len() implies leb_bytes(#[trigger] all[i]).len() <= 5 by {
        number_len(all[i]);
    }
    block_is_read_back(s, p, all, 5);
}

proof fn lemma_cut_tables(short: Seq<i16>, long: Seq<i32>)
    ensures
        shorts(short).map_values(|x: int| wrap16(x)) == short,
        longs(long).map_values(|x: int| wrap32(x)) == long,
        twice(shorts(short).map_values(|x: int| wrap16(2 * x)), short),
{
    assert(shorts(short).map_values(|x: int| wrap16(x)) =~= short);
    assert(longs(long).map_values(|x: int| wrap32(x)) =~= long);
}

/// A file: version, hash of the architecture, length of the description, the
/// description, and the network.
pub open spec fn file_text(version: u32, hash: u32, description: Seq<u8>, body: Seq<u8>) -> Seq<
    u8,
> {
    u32_text(version) + (u32_text(hash) + (u32_text(description.len() as u32) + (description
        + body)))
}

proof fn lemma_file(s: Seq<u8>, version: u32, hash: u32, description: Seq<u8>, body: Seq<u8>)
    requires
        description.len() <= u32::MAX,
        holds(s, 0, file_text(version, hash, description, body)),
    ensures
        s.len() >= 12 + description.len(),
        le_u32(s, 0) == version,
        le_u32(s, 8) == description.len(),
        holds(s.skip(12int + description.len()), 0, body),
{
    let n = description.len();
    let t2 = description + body;
    let t1 = u32_text(n as u32) + t2;
    lemma_holds_split(s, 0, u32_text(version), u32_text(hash) + t1);
    lemma_holds_split(s, 4, u32_text(hash), t1);
    lemma_holds_split(s, 8, u32_text(n as u32), t2);
    lemma_holds_split(s, 12, description, body);
    lemma_holds_skipped(s, 12 + n as int, 12 + n as int, body);
    unsigned_is_read_back(s, 0, version);
    unsigned_is_read_back(s, 8, n as u32);
}

/// A mirrored king-relative network: the hash that gives the width, blocks of
/// half the biases, half the weights and the piece-square weights, and the stacks.
pub open spec fn mirrored_text(
    l1: u32,
    bias: Seq<i16>,
    weight: Seq<i16>,
    psqt: Seq<i32>,
    stacks: Seq<BucketModel>,
    hashes: spec_fn(int) -> u32,
) -> Seq<u8> {
    u32_text(0x7f23_4cb8u32 ^ (2 * l1) as u32) + (block_text(shorts(bias)) + (block_text(
        shorts(weight),
    ) + (block_text(longs(psqt)) + stacks_text(stacks, hashes, 8))))
}

proof fn lemma_mirrored_blocks(
    r: Seq<u8>,
    l1: nat,
    n1: int,
    n2: int,
    n3: int,
    bias: Seq<i16>,
    weight: Seq<i16>,
    psqt: Seq<i32>,
    stacks: Seq<BucketModel>,
)
    requires
        leb_block(r, l1, 3) == Ok::<_, Fault>((shorts(bias), n1)),
        leb_block(r.skip(n1), (l1 * 22528) as nat, 3) == Ok::<_, Fault>((shorts(weight), n2)),
        leb_block(r.skip(n1 + n2), 8 * 22528, 5) == Ok::<_, Fault>((longs(psqt), n3)),
        r.len() >= n1 + n2 + n3 + stacks_len(l1),
        stacks_at(r, n1 + n2 + n3, l1) == stacks,
    ensures
        hm_network(r, l1) matches Ok((net, len)) && {
            &&& len == n1 + n2 + n3 + stacks_len(l1)
            &&& net.arch == Arch::HalfKAv2Hm
            &&& net.l1 == l1
            &&& twice(net.ft_bias, bias)
            &&& twice(net.ft_weight, weight)
            &&& net.ft_psqt == psqt
            &&& net.threat_weight.len() == 0
            &&& net.threat_psqt.len() == 0
            &&& net.buckets == stacks
        },
{
    reveal(hm_network);
    lemma_cut_tables(bias, psqt);
    lemma_cut_tables(weight, psqt);
}

proof fn lemma_mirrored(
    s: Seq<u8>,
    l1: u32,
    bias: Seq<i16>,
    weight: Seq<i16>,
    psqt: Seq<i32>,
    stacks: Seq<BucketModel>,
    hashes: spec_fn(int) -> u32,
)
    requires
        16 <= l1 <= 4096,
        l1 % 16 == 0,
        bias.len() == l1,
        weight.len() == l1 * 22528,
        psqt.len() == 8 * 22528,
        stacks.len() == 8,
        forall|k: int| 0 <= k < 8 ==> (#[trigger] stacks[k]).shaped(16, l1 as int, 32),
        holds(s, 0, mirrored_text(l1, bias, weight, psqt, stacks, hashes)),
    ensures
        halfka_network(s) matches Ok((net, len)) && {
            &&& len == mirrored_text(l1, bias, weight, psqt, stacks, hashes).len()
            &&& net.arch == Arch::HalfKAv2Hm
            &&& net.l1 == l1
            &&& twice(net.ft_bias, bias)
            &&& twice(net.ft_weight, weight)
            &&& net.ft_psqt == psqt
            &&& net.threat_weight.len() == 0
            &&& net.threat_psqt.len() == 0
            &&& net.buckets == stacks
        },
{
    let hash = 0x7f23_4cb8u32 ^ (2 * l1) as u32;
    let b1 = block_text(shorts(bias));
    let b2 = block_text(shorts(weight));
    let b3 = block_text(longs(psqt));
    let st = stacks_text(stacks, hashes, 8);
    every_width_is_detected(l1);
    let r = s.skip(4);
    lemma_holds_split(s, 0, u32_text(hash), b1 + (b2 + (b3 + st)));
    unsigned_is_read_back(s, 0, hash);
    lemma_holds_skipped(s, 4, 4, b1 + (b2 + (b3 + st)));
    let n1 = b1.len() as int;
    let n2 = b2.len() as int;
    let n3 = b3.len() as int;
    lemma_holds_split(r, 0, b1, b2 + (b3 + st));
    lemma_holds_split(r, n1, b2, b3 + st);
    lemma_holds_split(r, n1 + n2, b3, st);
    assert(r.skip(0) =~= r);
    assert(l1 * 22528 <= 4096 * 22528);
    short_block_is_read_back(r, 0, bias);
    short_block_is_read_back(r, n1, weight);
    wide_block_is_read_back(r, n1 + n2, psqt);
    stacks_are_read_back(r, n1 + n2 + n3, stacks, hashes, l1 as nat);
    lemma_mirrored_blocks(r, l1 as nat, n1, n2, n3, bias, weight, psqt, stacks);
}

/// Loading a mirrored king-relative network gives back what its file holds:
/// twice the numbers stored as biases and weights, and the piece-square weights
/// and stacks as they are, whatever the hashes, the description and what follows.
pub proof fn mirrored_network_is_loaded_as_written(
    s: Seq<u8>,
    hash: u32,
    description: Seq<u8>,
    l1: u32,
    bias: Seq<i16>,
    weight: Seq<i16>,
    psqt: Seq<i32>,
    stacks: Seq<BucketModel>,
    hashes: spec_fn(int) -> u32,
)
    requires
        description.len() <= u32::MAX,
        16 <= l1 <= 4096,
        l1 % 16 == 0,
        bias.len() == l1,
        weight.len() == l1 * 22528,
        psqt.len() == 8 * 22528,
        stacks.len() == 8,
        forall|k: int| 0 <= k < 8 ==> (#[trigger] stacks[k]).shaped(16, l1 as int, 32),
        holds(
            s,
            0,
            file_text(
                0x7AF3_2F20,
                hash,
                description,
                mirrored_text(l1, bias, weight, psqt, stacks, hashes),
            ),
        ),
    ensures
        network_file(s) matches Ok((net, len)) && {
            &&& len == 12 + description.len() + mirrored_text(
                l1,
                bias,
                weight,
                psqt,
                stacks,
                hashes,
            ).len()
            &&& net.arch == Arch::HalfKAv2Hm
            &&& net.l1 == l1
            &&& twice(net.ft_bias, bias)
            &&& twice(net.ft_weight, weight)
            &&& net.ft_psqt == psqt
            &&& net.threat_weight.len() == 0
            &&& net.threat_psqt.len() == 0
            &&& net.buckets == stacks
        },
{
    let body = mirrored_text(l1, bias, weight, psqt, stacks, hashes);
    lemma_file(s, 0x7AF3_2F20, hash, description, body);
    lemma_mirrored(
        s.skip(12int + description.len()),
        l1,
        bias,
        weight,
        psqt,
        stacks,
        hashes,
    );
}

/// A network with attack features: the hash that gives the width, a block of
/// biases, a byte for each weight of an attack, a block of the weights of the
/// pieces, one block of the piece-square weights of the attacks and then of the
/// pieces, and the stacks.
pub open spec fn attack_text(
    l1: u32,
    bias: Seq<i16>,
    threat_weight: Seq<i8>,
    weight: Seq<i16>,
    threat_psqt: Seq<i32>,
    psqt: Seq<i32>,
    stacks: Seq<BucketModel>,
    hashes: spec_fn(int) -> u32,
) -> Seq<u8> {
    u32_text(0x8f23_4cb8u32 ^ (2 * l1) as u32) + (block_text(shorts(bias)) + (i8_text(threat_weight)
        + (block_text(shorts(weight)) + (block_text(longs(threat_psqt + psqt)) + stacks_text(
        stacks,
        hashes,
        8,
    )))))
}

proof fn lemma_attack_blocks(
    r: Seq<u8>,
    l1: nat,
    n1: int,
    n2: int,
    n3: int,
    bias: Seq<i16>,
    threat_weight: Seq<i8>,
    weight: Seq<i16>,
    threat_psqt: Seq<i32>,
    psqt: Seq<i32>,
    stacks: Seq<BucketModel>,
)
    requires
        threat_weight.len() == l1 * 79856,
        threat_psqt.len() == 8 * 79856,
        leb_block(r, l1, 3) == Ok::<_, Fault>((shorts(bias), n1)),
        i8s(r, n1, threat_weight.len()) == threat_weight,
        leb_block(r.skip(n1 + threat_weight.len()), (l1 * 22528) as nat, 3) == Ok::<_, Fault>(
            (shorts(weight), n2),
        ),
        leb_block(r.skip(n1 + threat_weight.len() + n2), 8 * (79856 + 22528), 5) == Ok::<_, Fault>(
            (longs(threat_psqt + psqt), n3),
        ),
        n2 >= 0,
        n3 >= 0,
        r.len() >= n1 + threat_weight.len() + n2 + n3 + stacks_len(l1),
        stacks_at(r, n1 + threat_weight.len() + n2 + n3, l1) == stacks,
    ensures
        v10_network(r, l1) == Ok::<_, Fault>(
            (
                (NetworkModel {
                    arch: Arch::Sfnnv10,
                    l1,
                    ft_bias: bias,
                    ft_weight: weight,
                    ft_psqt: psqt,
                    threat_weight,
                    threat_psqt,
                    buckets: stacks,
                }),
                n1 + threat_weight.len() + n2 + n3 + stacks_len(l1),
            ),
        ),
{
    reveal(v10_network);
    let both = threat_psqt + psqt;
    lemma_cut_tables(bias, both);
    lemma_cut_tables(weight, both);
    assert(both.skip(79856int * 8) =~= psqt);
    assert(both.take(79856int * 8) =~= threat_psqt);
}

proof fn lemma_attack_text(
    s: Seq<u8>,
    l1: u32,
    bias: Seq<i16>,
    threat_weight: Seq<i8>,
    weight: Seq<i16>,
    threat_psqt: Seq<i32>,
    psqt: Seq<i32>,
    stacks: Seq<BucketModel>,
    hashes: spec_fn(int) -> u32,
)
    requires
        16 <= l1 <= 4096,
        l1 % 16 == 0,
        bias.len() == l1,
        threat_weight.len() == l1 * 79856,
        weight.len() == l1 * 22528,
        threat_psqt.len() == 8 * 79856,
        psqt.len() == 8 * 22528,
        stacks.len() == 8,
        forall|k: int| 0 <= k < 8 ==> (#[trigger] stacks[k]).shaped(16, l1 as int, 32),
        holds(
            s,
            0,
            attack_text(l1, bias, threat_weight, weight, threat_psqt, psqt, stacks, hashes),
        ),
    ensures
        halfka_network(s) == Ok::<_, Fault>(
            (
                (NetworkModel {
                    arch: Arch::Sfnnv10,
                    l1: l1 as nat,
                    ft_bias: bias,
                    ft_weight: weight,
                    ft_psqt: psqt,
                    threat_weight,
                    threat_psqt,
                    buckets: stacks,
                }),
                attack_text(
                    l1,
                    bias,
                    threat_weight,
                    weight,
                    threat_psqt,
                    psqt,
                    stacks,
                    hashes,
                ).len() as int,
            ),
        ),
{
    let hash = 0x8f23_4cb8u32 ^ (2 * l1) as u32;
    let b1 = block_text(shorts(bias));
    let tw = i8_text(threat_weight);
    let b2 = block_text(shorts(weight));
    let both = threat_psqt + psqt;
    let b3 = block_text(longs(both));
    let st = stacks_text(stacks, hashes, 8);
    every_width_is_detected(l1);
    let r = s.skip(4);
    lemma_holds_split(s, 0, u32_text(hash), b1 + (tw + (b2 + (b3 + st))));
    unsigned_is_read_back(s, 0, hash);
    lemma_holds_skipped(s, 4, 4, b1 + (tw + (b2 + (b3 + st))));
    let n1 = b1.len() as int;
    let p1 = n1 + tw.len();
    let n2 = b2.len() as int;
    let n3 = b3.len() as int;
    lemma_holds_split(r, 0, b1, tw + (b2 + (b3 + st)));
    lemma_holds_split(r, n1, tw, b2 + (b3 + st));
    lemma_holds_split(r, p1, b2, b3 + st);
    lemma_holds_split(r, p1 + n2, b3, st);
    assert(r.skip(0) =~= r);
    short_block_is_read_back(r, 0, bias);
    bytes_are_read_back(r, n1, threat_weight);
    short_block_is_read_back(r, p1, weight);
    wide_block_is_read_back(r, p1 + n2, both);
    stacks_are_read_back(r, p1 + n2 + n3, stacks, hashes, l1 as nat);
    lemma_attack_blocks(
        r,
        l1 as nat,
        n1,
        n2,
        n3,
        bias,
        threat_weight,
        weight,
        threat_psqt,
        psqt,
        stacks,
    );
}

/// Loading a network with attack features gives back the tables and the stacks
/// that its file holds, whatever the hashes, the description and what follows.
pub proof fn attack_network_is_loaded_as_written(
    s: Seq<u8>,
    hash: u32,
    description: Seq<u8>,
    l1: u32,
    bias: Seq<i16>,
    threat_weight: Seq<i8>,
    weight: Seq<i16>,
    threat_psqt: Seq<i32>,
    psqt: Seq<i32>,
    stacks: Seq<BucketModel>,
    hashes: spec_fn(int) -> u32,
)
    requires
        description.len() <= u32::MAX,
        16 <= l1 <= 4096,
        l1 % 16 == 0,
        bias.len() == l1,
        threat_weight.len() == l1 * 79856,
        weight.len() == l1 * 22528,
        threat_psqt.len() == 8 * 79856,
        psqt.len() == 8 * 22528,
        stacks.len() == 8,
        forall|k: int| 0 <= k < 8 ==> (#[trigger] stacks[k]).shaped(16, l1 as int, 32),
        holds(
            s,
            0,
            file_text(
                0x7AF3_2F20,
                hash,
                description,
                attack_text(l1, bias, threat_weight, weight, threat_psqt, psqt, stacks, hashes),
            ),
        ),
    ensures
        network_file(s) == Ok::<_, Fault>(
            (
                (NetworkModel {
                    arch: Arch::Sfnnv10,
                    l1: l1 as nat,
                    ft_bias: bias,
                    ft_weight: weight,
                    ft_psqt: psqt,
                    threat_weight,
                    threat_psqt,
                    buckets: stacks,
                }),
                12int + description.len() + attack_text(
                    l1,
                    bias,
                    threat_weight,
                    weight,
                    threat_psqt,
                    psqt,
                    stacks,
                    hashes,
                ).len(),
            ),
        ),
{
    let body = attack_text(l1, bias, threat_weight, weight, threat_psqt, psqt, stacks, hashes);
    lemma_file(s, 0x7AF3_2F20, hash, description, body);
    lemma_attack_text(
        s.skip(12int + description.len()),
        l1,
        bias,
        threat_weight,
        weight,
        threat_psqt,
        psqt,
        stacks,
        hashes,
    );
}

/// An unmirrored king-relative network: the hash that gives the width, biases,
/// weights, piece-square weights and stacks, nothing of it in blocks.
pub open spec fn unmirrored_text(
    l1: u32,
    bias: Seq<i16>,
    weight: Seq<i16>,
    psqt: Seq<i32>,
    stacks: Seq<BucketModel>,
    hashes: spec_fn(int) -> u32,
) -> Seq<u8> {
    u32_text(0x5f23_4cb8u32 ^ (2 * l1) as u32) + (i16_text(bias) + (i16_text(weight) + (i32_text(
        psqt,
    ) + stacks_text(stacks, hashes, 8))))
}

/// Loading an unmirrored king-relative network gives back the tables and the
/// stacks that its file holds, whatever the hashes, the description and what
/// follows.
pub proof fn unmirrored_network_is_loaded_as_written(
    s: Seq<u8>,
    hash: u32,
    description: Seq<u8>,
    l1: u32,
    bias: Seq<i16>,
    weight: Seq<i16>,
    psqt: Seq<i32>,
    stacks: Seq<BucketModel>,
    hashes: spec_fn(int) -> u32,
)
    requires
        description.len() <= u32::MAX,
        16 <= l1 <= 4096,
        l1 % 16 == 0,
        bias.len() == l1,
        weight.len() == l1 * 45056,
        psqt.len() == 8 * 45056,
        stacks.len() == 8,
        forall|k: int| 0 <= k < 8 ==> (#[trigger] stacks[k]).shaped(16, 2 * l1, 32),
        holds(
            s,
            0,
            file_text(
                0x7AF3_2F20,
                hash,
                description,
                unmirrored_text(l1, bias, weight, psqt, stacks, hashes),
            ),
        ),
    ensures
        network_file(s) == Ok::<_, Fault>(
            (
                (NetworkModel {
                    arch: Arch::HalfKAv2,
                    l1: l1 as nat,
                    ft_bias: bias,
                    ft_weight: weight,
                    ft_psqt: psqt,
                    threat_weight: Seq::empty(),
                    threat_psqt: Seq::empty(),
                    buckets: stacks,
                }),
                12int + description.len() + unmirrored_text(
                    l1,
                    bias,
                    weight,
                    psqt,
                    stacks,
                    hashes,
                ).len(),
            ),
        ),
{
    let body = unmirrored_text(l1, bias, weight, psqt, stacks, hashes);
    lemma_file(s, 0x7AF3_2F20, hash, description, body);
    let f = s.skip(12int + description.len());
    let ft_hash = 0x5f23_4cb8u32 ^ (2 * l1) as u32;
    let st = stacks_text(stacks, hashes, 8);
    let t2 = i32_text(psqt) + st;
    let t1 = i16_text(weight) + t2;
    let t0 = i16_text(bias) + t1;
    every_width_is_detected(l1);
    lemma_holds_split(f, 0, u32_text(ft_hash), t0);
    unsigned_is_read_back(f, 0, ft_hash);
    lemma_holds_skipped(f, 4, 4, t0);
    let r = f.skip(4);
    let p1 = 2 * l1 as int;
    let p2 = p1 + 2 * (l1 * 45056);
    let p3 = p2 + 4 * (8 * 45056);
    lemma_holds_split(r, 0, i16_text(bias), t1);
    lemma_holds_split(r, p1, i16_text(weight), t2);
    lemma_holds_split(r, p2, i32_text(psqt), st);
    short_numbers_are_read_back(r, 0, bias);
    short_numbers_are_read_back(r, p1, weight);
    wide_numbers_are_read_back(r, p2, psqt);
    stacks_are_read_back(r, p3, stacks, hashes, 2 * l1 as nat);
}

/// A HalfKP network: a hash, biases and weights, a hash, and one stack.
pub open spec fn halfkp_text(
    ft_hash: u32,
    bias: Seq<i16>,
    weight: Seq<i16>,
    stack_hash: u32,
    stack: BucketModel,
) -> Seq<u8> {
    u32_text(ft_hash) + (i16_text(bias) + (i16_text(weight) + (u32_text(stack_hash) + stack_text(
        stack,
    ))))
}

/// Loading a HalfKP network gives back the tables and the stack that its file
/// holds, whatever the hashes, the description and what follows.
pub proof fn halfkp_network_is_loaded_as_written(
    s: Seq<u8>,
    hash: u32,
    description: Seq<u8>,
    ft_hash: u32,
    bias: Seq<i16>,
    weight: Seq<i16>,
    stack_hash: u32,
    stack: BucketModel,
)
    requires
        description.len() <= u32::MAX,
        bias.len() == 256,
        weight.len() == 256 * 41024,
        stack.shaped(32, 512, 32),
        holds(
            s,
            0,
            file_text(
                0x7AF3_2F16,
                hash,
                description,
                halfkp_text(ft_hash, bias, weight, stack_hash, stack),
            ),
        ),
    ensures
        network_file(s) == Ok::<_, Fault>(
            (
                (NetworkModel {
                    arch: Arch::HalfKP,
                    l1: 256,
                    ft_bias: bias,
                    ft_weight: weight,
                    ft_psqt: Seq::empty(),
                    threat_weight: Seq::empty(),
                    threat_psqt: Seq::empty(),
                    buckets: seq![stack],
                }),
                12int + description.len() + halfkp_text(
                    ft_hash,
                    bias,
                    weight,
                    stack_hash,
                    stack,
                ).len(),
            ),
        ),
{
    let body = halfkp_text(ft_hash, bias, weight, stack_hash, stack);
    lemma_file(s, 0x7AF3_2F16, hash, description, body);
    let r = s.skip(12int + description.len());
    let t3 = u32_text(stack_hash) + stack_text(stack);
    let t2 = i16_text(weight) + t3;
    let t1 = i16_text(bias) + t2;
    let p1 = 4int + 2 * 256;
    let p2 = p1 + 2 * (256 * 41024);
    lemma_holds_split(r, 0, u32_text(ft_hash), t1);
    lemma_holds_split(r, 4, i16_text(bias), t2);
    lemma_holds_split(r, p1, i16_text(weight), t3);
    lemma_holds_split(r, p2, u32_text(stack_hash), stack_text(stack));
    short_numbers_are_read_back(r, 4, bias);
    short_numbers_are_read_back(r, p1, weight);
    stack_is_read_back(r, p2 + 4, stack, 32, 512, 32);
}

/// A hash that stands for an architecture and a width is the one that is
/// written for them.
pub proof fn only_written_widths_are_detected(ft_hash: u32)
    ensures
        detected(ft_hash) matches Some((arch, l1)) ==> {
            &&& 16 <= l1 <= 4096
            &&& l1 % 16 == 0
            &&& arch == Arch::Sfnnv10 ==> ft_hash == 0x8f23_4cb8u32 ^ (2 * l1) as u32
            &&& arch == Arch::HalfKAv2Hm ==> ft_hash == 0x7f23_4cb8u32 ^ (2 * l1) as u32
            &&& arch == Arch::HalfKAv2 ==> ft_hash == 0x5f23_4cb8u32 ^ (2 * l1) as u32
            &&& arch != Arch::HalfKP
        },
{
    assert(0x8f23_4cb8u32 ^ (ft_hash ^ 0x8f23_4cb8) == ft_hash && 0x7f23_4cb8u32 ^ (ft_hash
        ^ 0x7f23_4cb8) == ft_hash && 0x5f23_4cb8u32 ^ (ft_hash ^ 0x5f23_4cb8) == ft_hash)
        by (bit_vector);
}

/// A file of a version that is not known is refused with that version.
pub proof fn other_versions_are_refused(
    s: Seq<u8>,
    version: u32,
    hash: u32,
    description: Seq<u8>,
    body: Seq<u8>,
)
    requires
        description.len() <= u32::MAX,
        version != 0x7AF3_2F20,
        version != 0x7AF3_2F16,
        holds(s, 0, file_text(version, hash, description, body)),
    ensures
        network_file(s) == Err::<(NetworkModel, int), _>(Fault::UnsupportedVersion(version)),
{
    lemma_file(s, version, hash, description, body);
}

/// A number comes in groups of seven bits: a byte with its top bit set holds the
/// lowest group of what follows it, and the other bytes end a number, with
/// their values below 64 and 128 less from there on. This goes for numbers that
/// take more bytes than they need as well.
pub proof fn numbers_come_in_groups(low: u8, s: Seq<u8>)
    ensures
        low < 64 ==> leb_len(seq![low] + s) == 1 && leb_value(seq![low] + s) == low,
        64 <= low < 128 ==> leb_len(seq![low] + s) == 1 && leb_value(seq![low] + s) == low - 128,
        low >= 128 && leb_len(s) > 0 ==> leb_len(seq![low] + s) == 1 + leb_len(s) && leb_value(
            seq![low] + s,
        ) == (low - 128) + 128 * leb_value(s),
        low >= 128 && leb_len(s) == 0 ==> leb_len(seq![low] + s) == 0,
        leb_len(Seq::empty()) == 0,
{
    assert((seq![low] + s).skip(1) =~= s);
}

proof fn lemma_other_count(values: Seq<int>, n: nat, max: nat)
    requires
        n != values.len(),
    ensures
        leb_values(leb_data(values), n, max) is None,
    decreases values.len(),
{
    if values.len() == 0 {
        assert(leb_len(leb_data(values)) == 0);
    } else {
        let rest = values.skip(1);
        let s = leb_data(values);
        let first = leb_bytes(values[0]);
        number_is_read_back(values[0], leb_data(rest));
        if n > 0 {
            lemma_other_count(rest, (n - 1) as nat, max);
            assert(s.skip(first.len() as int) =~= leb_data(rest));
        }
    }
}

proof fn lemma_long_number(values: Seq<int>, k: int, n: nat, max: nat)
    requires
        0 <= k < values.len(),
        leb_bytes(values[k]).len() > max,
    ensures
        leb_values(leb_data(values), n, max) is None,
    decreases values.len(),
{
    let rest = values.skip(1);
    let s = leb_data(values);
    let first = leb_bytes(values[0]);
    number_is_read_back(values[0], leb_data(rest));
    if n > 0 && k > 0 {
        assert(rest[k - 1] == values[k]);
        lemma_long_number(rest, k - 1, (n - 1) as nat, max);
        assert(s.skip(first.len() as int) =~= leb_data(rest));
    }
}

/// A block is refused where it opens with another text, where it holds more or
/// fewer numbers than asked for, and where a number takes too many bytes.
pub proof fn other_blocks_are_refused(s: Seq<u8>, values: Seq<int>, n: nat, max: nat)
    ensures
        s.len() >= 17 && !holds(s, 0, leb_opening()) ==> leb_block(s, n, max) == Err::<
            (Seq<int>, int),
            _,
        >(Fault::InvalidData("bad LEB128 magic"@)),
        holds(s, 0, block_text(values)) && leb_data(values).len() <= u32::MAX && (n != values.len()
            || exists|k: int| 0 <= k < values.len() && leb_bytes(#[trigger] values[k]).len() > max)
            ==> leb_block(s, n, max) == Err::<(Seq<int>, int), _>(
            Fault::InvalidData("bad LEB128 data"@),
        ),
{
    reveal(leb_block);
    if s.len() >= 17 && !holds(s, 0, leb_opening()) && s.take(17) == MAGIC@ {
        assert forall|i: int| 0 <= i < 17 implies #[trigger] leb_opening()[i] == s[0 + i] by {
            assert(s.take(17)[i] == MAGIC@[i]);
        }
    }
    if holds(s, 0, block_text(values)) && leb_data(values).len() <= u32::MAX {
        lemma_block_parts(s, values);
        if n != values.len() {
            lemma_other_count(values, n, max);
        } else if exists|k: int|
            0 <= k < values.len() && leb_bytes(#[trigger] values[k]).len() > max {
            let k = choose|k: int|
                0 <= k < values.len() && leb_bytes(#[trigger] values[k]).len() > max;
            lemma_long_number(values, k, n, max);
        }
    }
}

/// Where the hash of the feature transformer is not one that is written for a
/// width, the file is refused.
pub proof fn other_widths_are_refused(
    s: Seq<u8>,
    hash: u32,
    description: Seq<u8>,
    ft_hash: u32,
    rest: Seq<u8>,
)
    requires
        description.len() <= u32::MAX,
        forall|l1: u32|
            16 <= l1 <= 4096 && l1 % 16 == 0 ==> {
                &&& ft_hash != 0x8f23_4cb8u32 ^ #[trigger] twofold(l1)
                &&& ft_hash != 0x7f23_4cb8u32 ^ twofold(l1)
                &&& ft_hash != 0x5f23_4cb8u32 ^ twofold(l1)
            },
        holds(s, 0, file_text(0x7AF3_2F20, hash, description, u32_text(ft_hash) + rest)),
    ensures
        network_file(s) == Err::<(NetworkModel, int), _>(
            Fault::InvalidData("bad feature-transformer width"@),
        ),
{
    let body = u32_text(ft_hash) + rest;
    lemma_file(s, 0x7AF3_2F20, hash, description, body);
    let f = s.skip(12int + description.len());
    lemma_holds_split(f, 0, u32_text(ft_hash), rest);
    unsigned_is_read_back(f, 0, ft_hash);
    only_written_widths_are_detected(ft_hash);
    if let Some((arch, l1)) = detected(ft_hash) {
        assert(twofold(l1 as u32) == (2 * l1) as u32);
    }
}

/// Twice a width.
pub open spec fn twofold(l1: u32) -> u32 {
    (2 * l1) as u32
}

} // verus!
