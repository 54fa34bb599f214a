//! Decomposition of a contiguous address range into the minimal ordered
//! sequence of naturally aligned CIDR blocks, and the inverse direction:
//! the bounds, netmask and address count of a single block.
use vstd::prelude::*;
use vstd::arithmetic::power2::{
    pow2, lemma_pow2_adds, lemma_pow2_pos, lemma_pow2_strictly_increases, lemma2_to64,
    lemma2_to64_rest,
};
use vstd::arithmetic::div_mod::{
    lemma_fundamental_div_mod, lemma_small_mod, lemma_mod_bound, lemma_mod_decreases,
    lemma_multiply_divide_lt,
};

verus! {

/// The error a range or literal operation can raise: the text was not a
/// well-formed address or CIDR literal, or the range ran backwards.
#[derive(Clone, Copy, Debug, PartialEq, Eq, Structural)]
pub enum IpError {
    InvalidFormat,
    InvalidRange,
}

/// The number of addresses in a block of prefix length `p` in a `w`-bit
/// address space.
pub open spec fn block_size(p: int, w: int) -> int {
    pow2((w - p) as nat) as int
}

/// Is `base` aligned to the size of a prefix-`p` block?
pub open spec fn block_aligned(base: int, p: int, w: int) -> bool {
    base % block_size(p, w) == 0
}

/// The last address of the prefix-`p` block starting at `base`.
pub open spec fn block_end(base: int, p: int, w: int) -> int {
    base + block_size(p, w) - 1
}

/// Does the prefix-`p` block at `base` stay within `end`?
pub open spec fn block_fits(base: int, p: int, end: int, w: int) -> bool {
    block_end(base, p, w) <= end
}

/// Is `p` a prefix length whose block at `base` is aligned and stays
/// within `end`?
pub open spec fn valid_prefix(base: int, p: int, end: int, w: int) -> bool {
    block_aligned(base, p, w) && block_fits(base, p, end, w)
}

/// The smallest prefix length at least `p` — that is, the largest block —
/// that is aligned at `base` and stays within `end`. The search always
/// succeeds by `w`, the single-address block.
pub open spec fn best_prefix_from(base: int, end: int, w: int, p: int) -> int
    decreases w - p,
{
    if p >= w {
        w
    } else if valid_prefix(base, p, end, w) {
        p
    } else {
        best_prefix_from(base, end, w, p + 1)
    }
}

/// The largest aligned block at `base` staying within `end`.
pub open spec fn best_prefix(base: int, end: int, w: int) -> int {
    best_prefix_from(base, end, w, 0)
}

/// The greedy decomposition of `[start, end]` into aligned blocks, each
/// the largest possible at its position: the unique minimal exact cover
/// of the range, in increasing address order.
pub open spec fn spec_partition(start: int, end: int, w: int) -> Seq<(int, int)>
    decreases end - start,
    via spec_partition_dec
{
    if start < 0 || end < start || w < 1 {
        Seq::empty()
    } else {
        let p = best_prefix(start, end, w);
        let be = block_end(start, p, w);
        if be >= end {
            seq![(start, p)]
        } else {
            seq![(start, p)] + spec_partition(be + 1, end, w)
        }
    }
}

#[via_fn]
proof fn spec_partition_dec(start: int, end: int, w: int) {
    if !(start < 0 || end < start || w < 1) {
        lemma_best_prefix_from(start, end, w, 0);
        let p = best_prefix(start, end, w);
        lemma_pow2_pos((w - p) as nat);
    }
}

/// The prefix search stays in `[p, w]`, returns a valid prefix, and no
/// smaller prefix in its range is valid: the found block is the largest.
pub proof fn lemma_best_prefix_from(base: int, end: int, w: int, p: int)
    requires
        0 <= p <= w,
        0 <= base <= end,
    ensures
        p <= best_prefix_from(base, end, w, p) <= w,
        valid_prefix(base, best_prefix_from(base, end, w, p), end, w),
        forall|q: int| p <= q < best_prefix_from(base, end, w, p) ==> !valid_prefix(base, q, end, w),
    decreases w - p,
{
    if p >= w {
        lemma2_to64();
        assert(block_size(w, w) == 1);
        assert(base % 1 == 0);
    } else if valid_prefix(base, p, end, w) {
    } else {
        lemma_best_prefix_from(base, end, w, p + 1);
    }
}

/// Is `b` a well-formed block of the cover of `[start, end]`: a prefix
/// length within the width, an aligned base, and bounds inside the range?
pub open spec fn wf_block(b: (int, int), start: int, end: int, w: int) -> bool {
    &&& 0 <= b.1 <= w
    &&& start <= b.0
    &&& block_aligned(b.0, b.1, w)
    &&& block_end(b.0, b.1, w) <= end
}

/// The blocks tile `[start, end]` exactly: there is at least one, the
/// first starts at `start`, each next block begins one past the end of
/// the previous, the last ends at `end`, and every block is well-formed.
/// Together these make the blocks contiguous, non-overlapping, and their
/// union exactly `[start, end]`.
pub open spec fn covers_exactly(bs: Seq<(int, int)>, start: int, end: int, w: int) -> bool {
    &&& bs.len() >= 1
    &&& bs[0].0 == start
    &&& block_end(bs[bs.len() - 1].0, bs[bs.len() - 1].1, w) == end
    &&& (forall|i: int| 0 <= i < bs.len() ==> wf_block(#[trigger] bs[i], start, end, w))
    &&& (forall|i: int|
        1 <= i < bs.len() ==> (#[trigger] bs[i]).0 == block_end(bs[i - 1].0, bs[i - 1].1, w) + 1)
}

/// Partition coverage: for any `start <= end` the greedy decomposition
/// tiles `[start, end]` exactly.
pub proof fn lemma_partition_covers(start: int, end: int, w: int)
    requires
        0 <= start <= end,
        1 <= w,
    ensures
        covers_exactly(spec_partition(start, end, w), start, end, w),
    decreases end - start,
{
    let p = best_prefix(start, end, w);
    lemma_best_prefix_from(start, end, w, 0);
    let be = block_end(start, p, w);
    lemma_pow2_pos((w - p) as nat);
    let bs = spec_partition(start, end, w);
    if be >= end {
        assert(bs =~= seq![(start, p)]);
    } else {
        lemma_partition_covers(be + 1, end, w);
        let rest = spec_partition(be + 1, end, w);
        assert(bs =~= seq![(start, p)] + rest);
        assert forall|i: int| 0 <= i < bs.len() implies wf_block(#[trigger] bs[i], start, end, w) by {
            if i > 0 {
                assert(bs[i] == rest[i - 1]);
                assert(wf_block(rest[i - 1], be + 1, end, w));
            }
        }
        assert forall|i: int| 1 <= i < bs.len() implies (#[trigger] bs[i]).0 == block_end(
            bs[i - 1].0,
            bs[i - 1].1,
            w,
        ) + 1 by {
            if i == 1 {
                assert(bs[1] == rest[0]);
                assert(rest[0].0 == be + 1);
            } else {
                assert(bs[i] == rest[i - 1]);
                assert(bs[i - 1] == rest[i - 2]);
                assert((#[trigger] rest[i - 1]).0 == block_end(rest[i - 2].0, rest[i - 2].1, w)
                    + 1);
            }
        }
    }
}

/// Every address of `[start, end]` lies in some block of an exact cover.
pub proof fn lemma_covers_point(bs: Seq<(int, int)>, start: int, end: int, w: int, a: int)
    requires
        covers_exactly(bs, start, end, w),
        start <= a <= end,
    ensures
        exists|i: int|
            0 <= i < bs.len() && (#[trigger] bs[i]).0 <= a <= block_end(bs[i].0, bs[i].1, w),
    decreases bs.len(),
{
    if a <= block_end(bs[0].0, bs[0].1, w) {
        assert(wf_block(bs[0], start, end, w));
        assert(bs[0].0 <= a <= block_end(bs[0].0, bs[0].1, w));
    } else {
        let start2 = block_end(bs[0].0, bs[0].1, w) + 1;
        let tail = bs.drop_first();
        assert(bs.len() >= 2) by {
            assert(block_end(bs[bs.len() - 1].0, bs[bs.len() - 1].1, w) == end);
        }
        assert(tail[0] == bs[1]);
        assert(bs[1].0 == start2);
        assert(covers_exactly(tail, start2, end, w)) by {
            assert forall|i: int| 0 <= i < tail.len() implies wf_block(
                #[trigger] tail[i],
                start2,
                end,
                w,
            ) by {
                assert(tail[i] == bs[i + 1]);
                assert(wf_block(bs[i + 1], start, end, w));
                lemma_blocks_ordered(bs, start, end, w, i + 1);
            }
            assert forall|i: int| 1 <= i < tail.len() implies (#[trigger] tail[i]).0
                == block_end(tail[i - 1].0, tail[i - 1].1, w) + 1 by {
                assert(tail[i] == bs[i + 1]);
                assert(tail[i - 1] == bs[i]);
                assert((#[trigger] bs[i + 1]).0 == block_end(bs[i].0, bs[i].1, w) + 1);
            }
        }
        lemma_covers_point(tail, start2, end, w, a);
        let j = choose|j: int|
            0 <= j < tail.len() && (#[trigger] tail[j]).0 <= a <= block_end(
                tail[j].0,
                tail[j].1,
                w,
            );
        assert(bs[j + 1].0 <= a <= block_end(bs[j + 1].0, bs[j + 1].1, w));
    }
}

/// The blocks of an exact cover do not overlap: every earlier block ends
/// strictly before a later block begins.
pub proof fn lemma_covers_disjoint(bs: Seq<(int, int)>, start: int, end: int, w: int, i: int, j: int)
    requires
        covers_exactly(bs, start, end, w),
        0 <= i < j < bs.len(),
    ensures
        block_end(bs[i].0, bs[i].1, w) < bs[j].0,
    decreases j - i,
{
    lemma_pow2_pos((w - bs[j - 1].1) as nat);
    assert(wf_block(bs[j - 1], start, end, w));
    assert((#[trigger] bs[j]).0 == block_end(bs[j - 1].0, bs[j - 1].1, w) + 1);
    if j > i + 1 {
        lemma_covers_disjoint(bs, start, end, w, i, j - 1);
    }
}

/// Later blocks of an exact cover start no earlier than any block's
/// successor position.
proof fn lemma_blocks_ordered(bs: Seq<(int, int)>, start: int, end: int, w: int, i: int)
    requires
        covers_exactly(bs, start, end, w),
        1 <= i < bs.len(),
    ensures
        bs[i].0 >= block_end(bs[0].0, bs[0].1, w) + 1,
    decreases i,
{
    if i == 1 {
        assert((#[trigger] bs[1]).0 == block_end(bs[0].0, bs[0].1, w) + 1);
    } else {
        lemma_blocks_ordered(bs, start, end, w, i - 1);
        assert((#[trigger] bs[i]).0 == block_end(bs[i - 1].0, bs[i - 1].1, w) + 1);
        lemma_pow2_pos((w - bs[i - 1].1) as nat);
        assert(wf_block(bs[i - 1], start, end, w));
    }
}

/// Partition maximality: no emitted block could be any larger. For each
/// block, no shorter prefix gives an aligned block at its base that still
/// stays within `end`.
pub proof fn lemma_partition_maximal(start: int, end: int, w: int)
    requires
        0 <= start <= end,
        1 <= w,
    ensures
        forall|i: int, q: int|
            0 <= i < spec_partition(start, end, w).len() && 0 <= q < spec_partition(
                start,
                end,
                w,
            )[i].1 ==> !(#[trigger] valid_prefix(spec_partition(start, end, w)[i].0, q, end, w)),
    decreases end - start,
{
    let p = best_prefix(start, end, w);
    lemma_best_prefix_from(start, end, w, 0);
    let be = block_end(start, p, w);
    lemma_pow2_pos((w - p) as nat);
    let bs = spec_partition(start, end, w);
    if be >= end {
        assert(bs =~= seq![(start, p)]);
    } else {
        lemma_partition_maximal(be + 1, end, w);
        let rest = spec_partition(be + 1, end, w);
        assert(bs =~= seq![(start, p)] + rest);
        assert forall|i: int, q: int|
            0 <= i < bs.len() && 0 <= q < bs[i].1 implies !(#[trigger] valid_prefix(
            bs[i].0,
            q,
            end,
            w,
        )) by {
            if i > 0 {
                assert(bs[i] == rest[i - 1]);
            }
        }
    }
}

/// Partition minimality: no two adjacent blocks of the decomposition can
/// be merged into one aligned block. No aligned block starting at a
/// block's base ends exactly where its successor ends.
pub proof fn lemma_partition_no_merge(start: int, end: int, w: int, i: int, q: int)
    requires
        0 <= start <= end,
        1 <= w,
        0 <= i < spec_partition(start, end, w).len() - 1,
        0 <= q <= w,
        block_aligned(spec_partition(start, end, w)[i].0, q, w),
    ensures
        block_end(spec_partition(start, end, w)[i].0, q, w) != block_end(
            spec_partition(start, end, w)[i + 1].0,
            spec_partition(start, end, w)[i + 1].1,
            w,
        ),
{
    let bs = spec_partition(start, end, w);
    lemma_partition_covers(start, end, w);
    lemma_partition_maximal(start, end, w);
    let b = bs[i];
    let succ_end = block_end(bs[i + 1].0, bs[i + 1].1, w);
    if block_end(b.0, q, w) == succ_end {
        assert(wf_block(bs[i + 1], start, end, w));
        assert(block_fits(b.0, q, end, w));
        assert(valid_prefix(b.0, q, end, w));
        assert(q >= b.1);
        // a prefix at least as long gives a block no larger, so it cannot
        // reach past the successor's base
        if q > b.1 {
            lemma_pow2_strictly_increases((w - q) as nat, (w - b.1) as nat);
        }
        assert(block_size(q, w) <= block_size(b.1, w));
        assert((#[trigger] bs[i + 1]).0 == block_end(bs[i].0, bs[i].1, w) + 1);
        lemma_pow2_pos((w - bs[i + 1].1) as nat);
        assert(succ_end > block_end(b.0, b.1, w));
        assert(block_end(b.0, q, w) <= block_end(b.0, b.1, w));
    }
}

/// One aligned IPv4 CIDR block: a 32-bit base address and a prefix length.
#[derive(Clone, Copy, Debug, PartialEq, Eq, Structural)]
pub struct CidrBlockV4 {
    pub base: u32,
    pub prefix: u8,
}

impl CidrBlockV4 {
    /// The mathematical pair the block stands for.
    pub open spec fn model(self) -> (int, int) {
        (self.base as int, self.prefix as int)
    }
}

/// One aligned IPv6 CIDR block: a 128-bit base address and a prefix length.
#[derive(Clone, Copy, Debug, PartialEq, Eq, Structural)]
pub struct CidrBlockV6 {
    pub base: u128,
    pub prefix: u8,
}

impl CidrBlockV6 {
    /// The mathematical pair the block stands for.
    pub open spec fn model(self) -> (int, int) {
        (self.base as int, self.prefix as int)
    }
}

/// The mathematical pairs a block sequence stands for.
pub open spec fn blocks_model_v4(s: Seq<CidrBlockV4>) -> Seq<(int, int)> {
    s.map_values(|b: CidrBlockV4| b.model())
}

/// The mathematical pairs a block sequence stands for.
pub open spec fn blocks_model_v6(s: Seq<CidrBlockV6>) -> Seq<(int, int)> {
    s.map_values(|b: CidrBlockV6| b.model())
}

/// `2^e` as a 32-bit value.
fn pow2_u32(e: u32) -> (r: u32)
    requires
        e < 32,
    ensures
        r == pow2(e as nat),
{
    proof {
        lemma2_to64();
    }
    let mut r: u32 = 1;
    let mut j: u32 = 0;
    while j < e
        invariant
            0 <= j <= e < 32,
            r == pow2(j as nat),
        decreases e - j,
    {
        proof {
            lemma2_to64();
            lemma_pow2_adds(j as nat, 1);
            if j as nat + 1 < 31 {
                lemma_pow2_strictly_increases(j as nat + 1, 31);
            }
        }
        r = r * 2;
        j += 1;
    }
    r
}

/// `2^e` as a 128-bit value.
fn pow2_u128(e: u32) -> (r: u128)
    requires
        e < 128,
    ensures
        r == pow2(e as nat),
{
    proof {
        lemma2_to64();
    }
    let mut r: u128 = 1;
    let mut j: u32 = 0;
    while j < e
        invariant
            0 <= j <= e < 128,
            r == pow2(j as nat),
        decreases e - j,
    {
        proof {
            lemma2_to64();
            lemma2_to64_rest();
            lemma_pow2_adds(j as nat, 1);
            lemma_pow2_adds(64, 63);
            if j as nat + 1 < 127 {
                lemma_pow2_strictly_increases(j as nat + 1, 127);
            }
        }
        r = r * 2;
        j += 1;
    }
    r
}

/// Is `p` an aligned, fitting prefix for the block at `cur` within `end`?
fn prefix_valid_v4(cur: u32, end: u32, p: u8) -> (r: bool)
    requires
        1 <= p <= 32,
        cur <= end,
    ensures
        r == valid_prefix(cur as int, p as int, end as int, 32),
{
    let size = pow2_u32(32 - p as u32);
    proof {
        lemma_pow2_pos((32 - p) as nat);
    }
    cur % size == 0 && size - 1 <= end - cur
}

/// Is `p` an aligned, fitting prefix for the block at `cur` within `end`?
fn prefix_valid_v6(cur: u128, end: u128, p: u8) -> (r: bool)
    requires
        1 <= p <= 128,
        cur <= end,
    ensures
        r == valid_prefix(cur as int, p as int, end as int, 128),
{
    let size = pow2_u128(128 - p as u32);
    proof {
        lemma_pow2_pos((128 - p) as nat);
    }
    cur % size == 0 && size - 1 <= end - cur
}

/// A prefix of zero is valid only for the full address space.
proof fn lemma_valid_prefix_zero(cur: int, end: int, w: int)
    requires
        1 <= w,
        0 <= cur <= end < pow2(w as nat),
    ensures
        valid_prefix(cur, 0, end, w) <==> (cur == 0 && end == pow2(w as nat) - 1),
{
    assert(block_size(0, w) == pow2(w as nat));
    if cur == 0 && end == pow2(w as nat) - 1 {
        lemma_pow2_pos(w as nat);
        lemma_small_mod(0, pow2(w as nat));
    }
    if valid_prefix(cur, 0, end, w) {
        lemma_pow2_pos(w as nat);
        lemma_small_mod(cur as nat, pow2(w as nat));
    }
}

/// The largest aligned block at `cur` staying within `end`, executable.
fn best_prefix_v4(cur: u32, end: u32) -> (p: u8)
    requires
        cur <= end,
    ensures
        p as int == best_prefix(cur as int, end as int, 32),
        p <= 32,
{
    proof {
        lemma2_to64();
        lemma_valid_prefix_zero(cur as int, end as int, 32);
        lemma_best_prefix_from(cur as int, end as int, 32, 0);
    }
    if cur == 0 && end == u32::MAX {
        return 0;
    }
    let mut p: u8 = 1;
    loop
        invariant
            1 <= p <= 32,
            cur <= end,
            best_prefix(cur as int, end as int, 32) == best_prefix_from(
                cur as int,
                end as int,
                32,
                p as int,
            ),
        decreases 32 - p,
    {
        if prefix_valid_v4(cur, end, p) {
            return p;
        }
        proof {
            lemma2_to64();
            if p == 32 {
                assert(block_size(32, 32) == 1);
                assert(cur as int % 1 == 0);
                assert(valid_prefix(cur as int, 32, end as int, 32));
            }
        }
        p += 1;
    }
}

/// The largest aligned block at `cur` staying within `end`, executable.
fn best_prefix_v6(cur: u128, end: u128) -> (p: u8)
    requires
        cur <= end,
    ensures
        p as int == best_prefix(cur as int, end as int, 128),
        p <= 128,
{
    proof {
        lemma2_to64();
        lemma_pow2_adds(64, 64);
        lemma_valid_prefix_zero(cur as int, end as int, 128);
        lemma_best_prefix_from(cur as int, end as int, 128, 0);
    }
    if cur == 0 && end == u128::MAX {
        return 0;
    }
    let mut p: u8 = 1;
    loop
        invariant
            1 <= p <= 128,
            cur <= end,
            best_prefix(cur as int, end as int, 128) == best_prefix_from(
                cur as int,
                end as int,
                128,
                p as int,
            ),
        decreases 128 - p,
    {
        if prefix_valid_v6(cur, end, p) {
            return p;
        }
        proof {
            lemma2_to64();
            if p == 128 {
                assert(block_size(128, 128) == 1);
                assert(cur as int % 1 == 0);
                assert(valid_prefix(cur as int, 128, end as int, 128));
            }
        }
        p += 1;
    }
}

/// Decomposes `[start, end]` into the minimal ordered sequence of aligned
/// CIDR blocks covering it exactly, or `InvalidRange` when `start > end`.
pub fn partition_to_cidr(start: u32, end: u32) -> (r: Result<Vec<CidrBlockV4>, IpError>)
    ensures
        match r {
            Ok(bs) => start <= end && blocks_model_v4(bs@) == spec_partition(
                start as int,
                end as int,
                32,
            ),
            Err(e) => start > end && e == IpError::InvalidRange,
        },
{
    if start > end {
        return Err(IpError::InvalidRange);
    }
    let mut blocks: Vec<CidrBlockV4> = Vec::new();
    let mut cur: u32 = start;
    let mut done: bool = false;
    while !done
        invariant
            start <= cur <= end,
            done ==> spec_partition(start as int, end as int, 32) == blocks_model_v4(blocks@),
            !done ==> spec_partition(start as int, end as int, 32) == blocks_model_v4(blocks@)
                + spec_partition(cur as int, end as int, 32),
        decreases end - cur, (if done { 0int } else { 1int }),
    {
        let p = best_prefix_v4(cur, end);
        proof {
            lemma_best_prefix_from(cur as int, end as int, 32, 0);
            lemma2_to64();
        }
        let ghost prev = blocks_model_v4(blocks@);
        blocks.push(CidrBlockV4 { base: cur, prefix: p });
        proof {
            assert(blocks_model_v4(blocks@) =~= prev.push((cur as int, p as int)));
        }
        if p == 0 {
            proof {
                assert(block_end(cur as int, 0, 32) >= end as int);
                assert(spec_partition(cur as int, end as int, 32) =~= seq![
                    (cur as int, 0int),
                ]);
                assert(blocks_model_v4(blocks@) =~= prev + spec_partition(
                    cur as int,
                    end as int,
                    32,
                ));
            }
            done = true;
        } else {
            let size = pow2_u32(32 - p as u32);
            proof {
                lemma_pow2_pos((32 - p) as nat);
            }
            let bend = cur + (size - 1);
            assert(bend as int == block_end(cur as int, p as int, 32));
            if bend == end {
                proof {
                    assert(spec_partition(cur as int, end as int, 32) =~= seq![
                        (cur as int, p as int),
                    ]);
                    assert(blocks_model_v4(blocks@) =~= prev + spec_partition(
                        cur as int,
                        end as int,
                        32,
                    ));
                }
                done = true;
            } else {
                proof {
                    assert(spec_partition(cur as int, end as int, 32) =~= seq![
                        (cur as int, p as int),
                    ] + spec_partition(bend as int + 1, end as int, 32));
                    assert(blocks_model_v4(blocks@) + spec_partition(
                        bend as int + 1,
                        end as int,
                        32,
                    ) =~= prev + spec_partition(cur as int, end as int, 32));
                }
                cur = bend + 1;
            }
        }
    }
    Ok(blocks)
}

/// Decomposes `[start, end]` into the minimal ordered sequence of aligned
/// CIDR blocks covering it exactly, or `InvalidRange` when `start > end`.
pub fn partition_to_cidr_v6(start: u128, end: u128) -> (r: Result<Vec<CidrBlockV6>, IpError>)
    ensures
        match r {
            Ok(bs) => start <= end && blocks_model_v6(bs@) == spec_partition(
                start as int,
                end as int,
                128,
            ),
            Err(e) => start > end && e == IpError::InvalidRange,
        },
{
    if start > end {
        return Err(IpError::InvalidRange);
    }
    let mut blocks: Vec<CidrBlockV6> = Vec::new();
    let mut cur: u128 = start;
    let mut done: bool = false;
    while !done
        invariant
            start <= cur <= end,
            done ==> spec_partition(start as int, end as int, 128) == blocks_model_v6(blocks@),
            !done ==> spec_partition(start as int, end as int, 128) == blocks_model_v6(blocks@)
                + spec_partition(cur as int, end as int, 128),
        decreases end - cur, (if done { 0int } else { 1int }),
    {
        let p = best_prefix_v6(cur, end);
        proof {
            lemma_best_prefix_from(cur as int, end as int, 128, 0);
            lemma2_to64();
            lemma_pow2_adds(64, 64);
        }
        let ghost prev = blocks_model_v6(blocks@);
        blocks.push(CidrBlockV6 { base: cur, prefix: p });
        proof {
            assert(blocks_model_v6(blocks@) =~= prev.push((cur as int, p as int)));
        }
        if p == 0 {
            proof {
                assert(block_end(cur as int, 0, 128) >= end as int);
                assert(spec_partition(cur as int, end as int, 128) =~= seq![
                    (cur as int, 0int),
                ]);
                assert(blocks_model_v6(blocks@) =~= prev + spec_partition(
                    cur as int,
                    end as int,
                    128,
                ));
            }
            done = true;
        } else {
            let size = pow2_u128(128 - p as u32);
            proof {
                lemma_pow2_pos((128 - p) as nat);
            }
            let bend = cur + (size - 1);
            assert(bend as int == block_end(cur as int, p as int, 128));
            if bend == end {
                proof {
                    assert(spec_partition(cur as int, end as int, 128) =~= seq![
                        (cur as int, p as int),
                    ]);
                    assert(blocks_model_v6(blocks@) =~= prev + spec_partition(
                        cur as int,
                        end as int,
                        128,
                    ));
                }
                done = true;
            } else {
                proof {
                    assert(spec_partition(cur as int, end as int, 128) =~= seq![
                        (cur as int, p as int),
                    ] + spec_partition(bend as int + 1, end as int, 128));
                    assert(blocks_model_v6(blocks@) + spec_partition(
                        bend as int + 1,
                        end as int,
                        128,
                    ) =~= prev + spec_partition(cur as int, end as int, 128));
                }
                cur = bend + 1;
            }
        }
    }
    Ok(blocks)
}

/// The search finds exactly `p` when `p` is valid and nothing shorter is.
proof fn lemma_best_prefix_exact(base: int, end: int, w: int, p0: int, p: int)
    requires
        0 <= p0 <= p <= w,
        valid_prefix(base, p, end, w),
        forall|q: int| p0 <= q < p ==> !valid_prefix(base, q, end, w),
    ensures
        best_prefix_from(base, end, w, p0) == p,
    decreases p - p0,
{
    if p0 < p {
        lemma_best_prefix_exact(base, end, w, p0 + 1, p);
    }
}

/// The netmask of prefix `p`: `p` leading one bits followed by `w - p`
/// zero bits, as a number.
pub open spec fn mask_val(p: int, w: int) -> int {
    (pow2(p as nat) - 1) * pow2((w - p) as nat)
}

/// The first address of the prefix-`p` block containing `ip`: the address
/// with the low `w - p` bits cleared.
pub open spec fn cidr_start(ip: int, p: int, w: int) -> int {
    ip - ip % block_size(p, w)
}

/// The last address of the prefix-`p` block containing `ip`.
pub open spec fn cidr_end(ip: int, p: int, w: int) -> int {
    cidr_start(ip, p, w) + block_size(p, w) - 1
}

/// The block's address count, with 0 standing for the whole space: the
/// true count at prefix 0, `2^w`, does not fit the `w`-bit result.
pub open spec fn count_val(p: int, w: int) -> int {
    if p == 0 {
        0
    } else {
        block_size(p, w)
    }
}

/// The block around `ip` lies inside the `w`-bit space, and the mask
/// complements the block size to the top of the space.
proof fn lemma_cidr_bounds(ip: int, p: int, w: int)
    requires
        1 <= p <= w,
        0 <= ip < pow2(w as nat),
    ensures
        0 <= cidr_start(ip, p, w) <= ip,
        cidr_end(ip, p, w) < pow2(w as nat),
        cidr_start(ip, p, w) % block_size(p, w) == 0,
        mask_val(p, w) == pow2(w as nat) - block_size(p, w),
{
    let size = block_size(p, w);
    lemma_pow2_pos((w - p) as nat);
    lemma_pow2_pos(p as nat);
    lemma_mod_bound(ip, size);
    lemma_mod_decreases(ip as nat, size as nat);
    lemma_fundamental_div_mod(ip, size);
    let q = ip / size;
    assert(cidr_start(ip, p, w) == q * size);
    lemma_pow2_adds(p as nat, (w - p) as nat);
    assert(pow2(p as nat) * pow2((w - p) as nat) == pow2(w as nat));
    assert(ip < pow2(p as nat) * size);
    lemma_multiply_divide_lt(ip, size, pow2(p as nat) as int);
    assert(q < pow2(p as nat));
    assert(q * size <= (pow2(p as nat) - 1) * size) by (nonlinear_arith)
        requires
            q <= pow2(p as nat) - 1,
            size >= 1,
    ;
    assert((pow2(p as nat) - 1) * size == pow2(p as nat) * size - size) by (nonlinear_arith);
    assert(q * size % size == 0) by {
        vstd::arithmetic::div_mod::lemma_mod_multiples_basic(q, size);
    }
}

/// The numeric view of a CIDR block in the 32-bit space: first address,
/// last address, netmask, and count, exactly as the specification
/// functions state them.
pub fn cidr_bounds_v4(ip: u32, p: u8) -> (r: (u32, u32, u32, u32))
    requires
        p <= 32,
    ensures
        r.0 == cidr_start(ip as int, p as int, 32),
        r.1 == cidr_end(ip as int, p as int, 32),
        r.2 == mask_val(p as int, 32),
        r.3 == count_val(p as int, 32),
{
    proof {
        lemma2_to64();
        lemma2_to64_rest();
    }
    if p == 0 {
        proof {
            assert(block_size(0, 32) == pow2(32));
            lemma_small_mod(ip as nat, pow2(32));
            assert(cidr_start(ip as int, 0, 32) == 0);
            assert(mask_val(0, 32) == 0) by {
                assert(pow2(0) == 1);
            }
        }
        (0, u32::MAX, 0, 0)
    } else {
        let size = pow2_u32(32 - p as u32);
        proof {
            lemma_cidr_bounds(ip as int, p as int, 32);
            lemma_pow2_pos((32 - p) as nat);
        }
        let st = ip - ip % size;
        let en = st + (size - 1);
        let mask = u32::MAX - (size - 1);
        (st, en, mask, size)
    }
}

/// The numeric view of a CIDR block in the 128-bit space: first address,
/// last address, netmask, and count, exactly as the specification
/// functions state them.
pub fn cidr_bounds_v6(ip: u128, p: u8) -> (r: (u128, u128, u128, u128))
    requires
        p <= 128,
    ensures
        r.0 == cidr_start(ip as int, p as int, 128),
        r.1 == cidr_end(ip as int, p as int, 128),
        r.2 == mask_val(p as int, 128),
        r.3 == count_val(p as int, 128),
{
    proof {
        lemma2_to64();
        lemma_pow2_adds(64, 64);
    }
    if p == 0 {
        proof {
            assert(block_size(0, 128) == pow2(128));
            lemma_small_mod(ip as nat, pow2(128));
            assert(cidr_start(ip as int, 0, 128) == 0);
            assert(mask_val(0, 128) == 0) by {
                assert(pow2(0) == 1);
            }
        }
        (0, u128::MAX, 0, 0)
    } else {
        let size = pow2_u128(128 - p as u32);
        proof {
            lemma_cidr_bounds(ip as int, p as int, 128);
            lemma_pow2_pos((128 - p) as nat);
        }
        let st = ip - ip % size;
        let en = st + (size - 1);
        let mask = u128::MAX - (size - 1);
        (st, en, mask, size)
    }
}

/// Inverse consistency: one aligned block partitions to exactly itself.
pub proof fn lemma_partition_single_block(base: int, p: int, w: int)
    requires
        0 <= base,
        0 <= p <= w,
        1 <= w,
        block_aligned(base, p, w),
    ensures
        spec_partition(base, block_end(base, p, w), w) =~= seq![(base, p)],
{
    let end = block_end(base, p, w);
    lemma_pow2_pos((w - p) as nat);
    assert forall|q: int| 0 <= q < p implies !valid_prefix(base, q, end, w) by {
        lemma_pow2_strictly_increases((w - p) as nat, (w - q) as nat);
        assert(block_end(base, q, w) > end);
    }
    assert(valid_prefix(base, p, end, w));
    lemma_best_prefix_exact(base, end, w, 0, p);
    assert(best_prefix(base, end, w) == p);
}

} // verus!
