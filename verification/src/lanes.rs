//! Scans in the manner of vector units: 16-bit lanes, four running sums per block.
//!
//! A register of `L` lanes loads `2 * L` bytes of codes and as many of tables at
//! the same offset, so every byte is looked up in the table of its own 16-byte
//! group. Two neighbouring results share a lane: one running sum adds whole lanes
//! (and so mixes both), another adds the upper bytes alone, and at the end the
//! upper bytes are taken out of the first. All sums wrap at 16 bits.

use vstd::prelude::*;

use crate::codes::BLOCK_WIDTH;
use crate::rabitq_fast_scan_kernels::{packed_index, scan_sum, slot_of};

verus! {

/// The table entry that byte `x` of the block at `base` selects, with its high or
/// its low four bits.
spec fn looked_up(packed: Seq<u8>, luts: Seq<u8>, base: int, x: int, high: bool) -> int {
    let byte = packed[base + x] as int;
    luts[16 * (x / 16) + (if high {
        byte / 16
    } else {
        byte % 16
    })] as int
}

/// Sum of what bytes `x`, `x + stride`, ... select, `n` of them.
#[verifier::opaque]
spec fn strided_sum(
    packed: Seq<u8>,
    luts: Seq<u8>,
    base: int,
    high: bool,
    stride: int,
    x: int,
    n: int,
) -> int
    decreases n,
{
    if n <= 0 {
        0
    } else {
        strided_sum(packed, luts, base, high, stride, x, n - 1) + looked_up(
            packed,
            luts,
            base,
            stride * (n - 1) + x,
            high,
        )
    }
}

/// Two 16-byte groups per step add up to every group.
proof fn lemma_two_groups(
    packed: Seq<u8>,
    luts: Seq<u8>,
    base: int,
    high: bool,
    s: int,
    n: int,
)
    requires
        0 <= n,
    ensures
        strided_sum(packed, luts, base, high, 16, s, 2 * n) == strided_sum(
            packed,
            luts,
            base,
            high,
            32,
            s,
            n,
        ) + strided_sum(packed, luts, base, high, 32, s + 16, n),
    decreases n,
{
    reveal_with_fuel(strided_sum, 3);
    if n > 0 {
        lemma_two_groups(packed, luts, base, high, s, n - 1);
    }
}

/// Four 16-byte groups per step add up to every group.
proof fn lemma_four_groups(
    packed: Seq<u8>,
    luts: Seq<u8>,
    base: int,
    high: bool,
    s: int,
    n: int,
)
    requires
        0 <= n,
    ensures
        strided_sum(packed, luts, base, high, 16, s, 4 * n) == strided_sum(
            packed,
            luts,
            base,
            high,
            64,
            s,
            n,
        ) + strided_sum(packed, luts, base, high, 64, s + 16, n) + strided_sum(
            packed,
            luts,
            base,
            high,
            64,
            s + 32,
            n,
        ) + strided_sum(packed, luts, base, high, 64, s + 48, n),
    decreases n,
{
    reveal_with_fuel(strided_sum, 5);
    if n > 0 {
        lemma_four_groups(packed, luts, base, high, s, n - 1);
    }
}

/// The groups of a block give the scan of its vectors.
proof fn lemma_groups_are_scan(
    packed: Seq<u8>,
    luts: Seq<u8>,
    cols: int,
    block: int,
    lane: int,
    n: int,
)
    requires
        0 <= lane < 32,
        0 <= block,
        0 <= n,
    ensures
        scan_sum(packed, luts, cols, 32 * block + lane, n) == strided_sum(
            packed,
            luts,
            block * cols * 32,
            lane >= 16,
            16,
            slot_of(lane % 16),
            n,
        ),
    decreases n,
{
    reveal(strided_sum);
    if n > 0 {
        lemma_groups_are_scan(packed, luts, cols, block, lane, n - 1);
        let v = 32 * block + lane;
        let k = n - 1;
        assert(v / 32 == block && v % 32 == lane && v % 16 == lane % 16);
        assert(0 <= slot_of(lane % 16) < 16);
        assert(packed_index(cols, v, k) == block * cols * 32 + (16 * k + slot_of(lane % 16)));
        assert((16 * k + slot_of(lane % 16)) / 16 == k);
    }
}

/// A sum as a 16-bit lane holds it.
#[verifier::opaque]
spec fn wrapped(x: int) -> int {
    x % 65536
}

/// Wrapped sums may be added up and wrapped again.
proof fn lemma_wrapped_sum(a: int, b: int)
    ensures
        wrapped(wrapped(a) + b) == wrapped(a + b),
        wrapped(wrapped(a) + wrapped(b)) == wrapped(a + b),
{
    reveal(wrapped);
}

/// Taking out a multiple of 256 that was mixed in.
proof fn lemma_unmix(even: int, odd: int)
    ensures
        wrapped(wrapped(even + 256 * odd) - wrapped(256 * wrapped(odd))) == wrapped(even),
{
    reveal(wrapped);
}

/// Adds two lanes, wrapping at 16 bits.
fn lane_add(x: u16, y: u16) -> (r: u16)
    ensures
        r == wrapped(x + y),
{
    reveal(wrapped);
    x.wrapping_add(y)
}

/// Takes the upper bytes, summed in `upper`, out of the sum of whole lanes.
fn lane_unmix(pairs: u16, upper: u16) -> (r: u16)
    ensures
        r == wrapped(pairs - wrapped(256 * upper)),
{
    reveal(wrapped);
    assert(upper << 8 == (upper * 256) % 65536) by (bit_vector);
    pairs.wrapping_sub(upper << 8)
}

/// The table entries that bytes `at` and `at + 1` of the block at `base` select.
fn look_up_pair(packed: &[u8], luts: &[u8], base: usize, at: usize, high: bool) -> (pair: (u8, u8))
    requires
        at % 2 == 0,
        base + at + 1 < packed.len(),
        at / 16 * 16 + 16 <= luts.len(),
    ensures
        pair.0 == looked_up(packed@, luts@, base as int, at as int, high),
        pair.1 == looked_up(packed@, luts@, base as int, at + 1, high),
{
    let byte0 = packed[base + at];
    let byte1 = packed[base + at + 1];
    let table = at / 16 * 16;
    assert((at + 1) / 16 == at / 16);
    proof {
        lemma_nibbles(byte0);
        lemma_nibbles(byte1);
    }
    if high {
        (luts[table + (byte0 >> 4) as usize], luts[table + (byte1 >> 4) as usize])
    } else {
        (luts[table + (byte0 & 15) as usize], luts[table + (byte1 & 15) as usize])
    }
}

proof fn lemma_nibbles(b: u8)
    ensures
        b >> 4 == b / 16,
        b & 15 == b % 16,
        b >> 4 < 16,
        b & 15 < 16,
{
    assert(b >> 4 == b / 16 && b & 15 == b % 16) by (bit_vector);
}

/// Steps of whole 16-byte groups stay within `n` steps.
proof fn lemma_step_fits(stride: int, x: int, i: int, n: int)
    requires
        0 <= i < n,
        0 <= x,
        x + 1 < stride,
        x % 2 == 0,
        stride % 16 == 0,
    ensures
        0 <= stride * i,
        stride * i + stride <= stride * n,
        (stride * i + x) % 2 == 0,
        (stride * i + x) / 16 * 16 + 16 <= stride * n,
{
    let c = stride / 16;
    assert(stride * i == 16 * (c * i) && stride * n == 16 * (c * n) && stride * i + stride <= stride
        * n && 0 <= stride * i) by (nonlinear_arith)
        requires
            stride == 16 * c,
            0 <= c,
            0 <= i,
            i + 1 <= n,
    ;
}

/// Runs one 16-bit lane over the block at `base`, `n` steps of `stride` bytes:
/// the sums (wrapping at 16 bits) of what its lower and its upper byte select.
fn lane_sums(
    packed: &[u8],
    luts: &[u8],
    base: usize,
    high: bool,
    stride: usize,
    x: usize,
    n: usize,
) -> (sums: (u16, u16))
    requires
        base + stride * n <= packed.len(),
        stride * n <= luts.len(),
        x + 1 < stride,
        x % 2 == 0,
        stride % 16 == 0,
    ensures
        sums.0 == wrapped(
            strided_sum(
                packed@,
                luts@,
                base as int,
                high,
                stride as int,
                x as int,
                n as int,
            ),
        ),
        sums.1 == wrapped(
            strided_sum(packed@, luts@, base as int, high, stride as int, x + 1, n as int),
        ),
{
    let mut pairs: u16 = 0;
    let mut upper: u16 = 0;
    let ghost mut even: int = 0;
    let ghost mut odd: int = 0;
    proof {
        reveal(strided_sum);
        reveal(wrapped);
    }
    for i in 0..n
        invariant
            base + stride * n <= packed.len(),
            stride * n <= luts.len(),
            x + 1 < stride,
            x % 2 == 0,
            stride % 16 == 0,
            even == strided_sum(
                packed@,
                luts@,
                base as int,
                high,
                stride as int,
                x as int,
                i as int,
            ),
            odd == strided_sum(
                packed@,
                luts@,
                base as int,
                high,
                stride as int,
                x + 1,
                i as int,
            ),
            pairs == wrapped(even + 256 * odd),
            upper == wrapped(odd),
    {
        proof {
            lemma_step_fits(stride as int, x as int, i as int, n as int);
            reveal(strided_sum);
        }
        let (first, second) = look_up_pair(packed, luts, base, stride * i + x, high);
        let lane: u16 = first as u16 + 256 * second as u16;
        assert(lane >> 8 == lane / 256) by (bit_vector);
        pairs = lane_add(pairs, lane);
        upper = lane_add(upper, lane >> 8);
        proof {
            lemma_wrapped_sum(even + 256 * odd, lane as int);
            lemma_wrapped_sum(odd, second as int);
            even = even + first;
            odd = odd + second;
        }
    }
    proof {
        lemma_unmix(even, odd);
    }
    (lane_unmix(pairs, upper), upper)
}

/// What a scan leaves for vector `v` in a 16-bit lane.
#[verifier::opaque]
spec fn wrapped_scan(packed: Seq<u8>, luts: Seq<u8>, cols: int, v: int) -> int {
    wrapped(scan_sum(packed, luts, cols, v, 2 * cols))
}

/// The sums of every 16-byte group of a block for bytes `2u` and `2u + 1`, with
/// registers that step over two groups at a time.
fn narrow_sums(
    packed: &[u8],
    luts: &[u8],
    base: usize,
    high: bool,
    u: usize,
    cols: usize,
) -> (sums: (u16, u16))
    requires
        base + 32 * cols <= packed.len(),
        32 * cols <= luts.len(),
        u < 8,
    ensures
        sums.0 == wrapped(
            strided_sum(packed@, luts@, base as int, high, 16, 2 * u as int, 2 * cols as int),
        ),
        sums.1 == wrapped(
            strided_sum(packed@, luts@, base as int, high, 16, 2 * u + 1, 2 * cols as int),
        ),
{
    let (a0, b0) = lane_sums(packed, luts, base, high, 32, 2 * u, cols);
    let (a1, b1) = lane_sums(packed, luts, base, high, 32, 2 * u + 16, cols);
    proof {
        lemma_two_groups(packed@, luts@, base as int, high, 2 * u as int, cols as int);
        lemma_two_groups(packed@, luts@, base as int, high, 2 * u + 1, cols as int);
        let sum_at = |x: int| strided_sum(packed@, luts@, base as int, high, 32, x, cols as int);
        let e = 2 * u as int;
        lemma_wrapped_sum(sum_at(e), sum_at(e + 16));
        lemma_wrapped_sum(sum_at(e + 1), sum_at(e + 17));
    }
    (lane_add(a0, a1), lane_add(b0, b1))
}

/// As `narrow_sums`, with registers that step over four groups at a time.
fn wide_sums(
    packed: &[u8],
    luts: &[u8],
    base: usize,
    high: bool,
    u: usize,
    steps: usize,
) -> (sums: (u16, u16))
    requires
        base + 64 * steps <= packed.len(),
        64 * steps <= luts.len(),
        u < 8,
    ensures
        sums.0 == wrapped(
            strided_sum(packed@, luts@, base as int, high, 16, 2 * u as int, 4 * steps as int),
        ),
        sums.1 == wrapped(
            strided_sum(packed@, luts@, base as int, high, 16, 2 * u + 1, 4 * steps as int),
        ),
{
    let (a0, b0) = lane_sums(packed, luts, base, high, 64, 2 * u, steps);
    let (a1, b1) = lane_sums(packed, luts, base, high, 64, 2 * u + 16, steps);
    let (a2, b2) = lane_sums(packed, luts, base, high, 64, 2 * u + 32, steps);
    let (a3, b3) = lane_sums(packed, luts, base, high, 64, 2 * u + 48, steps);
    proof {
        lemma_four_groups(packed@, luts@, base as int, high, 2 * u as int, steps as int);
        lemma_four_groups(packed@, luts@, base as int, high, 2 * u + 1, steps as int);
        let sum_at = |x: int| strided_sum(packed@, luts@, base as int, high, 64, x, steps as int);
        let e = 2 * u as int;
        lemma_wrapped_sum(sum_at(e), sum_at(e + 32));
        lemma_wrapped_sum(sum_at(e + 16), sum_at(e + 48));
        lemma_wrapped_sum(sum_at(e) + sum_at(e + 32), sum_at(e + 16) + sum_at(e + 48));
        lemma_wrapped_sum(sum_at(e + 1), sum_at(e + 33));
        lemma_wrapped_sum(sum_at(e + 17), sum_at(e + 49));
        lemma_wrapped_sum(sum_at(e + 1) + sum_at(e + 33), sum_at(e + 17) + sum_at(e + 49));
    }
    (lane_add(lane_add(a0, a2), lane_add(a1, a3)), lane_add(lane_add(b0, b2), lane_add(b1, b3)))
}

/// The groups of a block give the scans of two of its vectors.
proof fn lemma_pair_of_block(
    packed: Seq<u8>,
    luts: Seq<u8>,
    cols: int,
    block: int,
    u: int,
    high: bool,
)
    requires
        0 <= block,
        0 <= cols,
        0 <= u < 8,
    ensures
        ({
            let first = 32 * block + u + (if high {
                16int
            } else {
                0
            });
            let base = block * cols * 32;
            &&& wrapped_scan(packed, luts, cols, first) == wrapped(
                strided_sum(packed, luts, base, high, 16, 2 * u, 2 * cols),
            )
            &&& wrapped_scan(packed, luts, cols, first + 8) == wrapped(
                strided_sum(packed, luts, base, high, 16, 2 * u + 1, 2 * cols),
            )
        }),
{
    reveal(wrapped_scan);
    let lane: int = if high {
        u + 16
    } else {
        u
    };
    assert(slot_of(lane % 16) == 2 * u && slot_of((lane + 8) % 16) == 2 * u + 1);
    lemma_groups_are_scan(packed, luts, cols, block, lane, 2 * cols);
    lemma_groups_are_scan(packed, luts, cols, block, lane + 8, 2 * cols);
}

/// The results for two vectors of a block, eight places apart: `u` and `u + 8`, or
/// with `high` the two that are 16 places later.
fn group_sums(
    packed: &[u8],
    luts: &[u8],
    block: usize,
    high: bool,
    u: usize,
    cols: usize,
    wide: bool,
) -> (sums: (u16, u16))
    requires
        block * cols * 32 + 32 * cols <= packed.len(),
        32 * cols <= luts.len(),
        u < 8,
        wide ==> cols % 2 == 0,
    ensures
        !high ==> sums.0 == wrapped_scan(packed@, luts@, cols as int, 32 * block + u),
        !high ==> sums.1 == wrapped_scan(packed@, luts@, cols as int, 32 * block + 8 + u),
        high ==> sums.0 == wrapped_scan(packed@, luts@, cols as int, 32 * block + 16 + u),
        high ==> sums.1 == wrapped_scan(packed@, luts@, cols as int, 32 * block + 24 + u),
{
    proof {
        assert(0 <= block * cols) by (nonlinear_arith)
            requires
                0 <= block,
                0 <= cols,
        ;
        lemma_pair_of_block(packed@, luts@, cols as int, block as int, u as int, high);
    }
    let base = block * cols * 32;
    if wide {
        wide_sums(packed, luts, base, high, u, cols / 2)
    } else {
        narrow_sums(packed, luts, base, high, u, cols)
    }
}

/// Fills the 32 results of one block.
fn accumulate_one_block<const B: usize>(
    packed: &[u8],
    luts: &[u8],
    n_blocks: usize,
    block: usize,
    wide: bool,
    results: &mut [u16],
)
    requires
        block < n_blocks,
        packed@.len() == n_blocks * (B as nat / 8 * 32),
        luts@.len() == (B as nat / 4) * 16,
        old(results)@.len() == 32 * n_blocks,
        wide ==> B % 16 == 0,
    ensures
        final(results)@.len() == old(results)@.len(),
        forall|v: int|
            0 <= v < 32 * block || 32 * block + 32 <= v < 32 * n_blocks ==> final(results)@[v]
                == old(results)@[v],
        forall|v: int|
            32 * block <= v < 32 * block + 32 ==> #[trigger] final(results)@[v] as int == scan_sum(
                packed@,
                luts@,
                B as int / 8,
                v,
                2 * (B as int / 8),
            ) % 65536,
{
    let cols = B / 8;
    let ghost before = results@;
    proof {
        assert(block * cols * 32 + cols * 32 <= packed@.len() && block * cols >= 0)
            by (nonlinear_arith)
            requires
                0 <= block,
                0 <= cols,
                block + 1 <= n_blocks,
                packed@.len() == n_blocks * (cols * 32),
        ;
        assert(packed.len() == packed@.len());
    }
    for u in 0..8usize
        invariant
            cols == B / 8,
            wide ==> B % 16 == 0,
            block < n_blocks,
            block * cols * 32 + 32 * cols <= packed.len(),
            luts@.len() == (B as nat / 4) * 16,
            results@.len() == 32 * n_blocks,
            results.len() == results@.len(),
            before.len() == 32 * n_blocks,
            forall|v: int|
                0 <= v < 32 * block || 32 * block + 32 <= v < 32 * n_blocks ==> results@[v]
                    == before[v],
            forall|v: int|
                32 * block <= v < 32 * block + 32 && (v - 32 * block) % 8 < u
                    ==> #[trigger] results@[v] == wrapped_scan(packed@, luts@, cols as int, v),
    {
        assert(32 * cols <= luts.len());
        let (low0, low1) = group_sums(packed, luts, block, false, u, cols, wide);
        let (high0, high1) = group_sums(packed, luts, block, true, u, cols, wide);
        results[block * 32 + u] = low0;
        results[block * 32 + 8 + u] = low1;
        results[block * 32 + 16 + u] = high0;
        results[block * 32 + 24 + u] = high1;
    }
    proof {
        reveal(wrapped_scan);
        reveal(wrapped);
    }
}

/// Scans packed codes with 16-lane registers. Each result is the sum of the table
/// entries that the nibbles of its vector select, modulo `2^16`. With no results
/// to fill, nothing else is looked at.
pub fn fast_scan_avx2<const B: usize>(packed_codes: &[u8], luts: &[u8], results: &mut [u16])
    requires
        old(results)@.len() > 0 ==> {
            &&& old(results)@.len() % 32 == 0
            &&& packed_codes@.len() == old(results)@.len() / 32 * (B as nat / 8 * 32)
            &&& luts@.len() == (B as nat / 4) * 16
        },
    ensures
        final(results)@.len() == old(results)@.len(),
        forall|v: int|
            0 <= v < final(results)@.len() ==> #[trigger] final(results)@[v] as int == scan_sum(
                packed_codes@,
                luts@,
                B as int / 8,
                v,
                2 * (B as int / 8),
            ) % 65536,
{
    let n_vecs = results.len();
    let n_blocks = n_vecs / BLOCK_WIDTH;
    for i in 0..n_blocks
        invariant
            n_vecs == results@.len(),
            n_vecs == 32 * n_blocks,
            n_blocks > 0 ==> packed_codes@.len() == n_blocks * (B as nat / 8 * 32),
            n_blocks > 0 ==> luts@.len() == (B as nat / 4) * 16,
            forall|v: int|
                0 <= v < 32 * i ==> #[trigger] results@[v] as int == scan_sum(
                    packed_codes@,
                    luts@,
                    B as int / 8,
                    v,
                    2 * (B as int / 8),
                ) % 65536,
    {
        accumulate_one_block::<B>(packed_codes, luts, n_blocks, i, false, results);
    }
}

/// Scans packed codes with 32-lane registers, 64 bytes at a time. Each result is
/// the sum of the table entries that the nibbles of its vector select, modulo
/// `2^16`. With no results to fill, nothing else is looked at.
pub fn fast_scan_avx512<const B: usize>(packed_codes: &[u8], luts: &[u8], results: &mut [u16])
    requires
        old(results)@.len() > 0 ==> {
            &&& B % 16 == 0
            &&& old(results)@.len() % 32 == 0
            &&& packed_codes@.len() == old(results)@.len() / 32 * (B as nat / 8 * 32)
            &&& luts@.len() == (B as nat / 4) * 16
        },
    ensures
        final(results)@.len() == old(results)@.len(),
        forall|v: int|
            0 <= v < final(results)@.len() ==> #[trigger] final(results)@[v] as int == scan_sum(
                packed_codes@,
                luts@,
                B as int / 8,
                v,
                2 * (B as int / 8),
            ) % 65536,
{
    let n_vecs = results.len();
    let n_blocks = n_vecs / BLOCK_WIDTH;
    for i in 0..n_blocks
        invariant
            n_vecs == results@.len(),
            n_vecs == 32 * n_blocks,
            n_blocks > 0 ==> B % 16 == 0,
            n_blocks > 0 ==> packed_codes@.len() == n_blocks * (B as nat / 8 * 32),
            n_blocks > 0 ==> luts@.len() == (B as nat / 4) * 16,
            forall|v: int|
                0 <= v < 32 * i ==> #[trigger] results@[v] as int == scan_sum(
                    packed_codes@,
                    luts@,
                    B as int / 8,
                    v,
                    2 * (B as int / 8),
                ) % 65536,
    {
        accumulate_one_block::<B>(packed_codes, luts, n_blocks, i, true, results);
    }
}

/// Scans packed codes with the widest registers that divide them evenly. Each
/// result is the sum of the table entries that the nibbles of its vector select,
/// modulo `2^16`. With no results to fill, nothing else is looked at.
pub fn fast_scan_dispatch<const B: usize>(packed_codes: &[u8], luts: &[u8], results: &mut [u16])
    requires
        old(results)@.len() > 0 ==> {
            &&& old(results)@.len() % 32 == 0
            &&& packed_codes@.len() == old(results)@.len() / 32 * (B as nat / 8 * 32)
            &&& luts@.len() == (B as nat / 4) * 16
        },
    ensures
        final(results)@.len() == old(results)@.len(),
        forall|v: int|
            0 <= v < final(results)@.len() ==> #[trigger] final(results)@[v] as int == scan_sum(
                packed_codes@,
                luts@,
                B as int / 8,
                v,
                2 * (B as int / 8),
            ) % 65536,
{
    if B % 16 == 0 {
        fast_scan_avx512::<B>(packed_codes, luts, results);
    } else {
        fast_scan_avx2::<B>(packed_codes, luts, results);
    }
}

} // verus!
