//! The oracle that computes distances a block of 32 vectors at a time.

use std::ops::Range;
use vstd::prelude::*;
use vstd::slice::{slice_subrange, slice_to_vec};

use crate::beam_search_oracle::{
    below_cutoff, finds_all_new, finds_new, grows_below, is_found, newly_seen, BeamSearchOracle,
    Candidates, ThoroughOracle,
};
use crate::classic_graph::IndexT;
use crate::distance::Distance;
use crate::distance_oracle::DistanceOracle;
use crate::lanes::fast_scan_avx2;
use crate::named::Named;
use crate::rabitq_fast_scan::{RabitqFastScan, VectorFactors, BLOCK_SIZE};
use crate::rabitq_fast_scan_kernels::{packed_index, packed_nibble, scan_sum, slot_of};
use crate::scalar_oracle::law_no_cutoff_takes_all_numbers;
use crate::seen_set::{lemma_len_below, SeenSet};

verus! {

/// An oracle for one query: the lookup tables of the query, and how the scan result
/// of a vector becomes its distance.
pub struct RabitqFastScanOracle<'a, const B: usize, F> {
    pub fastscan: &'a RabitqFastScan<B>,
    pub luts: Vec<u8>,
    /// From the factors of a vector and its scan result to its distance.
    pub estimate: F,
}

/// Where a nibble lies within a block, and where among all blocks.
proof fn lemma_block_index(cols: int, block: int, lane: int, k: int)
    requires
        0 <= block,
        0 <= lane < 32,
        0 <= k < 2 * cols,
    ensures
        0 <= packed_index(cols, lane, k) < cols * 32,
        packed_index(cols, 32 * block + lane, k) == block * cols * 32 + packed_index(cols, lane, k),
        (32 * block + lane) % 32 == lane,
{
    let v = 32 * block + lane;
    assert(lane / 32 == 0 && v / 32 == block && v % 16 == lane % 16);
    assert(0 * cols == 0) by (nonlinear_arith);
    assert(0 <= slot_of(lane % 16) < 16);
}

/// The scan of a block on its own is the scan of its vectors among all.
pub proof fn lemma_block_scan(
    packed: Seq<u8>,
    block_codes: Seq<u8>,
    luts: Seq<u8>,
    cols: int,
    block: int,
    lane: int,
    n: int,
)
    requires
        0 <= block,
        0 <= lane < 32,
        0 <= n <= 2 * cols,
        block_codes == packed.subrange(block * cols * 32, block * cols * 32 + cols * 32),
        0 <= block * cols * 32,
        block * cols * 32 + cols * 32 <= packed.len(),
    ensures
        scan_sum(block_codes, luts, cols, lane, n) == scan_sum(
            packed,
            luts,
            cols,
            32 * block + lane,
            n,
        ),
    decreases n,
{
    if n > 0 {
        lemma_block_scan(packed, block_codes, luts, cols, block, lane, n - 1);
        lemma_block_index(cols, block, lane, n - 1);
        assert(packed_nibble(block_codes, cols, lane, n - 1) == packed_nibble(
            packed,
            cols,
            32 * block + lane,
            n - 1,
        ));
    }
}

/// Of the first `m` vectors of a block: which are new candidates, and what has been
/// seen then. Only vectors below `limit` other than `skip` are looked at; those
/// closer than `cutoff` become candidates.
pub open spec fn admitted(
    out: Seq<(usize, Distance)>,
    limit: Option<usize>,
    skip: Option<usize>,
    cutoff: Option<Distance>,
    seen: Set<u32>,
    m: int,
) -> (Seq<(IndexT, Distance)>, Set<u32>)
    decreases m,
{
    if m <= 0 {
        (Seq::empty(), seen)
    } else {
        let (found, now) = admitted(out, limit, skip, cutoff, seen, m - 1);
        let (idx, distance) = out[m - 1];
        let id = idx as IndexT;
        if (limit matches Some(l) && idx >= l) || skip == Some(idx) || now.contains(id) {
            (found, now)
        } else if cutoff matches Some(c) && !distance.less(c) {
            (found, now.insert(id))
        } else {
            (found.push((id, distance)), now.insert(id))
        }
    }
}

/// As `admitted`, for the first `m` of several blocks.
pub open spec fn admitted_all(
    outs: Seq<Seq<(usize, Distance)>>,
    limit: Option<usize>,
    cutoff: Option<Distance>,
    seen: Set<u32>,
    m: int,
) -> (Seq<(IndexT, Distance)>, Set<u32>)
    decreases m,
{
    if m <= 0 {
        (Seq::empty(), seen)
    } else {
        let (found, now) = admitted_all(outs, limit, cutoff, seen, m - 1);
        let (more, then_seen) = admitted(outs[m - 1], limit, None, cutoff, now, 32);
        (found + more, then_seen)
    }
}

/// Whether the blocks are those of the neighbors that have not been scanned, each
/// once, in ascending order.
pub open spec fn are_blocks_of(blocks: Seq<u32>, neighbors: Seq<IndexT>, scanned: Set<u32>) -> bool {
    &&& ascending(blocks)
    &&& forall|b: u32| #[trigger]
        blocks.contains(b) <==> !scanned.contains(b) && exists|k: int|
            0 <= k < neighbors.len() && #[trigger] neighbors[k] / 32 == b
}

/// Whether the blocks are those between two blocks that have not been scanned, in
/// ascending order.
pub open spec fn are_blocks_between(
    blocks: Seq<u32>,
    first: int,
    last: int,
    scanned: Set<u32>,
) -> bool {
    &&& ascending(blocks)
    &&& forall|b: u32| #[trigger]
        blocks.contains(b) <==> !scanned.contains(b) && first <= b <= last
}

/// Whether numbers grow strictly.
pub open spec fn ascending(blocks: Seq<u32>) -> bool {
    forall|i: int, j: int| 0 <= i < j < blocks.len() ==> #[trigger] blocks[i] < #[trigger] blocks[j]
}

/// The cutoff to go by: infinity where none is given.
pub open spec fn cutoff_or_infinity(cutoff: Option<Distance>) -> Distance {
    match cutoff {
        Some(c) => c,
        None => (Distance { bits: 0x7f80_0000 }),
    }
}

/// The bound on vector numbers that a limit sets.
spec fn bound_of(limit: Option<usize>) -> int {
    match limit {
        Some(l) => l as int,
        None => 0x1_0000_0000,
    }
}

/// What `admitted` yields: new vectors of the block, each once; all that were looked
/// at are seen then.
proof fn lemma_admitted(
    out: Seq<(usize, Distance)>,
    block: int,
    limit: Option<usize>,
    skip: Option<usize>,
    cutoff: Option<Distance>,
    seen: Set<u32>,
    m: int,
)
    requires
        0 <= m <= 32,
        out.len() == 32,
        0 <= block,
        32 * block + 32 <= 0x1_0000_0000,
        forall|lane: int| 0 <= lane < 32 ==> (#[trigger] out[lane]).0 == 32 * block + lane,
    ensures
        ({
            let (found, now) = admitted(out, limit, skip, cutoff, seen, m);
            let below = bound_of(limit);
            &&& newly_seen(found, below, seen, now)
            &&& grows_below(seen, now, below)
            &&& forall|i: u32| #[trigger]
                now.contains(i) && !seen.contains(i) ==> 32 * block <= i < 32 * block + m
            &&& forall|i: u32|
                32 * block <= i < 32 * block + m && i < below && skip != Some(i as usize)
                    ==> #[trigger] now.contains(i)
        }),
    decreases m,
{
    if m > 0 {
        lemma_admitted(out, block, limit, skip, cutoff, seen, m - 1);
        let (found, now) = admitted(out, limit, skip, cutoff, seen, m - 1);
        let (idx, distance) = out[m - 1];
        let id = idx as IndexT;
        assert(id == 32 * block + m - 1);
    }
}

/// Whether a distance gets by a cutoff, where there is one.
spec fn gets_by(distance: Distance, cutoff: Option<Distance>) -> bool {
    cutoff matches Some(c) ==> distance.less(c)
}

/// What `admitted` finds, vector by vector, and in which order.
proof fn lemma_admitted_each(
    out: Seq<(usize, Distance)>,
    block: int,
    limit: Option<usize>,
    skip: Option<usize>,
    cutoff: Option<Distance>,
    seen: Set<u32>,
    m: int,
)
    requires
        0 <= m <= 32,
        out.len() == 32,
        0 <= block,
        32 * block + 32 <= 0x1_0000_0000,
        forall|lane: int| 0 <= lane < 32 ==> (#[trigger] out[lane]).0 == 32 * block + lane,
    ensures
        ({
            let (found, now) = admitted(out, limit, skip, cutoff, seen, m);
            let below = bound_of(limit);
            &&& forall|i: u32| #[trigger]
                now.contains(i) <==> seen.contains(i) || 32 * block <= i < 32 * block + m && i
                    < below && skip != Some(i as usize)
            &&& forall|i: u32| #[trigger]
                now.contains(i) && !seen.contains(i) ==> {
                    let d = out[i - 32 * block].1;
                    &&& gets_by(d, cutoff) ==> found.contains((i, d))
                    &&& !gets_by(d, cutoff) ==> forall|k: int|
                        0 <= k < found.len() ==> (#[trigger] found[k]).0 != i
                }
            &&& forall|k: int|
                0 <= k < found.len() ==> {
                    let i = (#[trigger] found[k]).0;
                    &&& now.contains(i)
                    &&& !seen.contains(i)
                    &&& 32 * block <= i < 32 * block + m
                    &&& found[k].1 == out[i - 32 * block].1
                    &&& gets_by(found[k].1, cutoff)
                }
            &&& forall|k: int, l: int|
                0 <= k < l < found.len() ==> (#[trigger] found[k]).0 < (#[trigger] found[l]).0
        }),
    decreases m,
{
    if m > 0 {
        lemma_admitted_each(out, block, limit, skip, cutoff, seen, m - 1);
        let (found, now) = admitted(out, limit, skip, cutoff, seen, m - 1);
        let (grown, then) = admitted(out, limit, skip, cutoff, seen, m);
        let (idx, distance) = out[m - 1];
        let id = idx as IndexT;
        assert(id == 32 * block + m - 1 && idx == id);
        assert forall|i: u32| #[trigger] then.contains(i) && !seen.contains(i) implies {
            let d = out[i - 32 * block].1;
            &&& gets_by(d, cutoff) ==> grown.contains((i, d))
            &&& !gets_by(d, cutoff) ==> forall|k: int|
                0 <= k < grown.len() ==> (#[trigger] grown[k]).0 != i
        } by {
            let d = out[i - 32 * block].1;
            if now.contains(i) {
                if gets_by(d, cutoff) {
                    let k = found.index_of((i, d));
                    assert(grown[k] == (i, d));
                }
            } else {
                assert(i == id);
                if gets_by(d, cutoff) {
                    assert(grown[found.len() as int] == (i, d));
                }
            }
        }
    }
}

/// Whether the distance of vector `i` is among those of its block, and `i` is found
/// with it exactly where it gets by the cutoff.
spec fn found_in_block(
    outs: Seq<Seq<(usize, Distance)>>,
    blocks: Seq<u32>,
    cutoff: Option<Distance>,
    found: Seq<(IndexT, Distance)>,
    i: u32,
    j: int,
) -> bool {
    let d = outs[j][i as int % 32].1;
    &&& blocks[j] == i / 32
    &&& gets_by(d, cutoff) ==> found.contains((i, d))
    &&& !gets_by(d, cutoff) ==> forall|k: int|
        0 <= k < found.len() ==> (#[trigger] found[k]).0 != i
}

/// As `lemma_admitted_each`, for several blocks.
proof fn lemma_admitted_all_each(
    outs: Seq<Seq<(usize, Distance)>>,
    blocks: Seq<u32>,
    limit: Option<usize>,
    cutoff: Option<Distance>,
    seen: Set<u32>,
    m: int,
)
    requires
        0 <= m <= outs.len(),
        outs.len() == blocks.len(),
        ascending(blocks),
        forall|i: int| 0 <= i < outs.len() ==> (#[trigger] outs[i]).len() == 32,
        forall|i: int, lane: int|
            0 <= i < outs.len() && 0 <= lane < 32 ==> (#[trigger] outs[i][lane]).0 == 32 * blocks[i]
                + lane,
        forall|i: int| 0 <= i < blocks.len() ==> 32 * (#[trigger] blocks[i]) + 32 <= 0x1_0000_0000,
    ensures
        forall|i: u32| #[trigger]
            admitted_all(outs, limit, cutoff, seen, m).1.contains(i) <==> seen.contains(i) || i
                < bound_of(limit) && exists|j: int| 0 <= j < m && #[trigger] blocks[j] == i / 32,
        forall|i: u32| #[trigger]
            admitted_all(outs, limit, cutoff, seen, m).1.contains(i) && !seen.contains(i)
                ==> exists|j: int|
                0 <= j < m && #[trigger] found_in_block(
                    outs,
                    blocks,
                    cutoff,
                    admitted_all(outs, limit, cutoff, seen, m).0,
                    i,
                    j,
                ),
        ({
            let (found, now) = admitted_all(outs, limit, cutoff, seen, m);
            forall|k: int|
                0 <= k < found.len() ==> {
                    &&& now.contains((#[trigger] found[k]).0)
                    &&& !seen.contains(found[k].0)
                    &&& gets_by(found[k].1, cutoff)
                    &&& exists|j: int|
                        0 <= j < m && #[trigger] blocks[j] == found[k].0 / 32 && found[k].1
                            == outs[j][found[k].0 as int % 32].1
                }
        }),
        ({
            let found = admitted_all(outs, limit, cutoff, seen, m).0;
            forall|k: int, l: int|
                0 <= k < l < found.len() ==> (#[trigger] found[k]).0 < (#[trigger] found[l]).0
        }),
    decreases m,
{
    if m > 0 {
        lemma_admitted_all_each(outs, blocks, limit, cutoff, seen, m - 1);
        let (found, now) = admitted_all(outs, limit, cutoff, seen, m - 1);
        let (more, then) = admitted(outs[m - 1], limit, None, cutoff, now, 32);
        let grown = found + more;
        let below = bound_of(limit);
        let block = blocks[m - 1];
        lemma_admitted_each(outs[m - 1], block as int, limit, None, cutoff, now, 32);
        assert(admitted_all(outs, limit, cutoff, seen, m) == (grown, then));
        assert forall|i: u32| #[trigger]
            then.contains(i) <==> seen.contains(i) || i < below && exists|j: int|
                0 <= j < m && #[trigger] blocks[j] == i / 32 by {
            if now.contains(i) && !seen.contains(i) {
                let j = choose|j: int| 0 <= j < m - 1 && #[trigger] blocks[j] == i / 32;
                assert(blocks[j] == i / 32);
            }
            if i / 32 == block {
                assert(blocks[m - 1] == i / 32);
            }
        }
        assert forall|i: u32| #[trigger] then.contains(i) && !seen.contains(i) implies exists|j: int|
            0 <= j < m && #[trigger] found_in_block(outs, blocks, cutoff, grown, i, j) by {
            if now.contains(i) {
                let j = choose|j: int|
                    0 <= j < m - 1 && #[trigger] found_in_block(
                        outs,
                        blocks,
                        cutoff,
                        found,
                        i,
                        j,
                    );
                let d = outs[j][i as int % 32].1;
                if gets_by(d, cutoff) {
                    let k = found.index_of((i, d));
                    assert(grown[k] == (i, d));
                } else {
                    assert forall|k: int| 0 <= k < grown.len() implies (#[trigger] grown[k]).0
                        != i by {
                        if k < found.len() {
                            assert(grown[k] == found[k]);
                        } else {
                            assert(grown[k] == more[k - found.len()]);
                        }
                    }
                }
                assert(found_in_block(outs, blocks, cutoff, grown, i, j));
            } else {
                let d = outs[m - 1][i as int % 32].1;
                assert(i - 32 * block == i as int % 32 && i / 32 == block);
                if gets_by(d, cutoff) {
                    let k = more.index_of((i, d));
                    assert(grown[found.len() + k] == (i, d));
                } else {
                    assert forall|k: int| 0 <= k < grown.len() implies (#[trigger] grown[k]).0
                        != i by {
                        if k < found.len() {
                            assert(grown[k] == found[k]);
                        } else {
                            assert(grown[k] == more[k - found.len()]);
                        }
                    }
                }
                assert(found_in_block(outs, blocks, cutoff, grown, i, m - 1));
            }
        }
        assert forall|i: u32| #[trigger]
            admitted_all(outs, limit, cutoff, seen, m).1.contains(i) && !seen.contains(
                i,
            ) implies exists|j: int|
            0 <= j < m && #[trigger] found_in_block(
                outs,
                blocks,
                cutoff,
                admitted_all(outs, limit, cutoff, seen, m).0,
                i,
                j,
            ) by {
            assert(then.contains(i) && !seen.contains(i));
            let j = choose|j: int|
                0 <= j < m && #[trigger] found_in_block(outs, blocks, cutoff, grown, i, j);
            assert(admitted_all(outs, limit, cutoff, seen, m).0 == grown);
            assert(found_in_block(
                outs,
                blocks,
                cutoff,
                admitted_all(outs, limit, cutoff, seen, m).0,
                i,
                j,
            ));
        }
        assert forall|k: int| 0 <= k < grown.len() implies {
            &&& then.contains((#[trigger] grown[k]).0)
            &&& !seen.contains(grown[k].0)
            &&& gets_by(grown[k].1, cutoff)
            &&& exists|j: int|
                0 <= j < m && #[trigger] blocks[j] == grown[k].0 / 32 && grown[k].1
                    == outs[j][grown[k].0 as int % 32].1
        } by {
            if k < found.len() {
                assert(grown[k] == found[k]);
                let j = choose|j: int|
                    0 <= j < m - 1 && #[trigger] blocks[j] == found[k].0 / 32 && found[k].1
                        == outs[j][found[k].0 as int % 32].1;
                assert(blocks[j] == grown[k].0 / 32);
            } else {
                assert(grown[k] == more[k - found.len()]);
                let i = grown[k].0;
                assert(i - 32 * block == i as int % 32 && i / 32 == block);
                assert(blocks[m - 1] == grown[k].0 / 32);
            }
        }
        assert forall|k: int, l: int| 0 <= k < l < grown.len() implies (#[trigger] grown[k]).0 < (
        #[trigger] grown[l]).0 by {
            if l < found.len() {
                assert(grown[k] == found[k] && grown[l] == found[l]);
            } else if k >= found.len() {
                assert(grown[k] == more[k - found.len()] && grown[l] == more[l - found.len()]);
            } else {
                assert(grown[k] == found[k] && grown[l] == more[l - found.len()]);
                let j = choose|j: int|
                    0 <= j < m - 1 && #[trigger] blocks[j] == found[k].0 / 32 && found[k].1
                        == outs[j][found[k].0 as int % 32].1;
                assert(blocks[j] < blocks[m - 1]);
            }
        }
    }
}

/// How many of the vectors of a block are below `n`.
pub open spec fn filled(block: int, n: int) -> int {
    if n - 32 * block < 0 {
        0
    } else if n - 32 * block < 32 {
        n - 32 * block
    } else {
        32
    }
}

/// Without a cutoff, all vectors of the block of the start but padding and the start
/// itself are new.
pub proof fn lemma_admitted_count(
    out: Seq<(usize, Distance)>,
    start: IndexT,
    n: usize,
    m: int,
)
    requires
        0 <= m <= 32,
        out.len() == 32,
        forall|lane: int|
            0 <= lane < 32 ==> (#[trigger] out[lane]).0 == 32 * (start as int / 32) + lane,
    ensures
        ({
            let only = Set::<u32>::empty().insert(start);
            let found = admitted(out, Some(n), Some(start as usize), None, only, m).0;
            let most = filled(start as int / 32, n as int);
            let looked_at = if m < most {
                m
            } else {
                most
            };
            found.len() == looked_at - (if start as int % 32 < looked_at {
                1int
            } else {
                0
            })
        }),
    decreases m,
{
    if m > 0 {
        let only = Set::<u32>::empty().insert(start);
        let block = start as int / 32;
        lemma_admitted_count(out, start, n, m - 1);
        lemma_admitted(out, block, Some(n), Some(start as usize), None, only, m - 1);
        let now = admitted(out, Some(n), Some(start as usize), None, only, m - 1).1;
        let (idx, distance) = out[m - 1];
        assert(idx == 32 * block + (m - 1));
        assert(idx as IndexT == idx);
        assert(idx != start ==> !now.contains(idx as IndexT));
    }
}

/// Two rounds of new vectors are one round of new vectors.
proof fn lemma_newly_seen_joined(
    first: Seq<(IndexT, Distance)>,
    second: Seq<(IndexT, Distance)>,
    valid: int,
    seen: Set<u32>,
    between: Set<u32>,
    after: Set<u32>,
)
    requires
        newly_seen(first, valid, seen, between),
        newly_seen(second, valid, between, after),
        grows_below(seen, between, valid),
        grows_below(between, after, valid),
    ensures
        newly_seen(first + second, valid, seen, after),
        grows_below(seen, after, valid),
{
    let all = first + second;
    assert forall|k: int, l: int| 0 <= k < l < all.len() implies (#[trigger] all[k]).0 != (
    #[trigger] all[l]).0 by {
        if l < first.len() {
            assert(all[k] == first[k] && all[l] == first[l]);
        } else if k >= first.len() {
            assert(all[k] == second[k - first.len()] && all[l] == second[l - first.len()]);
        } else {
            assert(all[k] == first[k] && all[l] == second[l - first.len()]);
        }
    }
    assert forall|k: int| 0 <= k < all.len() implies {
        &&& (#[trigger] all[k]).0 < valid
        &&& !seen.contains(all[k].0)
        &&& after.contains(all[k].0)
    } by {
        if k < first.len() {
            assert(all[k] == first[k]);
        } else {
            assert(all[k] == second[k - first.len()]);
        }
    }
}

/// What `admitted_all` yields: new vectors, each once; all vectors of the blocks
/// below the limit are seen then.
proof fn lemma_admitted_all(
    outs: Seq<Seq<(usize, Distance)>>,
    blocks: Seq<u32>,
    limit: Option<usize>,
    cutoff: Option<Distance>,
    seen: Set<u32>,
    m: int,
)
    requires
        0 <= m <= outs.len(),
        outs.len() == blocks.len(),
        forall|i: int| 0 <= i < outs.len() ==> (#[trigger] outs[i]).len() == 32,
        forall|i: int, lane: int|
            0 <= i < outs.len() && 0 <= lane < 32 ==> (#[trigger] outs[i][lane]).0 == 32 * blocks[i]
                + lane,
        forall|i: int| 0 <= i < blocks.len() ==> 32 * (#[trigger] blocks[i]) + 32 <= 0x1_0000_0000,
    ensures
        ({
            let (found, now) = admitted_all(outs, limit, cutoff, seen, m);
            let below = bound_of(limit);
            &&& newly_seen(found, below, seen, now)
            &&& grows_below(seen, now, below)
            &&& forall|k: int, i: u32|
                0 <= k < m && i as int / 32 == #[trigger] blocks[k] && i < below
                    ==> #[trigger] now.contains(i)
        }),
    decreases m,
{
    if m > 0 {
        lemma_admitted_all(outs, blocks, limit, cutoff, seen, m - 1);
        let (found, now) = admitted_all(outs, limit, cutoff, seen, m - 1);
        let (more, after) = admitted(outs[m - 1], limit, None, cutoff, now, 32);
        let below = bound_of(limit);
        lemma_admitted(outs[m - 1], blocks[m - 1] as int, limit, None, cutoff, now, 32);
        lemma_newly_seen_joined(found, more, below, seen, now, after);
    }
}

/// `admitted_all` looks at the first `m` blocks only.
proof fn lemma_admitted_all_prefix(
    outs: Seq<Seq<(usize, Distance)>>,
    others: Seq<Seq<(usize, Distance)>>,
    limit: Option<usize>,
    cutoff: Option<Distance>,
    seen: Set<u32>,
    m: int,
)
    requires
        0 <= m <= outs.len(),
        m <= others.len(),
        forall|i: int| 0 <= i < m ==> #[trigger] outs[i] == others[i],
    ensures
        admitted_all(outs, limit, cutoff, seen, m) == admitted_all(others, limit, cutoff, seen, m),
    decreases m,
{
    if m > 0 {
        lemma_admitted_all_prefix(outs, others, limit, cutoff, seen, m - 1);
    }
}

/// Numbers that grow strictly grow at least as fast as their positions.
proof fn lemma_ascending(blocks: Seq<u32>, i: int)
    requires
        ascending(blocks),
        0 <= i < blocks.len(),
    ensures
        i <= blocks[i],
    decreases i,
{
    if i > 0 {
        lemma_ascending(blocks, i - 1);
    }
}

/// Numbers that grow strictly are determined by which numbers occur.
proof fn lemma_ascending_unique(one: Seq<u32>, other: Seq<u32>)
    requires
        ascending(one),
        ascending(other),
        forall|b: u32| #[trigger] one.contains(b) <==> other.contains(b),
    ensures
        one == other,
    decreases one.len(),
{
    if one.len() == 0 {
        if other.len() > 0 {
            assert(other.contains(other[0]));
            assert(one.contains(other[0]));
        }
        assert(one =~= other);
    } else {
        assert(one.contains(one[0]));
        assert(other.len() > 0);
        let last = one[one.len() - 1];
        let end = other[other.len() - 1];
        assert(one.contains(last) && other.contains(last));
        assert(other.contains(end) && one.contains(end));
        let k = other.index_of(last);
        let l = one.index_of(end);
        assert(last == end) by {
            if k < other.len() - 1 && l < one.len() - 1 {
                assert(other[k] < other[other.len() - 1]);
                assert(one[l] < one[one.len() - 1]);
            }
        }
        let rest = one.drop_last();
        let others = other.drop_last();
        assert forall|b: u32| #[trigger] rest.contains(b) <==> others.contains(b) by {
            if rest.contains(b) {
                let i = rest.index_of(b);
                assert(one[i] == b && one[i] < one[one.len() - 1]);
                assert(one.contains(b));
                let j = other.index_of(b);
                assert(j < other.len() - 1);
                assert(others[j] == b);
            }
            if others.contains(b) {
                let i = others.index_of(b);
                assert(other[i] == b && other[i] < other[other.len() - 1]);
                assert(other.contains(b));
                assert(one.contains(b));
                let j = one.index_of(b);
                assert(j < one.len() - 1);
                assert(rest[j] == b);
            }
        }
        lemma_ascending_unique(rest, others);
        assert(one =~= rest.push(last));
        assert(other =~= others.push(end));
    }
}

/// Numbers that grow strictly, none of them in a set, enlarge the set by as many.
proof fn lemma_union_len(scanned: Set<u32>, blocks: Seq<u32>)
    requires
        scanned.finite(),
        ascending(blocks),
        forall|b: u32| blocks.contains(b) ==> !scanned.contains(b),
    ensures
        scanned.union(blocks.to_set()).finite(),
        scanned.union(blocks.to_set()).len() == scanned.len() + blocks.len(),
    decreases blocks.len(),
{
    if blocks.len() == 0 {
        assert(scanned.union(blocks.to_set()) =~= scanned);
    } else {
        let rest = blocks.drop_last();
        let last = blocks.last();
        assert forall|b: u32| rest.contains(b) implies !scanned.contains(b) by {
            let k = rest.index_of(b);
            assert(blocks[k] == b);
        }
        lemma_union_len(scanned, rest);
        assert(blocks[blocks.len() - 1] == last);
        assert(!rest.contains(last)) by {
            if rest.contains(last) {
                let k = rest.index_of(last);
                assert(blocks[k] < blocks[blocks.len() - 1]);
            }
        }
        assert(scanned.union(blocks.to_set()) =~= scanned.union(rest.to_set()).insert(last)) by {
            assert forall|b: u32| blocks.contains(b) == (rest.contains(b) || b == last) by {
                if blocks.contains(b) {
                    let k = blocks.index_of(b);
                    if k < rest.len() {
                        assert(rest[k] == b);
                    }
                }
                if rest.contains(b) {
                    let k = rest.index_of(b);
                    assert(blocks[k] == b);
                }
            }
        }
    }
}

/// Adds the new vectors of a block to the frontier: those below `limit`, other than
/// `skip`, that have not been seen and are closer than `cutoff`.
fn take_new(
    out: &[(usize, Distance); 32],
    limit: Option<usize>,
    skip: Option<usize>,
    cutoff: Option<Distance>,
    seen: &mut SeenSet,
    frontier: &mut Candidates,
)
    requires
        old(seen).wf(),
    ensures
        final(seen).wf(),
        final(seen)@ == admitted(out@, limit, skip, cutoff, old(seen)@, 32).1,
        final(frontier)@ == old(frontier)@ + admitted(
            out@,
            limit,
            skip,
            cutoff,
            old(seen)@,
            32,
        ).0,
{
    let ghost seen_before = seen@;
    let ghost before = frontier@;
    assert(before + Seq::empty() =~= before);
    for i in 0..32usize
        invariant
            seen.wf(),
            (frontier@, seen@) == (
                before + admitted(out@, limit, skip, cutoff, seen_before, i as int).0,
                admitted(out@, limit, skip, cutoff, seen_before, i as int).1,
            ),
    {
        let (idx, distance) = out[i];
        let ghost (found, now) = admitted(out@, limit, skip, cutoff, seen_before, i as int);
        let within = match limit {
            Some(l) => idx < l,
            None => true,
        };
        let other = match skip {
            Some(s) => idx != s,
            None => true,
        };
        if within && other && seen.insert(idx as IndexT) {
            let close = match cutoff {
                Some(c) => distance.less_than(c),
                None => true,
            };
            if close {
                frontier.push((idx as IndexT, distance));
                assert((before + found).push((idx as IndexT, distance)) =~= before + found.push(
                    (idx as IndexT, distance),
                ));
            }
        } else {
            assert(now.contains(idx as IndexT) ==> now.insert(idx as IndexT) =~= now);
        }
    }
}

/// Adds a number to ascending numbers, unless it is there.
fn insert_ascending(blocks: &mut Vec<u32>, block: u32)
    requires
        ascending(old(blocks)@),
    ensures
        ascending(final(blocks)@),
        forall|b: u32| #[trigger]
            final(blocks)@.contains(b) <==> old(blocks)@.contains(b) || b == block,
{
    let ghost before = blocks@;
    let mut at = blocks.len();
    while at > 0 && blocks[at - 1] > block
        invariant
            blocks@ == before,
            at <= before.len(),
            ascending(before),
            forall|k: int| at <= k < before.len() ==> #[trigger] before[k] > block,
        decreases at,
    {
        at = at - 1;
    }
    if at > 0 && blocks[at - 1] == block {
        assert(before[at - 1] == block);
        return ;
    }
    blocks.insert(at, block);
    proof {
        let after = blocks@;
        assert(after == before.insert(at as int, block));
        assert forall|b: u32| #[trigger] after.contains(b) <==> before.contains(b) || b == block by {
            if after.contains(b) {
                let k = after.index_of(b);
                if k < at {
                    assert(before[k] == b);
                } else if k > at {
                    assert(before[k - 1] == b);
                }
            }
            if before.contains(b) {
                let k = before.index_of(b);
                if k < at {
                    assert(after[k] == b);
                } else {
                    assert(after[k + 1] == b);
                }
            }
            assert(after[at as int] == block);
        }
    }
}

/// The blocks of the neighbors that have not been scanned, each once, in ascending
/// order.
pub fn unscanned_blocks(neighbors: &[IndexT], scanned_blocks: &SeenSet) -> (blocks: Vec<u32>)
    requires
        scanned_blocks.wf(),
    ensures
        are_blocks_of(blocks@, neighbors@, scanned_blocks@),
{
    let mut blocks: Vec<u32> = Vec::new();
    for i in 0..neighbors.len()
        invariant
            scanned_blocks.wf(),
            ascending(blocks@),
            forall|b: u32| #[trigger]
                blocks@.contains(b) <==> !scanned_blocks@.contains(b) && exists|k: int|
                    0 <= k < i && #[trigger] neighbors@[k] / 32 == b,
    {
        let block = neighbors[i] / 32;
        assert(neighbors@[i as int] / 32 == block);
        if !scanned_blocks.contains(&block) {
            insert_ascending(&mut blocks, block);
        }
    }
    blocks
}

impl<'a, const B: usize, F: Fn(VectorFactors, u16) -> Distance> RabitqFastScanOracle<'a, B, F> {
    /// The scan result of vector `v`.
    pub open spec fn raw_ip(&self, v: int) -> u16 {
        (scan_sum(
            self.fastscan.packed_codes@,
            self.luts@,
            B as int / 8,
            v,
            2 * (B as int / 8),
        ) % 65536) as u16
    }

    /// Whether index and tables fit each other, and every scan result has an
    /// estimate.
    pub open spec fn sound(&self) -> bool {
        &&& self.fastscan.wf()
        &&& self.luts@.len() == (B as nat / 4) * 16
        &&& forall|f: VectorFactors, raw: u16| #[trigger] call_requires(self.estimate, (f, raw))
    }

    /// Whether these are the numbers and distances of the vectors of a block.
    pub open spec fn block_distances(&self, block: int, out: Seq<(usize, Distance)>) -> bool {
        &&& out.len() == 32
        &&& forall|lane: int|
            0 <= lane < 32 ==> {
                &&& (#[trigger] out[lane]).0 == 32 * block + lane
                &&& call_ensures(
                    self.estimate,
                    (
                        self.fastscan.factors@[32 * block + lane],
                        self.raw_ip(32 * block + lane),
                    ),
                    out[lane].1,
                )
            }
    }

    /// Whether scanning the blocks, in order, can give these results.
    pub open spec fn scan_step(
        &self,
        blocks: Seq<u32>,
        limit: Option<usize>,
        cutoff: Option<Distance>,
        seen: Set<u32>,
        scanned: Set<u32>,
        seen_after: Set<u32>,
        scanned_after: Set<u32>,
        found: Seq<(IndexT, Distance)>,
        comparisons: int,
    ) -> bool {
        &&& comparisons == 32 * blocks.len()
        &&& scanned_after == scanned.union(blocks.to_set())
        &&& exists|outs: Seq<Seq<(usize, Distance)>>|
            {
                &&& outs.len() == blocks.len()
                &&& forall|i: int|
                    0 <= i < outs.len() ==> self.block_distances(blocks[i] as int, #[trigger] outs[i])
                &&& #[trigger] admitted_all(
                    outs,
                    limit,
                    Some(cutoff_or_infinity(cutoff)),
                    seen,
                    outs.len() as int,
                ) == (found, seen_after)
            }
    }

    /// Whether `distance` is an estimate for vector `i`.
    pub open spec fn estimates(&self, i: int, distance: Distance) -> bool {
        call_ensures(self.estimate, (self.fastscan.factors@[i], self.raw_ip(i)), distance)
    }

    /// Whether scanned blocks exist, and all their vectors but padding are seen.
    pub open spec fn agree(&self, seen: Set<u32>, scanned: Set<u32>) -> bool {
        &&& forall|b: u32| #[trigger] scanned.contains(b) ==> b < self.fastscan.n_blocks
        &&& forall|i: u32|
            scanned.contains((i / 32) as u32) && i < self.fastscan.n ==> #[trigger] seen.contains(i)
    }

    /// Whether a search can begin like this: the block of the start is scanned, and
    /// all its vectors but padding become candidates.
    pub open spec fn start_step(
        &self,
        start: IndexT,
        seen: Set<u32>,
        scanned: Set<u32>,
        seen_after: Set<u32>,
        scanned_after: Set<u32>,
        initial: Distance,
        additional: Seq<(IndexT, Distance)>,
        comparisons: int,
    ) -> bool {
        &&& comparisons == 32
        &&& scanned_after == scanned.insert((start / 32) as u32)
        &&& exists|out: Seq<(usize, Distance)>|
            {
                &&& #[trigger] self.block_distances(start as int / 32, out)
                &&& initial == out[start as int % 32].1
                &&& admitted(
                    out,
                    Some(self.fastscan.n),
                    Some(start as usize),
                    None,
                    seen,
                    32,
                ) == (additional, seen_after)
            }
    }

    /// Whether processing neighbors can lead to this: the blocks of the neighbors that
    /// have not been scanned are scanned.
    pub open spec fn block_step(
        &self,
        neighbors: Seq<IndexT>,
        cutoff: Option<Distance>,
        seen: Set<u32>,
        scanned: Set<u32>,
        seen_after: Set<u32>,
        scanned_after: Set<u32>,
        found: Seq<(IndexT, Distance)>,
        comparisons: int,
    ) -> bool {
        exists|blocks: Seq<u32>|
            {
                &&& #[trigger] are_blocks_of(blocks, neighbors, scanned)
                &&& self.scan_step(
                    blocks,
                    Some(self.fastscan.n),
                    cutoff,
                    seen,
                    scanned,
                    seen_after,
                    scanned_after,
                    found,
                    comparisons,
                )
            }
    }

    /// Whether processing a range can lead to this: the blocks that the range touches
    /// and that have not been scanned are scanned; padding is not left out.
    pub open spec fn stretch_step(
        &self,
        start: IndexT,
        end: IndexT,
        cutoff: Option<Distance>,
        seen: Set<u32>,
        scanned: Set<u32>,
        seen_after: Set<u32>,
        scanned_after: Set<u32>,
        found: Seq<(IndexT, Distance)>,
        comparisons: int,
    ) -> bool {
        if start >= end {
            &&& seen_after == seen
            &&& scanned_after == scanned
            &&& found == Seq::<(IndexT, Distance)>::empty()
            &&& comparisons == 0
        } else {
            exists|blocks: Seq<u32>|
                {
                    &&& #[trigger] are_blocks_between(
                        blocks,
                        start as int / 32,
                        (end - 1) / 32,
                        scanned,
                    )
                    &&& self.scan_step(
                        blocks,
                        None,
                        cutoff,
                        seen,
                        scanned,
                        seen_after,
                        scanned_after,
                        found,
                        comparisons,
                    )
                }
        }
    }

    /// Whether equal factors and scan results have equal estimates.
    pub open spec fn estimates_once(&self) -> bool {
        forall|f: VectorFactors, raw: u16, one: Distance, other: Distance|
            #![trigger call_ensures(self.estimate, (f, raw), one), call_ensures(self.estimate, (f, raw), other)]
            call_ensures(self.estimate, (f, raw), one) && call_ensures(
                self.estimate,
                (f, raw),
                other,
            ) ==> one == other
    }

    /// What the oracle means by the terms of `BeamSearchOracle` and `DistanceOracle`.
    pub open spec fn explained(&self) -> bool {
        &&& self.ready() == self.sound()
        &&& self.valid() == self.fastscan.n
        &&& forall|i: int| #[trigger] self.measures(i) == (i / 32 < self.fastscan.n_blocks)
        &&& forall|i: IndexT| #[trigger] self.accepts(i) == (i / 32 < self.fastscan.n_blocks)
        &&& forall|i: IndexT, seen: Set<u32>, scanned: Set<u32>| #[trigger]
            self.passes_over(i, seen, scanned) == scanned.contains((i / 32) as u32)
        &&& forall|i: int, d: Distance| #[trigger] self.is_distance(i, d) == self.estimates(i, d)
        &&& forall|seen: Set<u32>, scanned: Set<u32>| #[trigger]
            self.keeps(seen, scanned) == self.agree(seen, scanned)
        &&& forall|seen: Set<u32>, scanned: Set<u32>| #[trigger]
            self.spent(seen, scanned) == 32 * scanned.len()
        &&& forall|
            start: IndexT,
            seen: Set<u32>,
            scanned: Set<u32>,
            seen_after: Set<u32>,
            scanned_after: Set<u32>,
            initial: Distance,
            additional: Seq<(IndexT, Distance)>,
            comparisons: int,
        | #[trigger]
            self.init_step(
                start,
                seen,
                scanned,
                seen_after,
                scanned_after,
                initial,
                additional,
                comparisons,
            ) == self.start_step(
                start,
                seen,
                scanned,
                seen_after,
                scanned_after,
                initial,
                additional,
                comparisons,
            )
        &&& forall|
            neighbors: Seq<IndexT>,
            cutoff: Option<Distance>,
            seen: Set<u32>,
            scanned: Set<u32>,
            seen_after: Set<u32>,
            scanned_after: Set<u32>,
            found: Seq<(IndexT, Distance)>,
            comparisons: int,
        | #[trigger]
            self.neighbors_step(
                neighbors,
                cutoff,
                seen,
                scanned,
                seen_after,
                scanned_after,
                found,
                comparisons,
            ) == self.block_step(
                neighbors,
                cutoff,
                seen,
                scanned,
                seen_after,
                scanned_after,
                found,
                comparisons,
            )
        &&& forall|
            start: IndexT,
            end: IndexT,
            cutoff: Option<Distance>,
            seen: Set<u32>,
            scanned: Set<u32>,
            seen_after: Set<u32>,
            scanned_after: Set<u32>,
            found: Seq<(IndexT, Distance)>,
            comparisons: int,
        | #[trigger]
            self.range_step(
                start,
                end,
                cutoff,
                seen,
                scanned,
                seen_after,
                scanned_after,
                found,
                comparisons,
            ) == self.stretch_step(
                start,
                end,
                cutoff,
                seen,
                scanned,
                seen_after,
                scanned_after,
                found,
                comparisons,
            )
        &&& self.is_deterministic() == self.estimates_once()
        &&& forall|i: int| #[trigger]
            self.can_compare(i) == (self.sound() && i < self.fastscan.n_blocks)
        &&& forall|i: int, out: Seq<(usize, Distance)>| #[trigger]
            self.compared(i, out) == self.block_distances(i, out)
    }

    /// Every oracle means this.
    pub proof fn lemma_explained(&self)
        ensures
            self.explained(),
    {
    }

    /// Where estimates are deterministic, a vector has one estimate.
    pub proof fn lemma_estimates_agree(&self, i: int, one: Distance, other: Distance)
        requires
            self.estimates_once(),
            self.estimates(i, one),
            self.estimates(i, other),
        ensures
            one == other,
    {
    }

    /// Where estimates are deterministic, the distances of a block are determined.
    proof fn lemma_block_deterministic(
        &self,
        block: int,
        one: Seq<(usize, Distance)>,
        other: Seq<(usize, Distance)>,
    )
        requires
            self.is_deterministic(),
            self.block_distances(block, one),
            self.block_distances(block, other),
        ensures
            one == other,
    {
        assert forall|lane: int| 0 <= lane < 32 implies one[lane] == other[lane] by {
            let f = self.fastscan.factors@[32 * block + lane];
            let raw = self.raw_ip(32 * block + lane);
            assert(call_ensures(self.estimate, (f, raw), one[lane].1));
            assert(call_ensures(self.estimate, (f, raw), other[lane].1));
        }
        assert(one =~= other);
    }

    /// What scanning blocks leads to: new vectors, each once; and sets that agree
    /// again, where they agreed before.
    proof fn lemma_scanned(
        &self,
        blocks: Seq<u32>,
        limit: Option<usize>,
        cutoff: Option<Distance>,
        seen: SeenSet,
        scanned: SeenSet,
        seen_after: Set<u32>,
        scanned_after: Set<u32>,
        found: Seq<(IndexT, Distance)>,
        comparisons: int,
    )
        requires
            self.sound(),
            seen.wf(),
            scanned.wf(),
            limit matches Some(l) ==> l == self.fastscan.n,
            ascending(blocks),
            forall|b: u32| #[trigger] blocks.contains(b) ==> !scanned@.contains(b) && b < 0x800_0000,
            forall|i: int| 0 <= i < blocks.len() ==> #[trigger] blocks[i] < self.fastscan.n_blocks,
            self.scan_step(
                blocks,
                limit,
                cutoff,
                seen@,
                scanned@,
                seen_after,
                scanned_after,
                found,
                comparisons,
            ),
        ensures
            newly_seen(found, bound_of(limit), seen@, seen_after),
            grows_below(seen@, seen_after, bound_of(limit)),
            comparisons == 32 * scanned_after.len() - 32 * scanned@.len(),
            self.agree(seen@, scanned@) ==> self.agree(seen_after, scanned_after)
                && scanned_after.len() <= self.fastscan.n_blocks,
            forall|i: u32|
                blocks.contains((i / 32) as u32) && i < bound_of(limit)
                    ==> #[trigger] seen_after.contains(i),
    {
        let cut = Some(cutoff_or_infinity(cutoff));
        let outs = choose|outs: Seq<Seq<(usize, Distance)>>|
            {
                &&& outs.len() == blocks.len()
                &&& forall|i: int|
                    0 <= i < outs.len() ==> self.block_distances(blocks[i] as int, #[trigger] outs[i])
                &&& #[trigger] admitted_all(outs, limit, cut, seen@, outs.len() as int) == (
                    found,
                    seen_after,
                )
            };
        assert forall|i: int| 0 <= i < blocks.len() implies 32 * (#[trigger] blocks[i]) + 32
            <= 0x1_0000_0000 by {
            assert(blocks.contains(blocks[i]));
        }
        assert forall|i: int, lane: int| 0 <= i < outs.len() && 0 <= lane < 32 implies (
        #[trigger] outs[i][lane]).0 == 32 * blocks[i] + lane by {
            assert(self.block_distances(blocks[i] as int, outs[i]));
        }
        lemma_admitted_all(outs, blocks, limit, cut, seen@, outs.len() as int);
        scanned.lemma_finite();
        lemma_union_len(scanned@, blocks);
        assert forall|i: u32| blocks.contains((i / 32) as u32) && i < bound_of(limit) implies
            #[trigger] seen_after.contains(i) by {
            let k = blocks.index_of((i / 32) as u32);
            assert(blocks[k] == i / 32);
        }
        if self.agree(seen@, scanned@) {
            assert forall|b: u32| #[trigger] scanned_after.contains(b) implies b
                < self.fastscan.n_blocks by {
                if blocks.contains(b) {
                    let k = blocks.index_of(b);
                    assert(blocks[k] == b);
                }
            }
            lemma_len_below(scanned_after, self.fastscan.n_blocks as int);
            assert forall|i: u32| scanned_after.contains((i / 32) as u32) && i
                < self.fastscan.n implies #[trigger] seen_after.contains(i) by {
                if scanned@.contains((i / 32) as u32) {
                    assert(seen@.contains(i));
                }
            }
        }
    }

    pub fn new(
        fastscan: &'a RabitqFastScan<B>,
        luts: Vec<u8>,
        estimate: F,
    ) -> (oracle: RabitqFastScanOracle<'a, B, F>)
        ensures
            oracle.fastscan == fastscan,
            oracle.luts == luts,
            oracle.estimate == estimate,
            oracle.explained(),
    {
        let oracle = RabitqFastScanOracle { fastscan, luts, estimate };
        proof {
            oracle.lemma_explained();
        }
        oracle
    }

    /// The lookup tables.
    pub fn luts(&self) -> (luts: &[u8])
        ensures
            luts@ == self.luts@,
    {
        self.luts.as_slice()
    }

    /// The index that the oracle goes by.
    pub fn fastscan(&self) -> (fastscan: &RabitqFastScan<B>)
        ensures
            fastscan == self.fastscan,
    {
        self.fastscan
    }

    /// The scan results of a block.
    pub fn compute_block_raw(&self, block_idx: usize) -> (results: [u16; 32])
        requires
            self.sound(),
            block_idx < self.fastscan.n_blocks,
        ensures
            forall|lane: int|
                0 <= lane < 32 ==> #[trigger] results@[lane] == self.raw_ip(32 * block_idx + lane),
    {
        let cols = B / 8;
        let ghost packed = self.fastscan.packed_codes@;
        proof {
            assert(0 <= block_idx * cols && block_idx * cols * 32 + cols * 32 <= packed.len())
                by (nonlinear_arith)
                requires
                    0 <= block_idx,
                    0 <= cols,
                    block_idx + 1 <= self.fastscan.n_blocks,
                    packed.len() == self.fastscan.n_blocks * (cols * 32),
            ;
            assert(self.fastscan.packed_codes.len() == packed.len());
        }
        let start = block_idx * cols * BLOCK_SIZE;
        let codes = slice_subrange(
            self.fastscan.packed_codes.as_slice(),
            start,
            start + cols * BLOCK_SIZE,
        );
        let mut results = [0u16;32];
        proof {
            assert(32nat / 32 * (B as nat / 8 * 32) == cols * 32) by (nonlinear_arith)
                requires
                    cols == B as nat / 8,
            ;
        }
        fast_scan_avx2::<B>(codes, self.luts.as_slice(), &mut results);
        proof {
            assert forall|lane: int| 0 <= lane < 32 implies #[trigger] results@[lane]
                == self.raw_ip(32 * block_idx + lane) by {
                lemma_block_scan(
                    packed,
                    codes@,
                    self.luts@,
                    cols as int,
                    block_idx as int,
                    lane,
                    2 * cols as int,
                );
            }
        }
        results
    }

    /// The numbers and distances of the vectors of a block.
    pub fn compute_block_distances(&self, block_idx: usize) -> (output: [(usize, Distance); 32])
        requires
            self.sound(),
            block_idx < self.fastscan.n_blocks,
        ensures
            self.block_distances(block_idx as int, output@),
    {
        let raw_results = self.compute_block_raw(block_idx);
        assert(self.fastscan.factors.len() == self.fastscan.factors@.len());
        let base_idx = block_idx * BLOCK_SIZE;
        let mut output = [(0usize, Distance::from_bits(0));32];
        for i in 0..32usize
            invariant
                self.sound(),
                base_idx == 32 * block_idx,
                base_idx + 32 <= self.fastscan.factors@.len(),
                self.fastscan.factors.len() == self.fastscan.factors@.len(),
                forall|lane: int|
                    0 <= lane < 32 ==> #[trigger] raw_results@[lane] == self.raw_ip(
                        32 * block_idx + lane,
                    ),
                forall|lane: int|
                    0 <= lane < i ==> {
                        &&& (#[trigger] output@[lane]).0 == 32 * block_idx + lane
                        &&& call_ensures(
                            self.estimate,
                            (
                                self.fastscan.factors@[32 * block_idx + lane],
                                self.raw_ip(32 * block_idx + lane),
                            ),
                            output@[lane].1,
                        )
                    },
        {
            let vec_idx = base_idx + i;
            let distance = (self.estimate)(self.fastscan.factors[vec_idx], raw_results[i]);
            output[i] = (vec_idx, distance);
        }
        output
    }

    /// Scans blocks in order, and adds what is new and close enough to the frontier.
    fn scan_blocks(
        &self,
        blocks: &Vec<u32>,
        limit: Option<usize>,
        cutoff: Option<Distance>,
        seen: &mut SeenSet,
        scanned_blocks: &mut SeenSet,
        frontier: &mut Candidates,
    ) -> (comparisons: usize)
        requires
            self.sound(),
            old(seen).wf(),
            old(scanned_blocks).wf(),
            ascending(blocks@),
            forall|i: int| 0 <= i < blocks@.len() ==> #[trigger] blocks@[i] < self.fastscan.n_blocks,
        ensures
            final(seen).wf(),
            final(scanned_blocks).wf(),
            final(frontier)@.len() >= old(frontier)@.len(),
            final(frontier)@.subrange(0, old(frontier)@.len() as int) == old(frontier)@,
            self.scan_step(
                blocks@,
                limit,
                cutoff,
                old(seen)@,
                old(scanned_blocks)@,
                final(seen)@,
                final(scanned_blocks)@,
                final(frontier)@.subrange(
                    old(frontier)@.len() as int,
                    final(frontier)@.len() as int,
                ),
                comparisons as int,
            ),
    {
        let cutoff_dist = match cutoff {
            Some(c) => c,
            None => Distance::infinity(),
        };
        let ghost seen_before = seen@;
        let ghost scanned_before = scanned_blocks@;
        let ghost before = frontier@;
        let ghost mut outs: Seq<Seq<(usize, Distance)>> = Seq::empty();
        let mut comparisons: usize = 0;
        assert(before + Seq::empty() =~= before);
        assert(scanned_before.union(blocks@.take(0).to_set()) =~= scanned_before);
        for i in 0..blocks.len()
            invariant
                self.sound(),
                seen.wf(),
                scanned_blocks.wf(),
                ascending(blocks@),
                forall|k: int|
                    0 <= k < blocks@.len() ==> #[trigger] blocks@[k] < self.fastscan.n_blocks,
                comparisons == 32 * i,
                outs.len() == i,
                forall|k: int|
                    0 <= k < i ==> self.block_distances(blocks@[k] as int, #[trigger] outs[k]),
                scanned_blocks@ == scanned_before.union(blocks@.take(i as int).to_set()),
                (frontier@, seen@) == (
                    before + admitted_all(outs, limit, Some(cutoff_dist), seen_before, i as int).0,
                    admitted_all(outs, limit, Some(cutoff_dist), seen_before, i as int).1,
                ),
        {
            let block = blocks[i];
            proof {
                lemma_ascending(blocks@, i as int);
                assert(self.fastscan.factors.len() == self.fastscan.factors@.len());
                let shorter = blocks@.take(i as int);
                let longer = blocks@.take(i + 1);
                assert(longer =~= shorter.push(block));
                assert(scanned_before.union(longer.to_set()) =~= scanned_before.union(
                    shorter.to_set(),
                ).insert(block)) by {
                    assert forall|b: u32| longer.contains(b) == (shorter.contains(b) || b == block) by {
                        if longer.contains(b) {
                            let k = longer.index_of(b);
                            if k < i {
                                assert(shorter[k] == b);
                            }
                        }
                        if shorter.contains(b) {
                            let k = shorter.index_of(b);
                            assert(longer[k] == b);
                        }
                        assert(longer[i as int] == block);
                    }
                }
            }
            scanned_blocks.insert(block);
            let out = self.compute_block_distances(block as usize);
            let ghost (found, now) = admitted_all(
                outs,
                limit,
                Some(cutoff_dist),
                seen_before,
                i as int,
            );
            let ghost longer_outs = outs.push(out@);
            proof {
                lemma_admitted_all_prefix(
                    outs,
                    longer_outs,
                    limit,
                    Some(cutoff_dist),
                    seen_before,
                    i as int,
                );
                let more = admitted(out@, limit, None, Some(cutoff_dist), now, 32).0;
                assert((before + found) + more =~= before + (found + more));
            }
            take_new(&out, limit, None, Some(cutoff_dist), seen, frontier);
            comparisons = comparisons + BLOCK_SIZE;
            proof {
                outs = longer_outs;
            }
        }
        proof {
            let found = admitted_all(
                outs,
                limit,
                Some(cutoff_dist),
                seen_before,
                outs.len() as int,
            ).0;
            assert(blocks@.take(blocks@.len() as int) =~= blocks@);
            assert(frontier@.subrange(before.len() as int, frontier@.len() as int) =~= found);
            assert(frontier@.subrange(0, before.len() as int) =~= before);
            assert(cutoff_dist == cutoff_or_infinity(cutoff));
            assert(admitted_all(
                outs,
                limit,
                Some(cutoff_or_infinity(cutoff)),
                seen_before,
                outs.len() as int,
            ) == (found, seen@));
        }
        comparisons
    }
}

impl<'a, const B: usize, F: Fn(VectorFactors, u16) -> Distance> BeamSearchOracle
    for RabitqFastScanOracle<'a, B, F> {
    open spec fn ready(&self) -> bool {
        self.sound()
    }

    open spec fn keeps(&self, seen: Set<u32>, scanned: Set<u32>) -> bool {
        self.agree(seen, scanned)
    }

    open spec fn measures(&self, i: int) -> bool {
        i / 32 < self.fastscan.n_blocks
    }

    open spec fn accepts(&self, i: IndexT) -> bool {
        i / 32 < self.fastscan.n_blocks
    }

    open spec fn passes_over(&self, i: IndexT, seen: Set<u32>, scanned: Set<u32>) -> bool {
        scanned.contains((i / 32) as u32)
    }

    open spec fn valid(&self) -> int {
        self.fastscan.n as int
    }

    open spec fn spent(&self, seen: Set<u32>, scanned: Set<u32>) -> int {
        32 * (scanned.len() as int)
    }

    open spec fn is_distance(&self, i: int, distance: Distance) -> bool {
        self.estimates(i, distance)
    }

    open spec fn init_step(
        &self,
        start: IndexT,
        seen: Set<u32>,
        scanned: Set<u32>,
        seen_after: Set<u32>,
        scanned_after: Set<u32>,
        initial: Distance,
        additional: Seq<(IndexT, Distance)>,
        comparisons: int,
    ) -> bool {
        self.start_step(
            start,
            seen,
            scanned,
            seen_after,
            scanned_after,
            initial,
            additional,
            comparisons,
        )
    }

    open spec fn neighbors_step(
        &self,
        neighbors: Seq<IndexT>,
        cutoff: Option<Distance>,
        seen: Set<u32>,
        scanned: Set<u32>,
        seen_after: Set<u32>,
        scanned_after: Set<u32>,
        found: Seq<(IndexT, Distance)>,
        comparisons: int,
    ) -> bool {
        self.block_step(
            neighbors,
            cutoff,
            seen,
            scanned,
            seen_after,
            scanned_after,
            found,
            comparisons,
        )
    }

    open spec fn range_step(
        &self,
        start: IndexT,
        end: IndexT,
        cutoff: Option<Distance>,
        seen: Set<u32>,
        scanned: Set<u32>,
        seen_after: Set<u32>,
        scanned_after: Set<u32>,
        found: Seq<(IndexT, Distance)>,
        comparisons: int,
    ) -> bool {
        self.stretch_step(
            start,
            end,
            cutoff,
            seen,
            scanned,
            seen_after,
            scanned_after,
            found,
            comparisons,
        )
    }

    open spec fn is_deterministic(&self) -> bool {
        self.estimates_once()
    }

    proof fn lemma_init_deterministic(
        &self,
        start: IndexT,
        seen: Set<u32>,
        scanned: Set<u32>,
        one: (Set<u32>, Set<u32>, Distance, Seq<(IndexT, Distance)>, int),
        other: (Set<u32>, Set<u32>, Distance, Seq<(IndexT, Distance)>, int),
    ) {
        let limit = Some(self.fastscan.n);
        let skip = Some(start as usize);
        let out1 = choose|out: Seq<(usize, Distance)>|
            {
                &&& #[trigger] self.block_distances(start as int / 32, out)
                &&& one.2 == out[start as int % 32].1
                &&& admitted(out, limit, skip, None, seen, 32) == (one.3, one.0)
            };
        let out2 = choose|out: Seq<(usize, Distance)>|
            {
                &&& #[trigger] self.block_distances(start as int / 32, out)
                &&& other.2 == out[start as int % 32].1
                &&& admitted(out, limit, skip, None, seen, 32) == (other.3, other.0)
            };
        self.lemma_block_deterministic(start as int / 32, out1, out2);
    }

    proof fn lemma_neighbors_deterministic(
        &self,
        neighbors: Seq<IndexT>,
        cutoff: Option<Distance>,
        seen: Set<u32>,
        scanned: Set<u32>,
        one: (Set<u32>, Set<u32>, Seq<(IndexT, Distance)>, int),
        other: (Set<u32>, Set<u32>, Seq<(IndexT, Distance)>, int),
    ) {
        let limit = Some(self.fastscan.n);
        let blocks1 = choose|blocks: Seq<u32>|
            {
                &&& #[trigger] are_blocks_of(blocks, neighbors, scanned)
                &&& self.scan_step(
                    blocks,
                    limit,
                    cutoff,
                    seen,
                    scanned,
                    one.0,
                    one.1,
                    one.2,
                    one.3,
                )
            };
        let blocks2 = choose|blocks: Seq<u32>|
            {
                &&& #[trigger] are_blocks_of(blocks, neighbors, scanned)
                &&& self.scan_step(
                    blocks,
                    limit,
                    cutoff,
                    seen,
                    scanned,
                    other.0,
                    other.1,
                    other.2,
                    other.3,
                )
            };
        assert forall|b: u32| #[trigger] blocks1.contains(b) <==> blocks2.contains(b) by {}
        lemma_ascending_unique(blocks1, blocks2);
        let cut = Some(cutoff_or_infinity(cutoff));
        let outs1 = choose|outs: Seq<Seq<(usize, Distance)>>|
            {
                &&& outs.len() == blocks1.len()
                &&& forall|i: int|
                    0 <= i < outs.len() ==> self.block_distances(
                        blocks1[i] as int,
                        #[trigger] outs[i],
                    )
                &&& #[trigger] admitted_all(outs, limit, cut, seen, outs.len() as int) == (
                    one.2,
                    one.0,
                )
            };
        let outs2 = choose|outs: Seq<Seq<(usize, Distance)>>|
            {
                &&& outs.len() == blocks1.len()
                &&& forall|i: int|
                    0 <= i < outs.len() ==> self.block_distances(
                        blocks1[i] as int,
                        #[trigger] outs[i],
                    )
                &&& #[trigger] admitted_all(outs, limit, cut, seen, outs.len() as int) == (
                    other.2,
                    other.0,
                )
            };
        assert forall|i: int| 0 <= i < outs1.len() implies outs1[i] == outs2[i] by {
            self.lemma_block_deterministic(blocks1[i] as int, outs1[i], outs2[i]);
        }
        assert(outs1 =~= outs2);
    }

    proof fn lemma_scanned_grows(
        &self,
        neighbors: Seq<IndexT>,
        cutoff: Option<Distance>,
        seen: Set<u32>,
        scanned: Set<u32>,
        after: (Set<u32>, Set<u32>, Seq<(IndexT, Distance)>, int),
    ) {
        let blocks = choose|blocks: Seq<u32>|
            {
                &&& #[trigger] are_blocks_of(blocks, neighbors, scanned)
                &&& self.scan_step(
                    blocks,
                    Some(self.fastscan.n),
                    cutoff,
                    seen,
                    scanned,
                    after.0,
                    after.1,
                    after.2,
                    after.3,
                )
            };
        if scanned.finite() {
            lemma_union_len(scanned, blocks);
        }
    }

    fn initialize(
        &self,
        start: IndexT,
        seen: &mut SeenSet,
        scanned_blocks: &mut SeenSet,
    ) -> (begun: (Distance, Candidates, usize)) {
        let start_block = start as usize / BLOCK_SIZE;
        let block_distances = self.compute_block_distances(start_block);
        let initial_distance = block_distances[start as usize % BLOCK_SIZE].1;
        scanned_blocks.insert(start_block as IndexT);
        let mut additional: Candidates = Vec::new();
        proof {
            lemma_admitted(
                block_distances@,
                start as int / 32,
                Some(self.fastscan.n),
                Some(start as usize),
                None,
                seen@,
                32,
            );
            assert(Set::<u32>::empty().insert((start / 32) as u32).len() == 1);
            assert(self.fastscan.factors.len() == self.fastscan.factors@.len());
        }
        take_new(
            &block_distances,
            Some(self.fastscan.n),
            Some(start as usize),
            None,
            seen,
            &mut additional,
        );
        proof {
            let found = admitted(
                block_distances@,
                Some(self.fastscan.n),
                Some(start as usize),
                None,
                old(seen)@,
                32,
            ).0;
            assert(Seq::<(IndexT, Distance)>::empty() + found =~= found);
        }
        (initial_distance, additional, BLOCK_SIZE)
    }

    fn process_neighbors(
        &self,
        neighbors: &[IndexT],
        seen: &mut SeenSet,
        scanned_blocks: &mut SeenSet,
        frontier: &mut Candidates,
        cutoff: Option<Distance>,
    ) -> (comparisons: usize) {
        let blocks = unscanned_blocks(neighbors, scanned_blocks);
        proof {
            assert forall|i: int| 0 <= i < blocks@.len() implies #[trigger] blocks@[i]
                < self.fastscan.n_blocks by {
                assert(blocks@.contains(blocks@[i]));
                let k = choose|k: int|
                    0 <= k < neighbors@.len() && #[trigger] neighbors@[k] / 32 == blocks@[i];
                assert(!self.passes_over(neighbors@[k], seen@, scanned_blocks@));
            }
        }
        let comparisons = self.scan_blocks(
            &blocks,
            Some(self.fastscan.n),
            cutoff,
            seen,
            scanned_blocks,
            frontier,
        );
        proof {
            self.lemma_scanned(
                blocks@,
                Some(self.fastscan.n),
                cutoff,
                *old(seen),
                *old(scanned_blocks),
                seen@,
                scanned_blocks@,
                frontier@.subrange(old(frontier)@.len() as int, frontier@.len() as int),
                comparisons as int,
            );
            if self.agree(old(seen)@, old(scanned_blocks)@) {
                assert forall|k: int| 0 <= k < neighbors@.len() && (#[trigger] neighbors@[k])
                    < self.valid() implies seen@.contains(neighbors@[k]) by {
                    let b = neighbors@[k] / 32;
                    assert(old(scanned_blocks)@.contains(b) || blocks@.contains(b));
                }
            }
            assert(self.fastscan.factors.len() == self.fastscan.factors@.len());
        }
        comparisons
    }

    fn process_range(
        &self,
        range: Range<IndexT>,
        seen: &mut SeenSet,
        scanned_blocks: &mut SeenSet,
        frontier: &mut Candidates,
        cutoff: Option<Distance>,
    ) -> (comparisons: usize) {
        if range.start >= range.end {
            assert(frontier@.subrange(0, frontier@.len() as int) =~= frontier@);
            assert(frontier@.subrange(frontier@.len() as int, frontier@.len() as int)
                =~= Seq::empty());
            return 0;
        }
        let start_block = range.start / 32;
        let end_block = (range.end - 1) / 32;
        let mut blocks: Vec<u32> = Vec::new();
        let mut block_idx = start_block;
        while block_idx <= end_block
            invariant
                start_block <= block_idx <= end_block + 1,
                end_block < 0x800_0000,
                scanned_blocks.wf(),
                scanned_blocks@ == old(scanned_blocks)@,
                are_blocks_between(
                    blocks@,
                    start_block as int,
                    block_idx - 1,
                    old(scanned_blocks)@,
                ),
            decreases end_block + 1 - block_idx,
        {
            if !scanned_blocks.contains(&block_idx) {
                let ghost before = blocks@;
                blocks.push(block_idx);
                proof {
                    assert forall|b: u32| #[trigger] blocks@.contains(b) <==> before.contains(b) || b
                        == block_idx by {
                        if blocks@.contains(b) {
                            let k = blocks@.index_of(b);
                            if k < before.len() {
                                assert(before[k] == b);
                            }
                        }
                        if before.contains(b) {
                            let k = before.index_of(b);
                            assert(blocks@[k] == b);
                        }
                        assert(blocks@[before.len() as int] == block_idx);
                    }
                    assert forall|i: int, j: int| 0 <= i < j < blocks@.len() implies #[trigger] blocks@[i]
                        < #[trigger] blocks@[j] by {
                        assert(before.contains(before[i]));
                    }
                }
            }
            block_idx = block_idx + 1;
        }
        proof {
            assert forall|i: int| 0 <= i < blocks@.len() implies #[trigger] blocks@[i]
                < self.fastscan.n_blocks by {
                let b = blocks@[i];
                assert(blocks@.contains(b));
                let v: u32 = if 32 * b < range.start {
                    range.start
                } else {
                    (32 * b) as u32
                };
                assert(v / 32 == b && range.start <= v < range.end);
                assert(self.accepts(v) || self.passes_over(v, seen@, scanned_blocks@));
            }
        }
        let comparisons = self.scan_blocks(
            &blocks,
            None,
            cutoff,
            seen,
            scanned_blocks,
            frontier,
        );
        proof {
            self.lemma_scanned(
                blocks@,
                None,
                cutoff,
                *old(seen),
                *old(scanned_blocks),
                seen@,
                scanned_blocks@,
                frontier@.subrange(old(frontier)@.len() as int, frontier@.len() as int),
                comparisons as int,
            );
        }
        comparisons
    }

    fn compute_distance(&self, idx: usize) -> (distance: Distance) {
        let block_distances = self.compute_block_distances(idx / BLOCK_SIZE);
        block_distances[idx % BLOCK_SIZE].1
    }

    fn max_valid_idx(&self) -> (valid: usize) {
        self.fastscan.len()
    }

    fn num_blocks(&self) -> (blocks: usize)
        ensures
            blocks == self.fastscan.n_blocks,
    {
        self.fastscan.num_blocks()
    }
}

/// What scanning blocks finds.
proof fn lemma_scan_finds<'a, const B: usize, F: Fn(VectorFactors, u16) -> Distance>(
    oracle: &RabitqFastScanOracle<'a, B, F>,
    blocks: Seq<u32>,
    limit: Option<usize>,
    cutoff: Option<Distance>,
    seen: Set<u32>,
    scanned: Set<u32>,
    after: (Set<u32>, Set<u32>, Seq<(IndexT, Distance)>, int),
)
    requires
        ascending(blocks),
        forall|b: u32| #[trigger] blocks.contains(b) ==> !scanned.contains(b) && b < 0x800_0000,
        oracle.scan_step(
            blocks,
            limit,
            cutoff,
            seen,
            scanned,
            after.0,
            after.1,
            after.2,
            after.3,
        ),
    ensures
        forall|i: u32| #[trigger]
            after.0.contains(i) <==> seen.contains(i) || i < bound_of(limit) && blocks.contains(
                (i / 32) as u32,
            ),
        forall|b: u32| #[trigger] after.1.contains(b) <==> scanned.contains(b) || blocks.contains(b),
        finds_new(oracle, cutoff, seen, after.0, after.2),
        forall|k: int, l: int|
            0 <= k < l < after.2.len() ==> (#[trigger] after.2[k]).0 < (#[trigger] after.2[l]).0,
        scanned.finite() ==> after.1.finite() && after.3 == 32 * (after.1.len() - scanned.len()),
{
    let cut = Some(cutoff_or_infinity(cutoff));
    let found = after.2;
    let outs = choose|outs: Seq<Seq<(usize, Distance)>>|
        {
            &&& outs.len() == blocks.len()
            &&& forall|i: int|
                0 <= i < outs.len() ==> oracle.block_distances(blocks[i] as int, #[trigger] outs[i])
            &&& #[trigger] admitted_all(outs, limit, cut, seen, outs.len() as int) == (
                found,
                after.0,
            )
        };
    assert forall|i: int| 0 <= i < blocks.len() implies 32 * (#[trigger] blocks[i]) + 32
        <= 0x1_0000_0000 by {
        assert(blocks.contains(blocks[i]));
    }
    assert forall|i: int, lane: int| 0 <= i < outs.len() && 0 <= lane < 32 implies (
    #[trigger] outs[i][lane]).0 == 32 * blocks[i] + lane by {
        assert(oracle.block_distances(blocks[i] as int, outs[i]));
    }
    lemma_admitted_all_each(outs, blocks, limit, cut, seen, outs.len() as int);
    let all = admitted_all(outs, limit, cut, seen, outs.len() as int);
    assert(all.0 == found && all.1 == after.0);
    if scanned.finite() {
        lemma_union_len(scanned, blocks);
    }
    assert forall|i: u32| #[trigger]
        after.0.contains(i) <==> seen.contains(i) || i < bound_of(limit) && blocks.contains(
            (i / 32) as u32,
        ) by {
        if blocks.contains((i / 32) as u32) {
            let j = blocks.index_of((i / 32) as u32);
            assert(blocks[j] == i / 32);
        }
    }
    assert forall|j: int, i: u32|
        0 <= j < outs.len() && #[trigger] blocks[j] == i / 32 implies #[trigger] oracle.is_distance(
        i as int,
        outs[j][i as int % 32].1,
    ) by {
        let lane = i as int % 32;
        assert(oracle.block_distances(blocks[j] as int, outs[j]));
        assert(32 * blocks[j] + lane == i);
        assert(outs[j][lane].0 == 32 * blocks[j] + lane);
    }
    assert forall|i: u32| #[trigger] after.0.contains(i) && !seen.contains(i) implies is_found(
        oracle,
        cutoff,
        found,
        i,
    ) by {
        let j = choose|j: int|
            0 <= j < outs.len() && #[trigger] found_in_block(outs, blocks, cut, found, i, j);
        let d = outs[j][i as int % 32].1;
        law_no_cutoff_takes_all_numbers(d, cutoff);
        assert(blocks[j] == i / 32);
        assert(oracle.is_distance(i as int, d));
    }
    assert forall|k: int| 0 <= k < found.len() implies {
        &&& after.0.contains((#[trigger] found[k]).0)
        &&& !seen.contains(found[k].0)
        &&& oracle.is_distance(found[k].0 as int, found[k].1)
        &&& below_cutoff(found[k].1, cutoff)
    } by {
        law_no_cutoff_takes_all_numbers(found[k].1, cutoff);
        let j = choose|j: int|
            0 <= j < outs.len() && #[trigger] blocks[j] == found[k].0 / 32 && found[k].1
                == outs[j][found[k].0 as int % 32].1;
        assert(blocks[j] == found[k].0 / 32);
        assert(oracle.is_distance(found[k].0 as int, outs[j][found[k].0 as int % 32].1));
    }
}

/// Processing neighbors by blocks scans the blocks in which neighbors lie, where they
/// have not been scanned, and sees all vectors of the index in them. Exactly the new
/// ones whose distance is below the cutoff are found, in ascending order; without a
/// cutoff, all whose distance is a number other than infinity. Each block costs 32
/// distances.
pub proof fn law_blocks_find_vectors<
    'a,
    const B: usize,
    F: Fn(VectorFactors, u16) -> Distance,
>(
    oracle: &RabitqFastScanOracle<'a, B, F>,
    neighbors: Seq<IndexT>,
    cutoff: Option<Distance>,
    seen: Set<u32>,
    scanned: Set<u32>,
    after: (Set<u32>, Set<u32>, Seq<(IndexT, Distance)>, int),
)
    requires
        oracle.neighbors_step(
            neighbors,
            cutoff,
            seen,
            scanned,
            after.0,
            after.1,
            after.2,
            after.3,
        ),
    ensures
        forall|i: u32| #[trigger]
            after.0.contains(i) <==> seen.contains(i) || i < oracle.fastscan.n
                && !scanned.contains((i / 32) as u32) && exists|k: int|
                0 <= k < neighbors.len() && #[trigger] neighbors[k] / 32 == i / 32,
        forall|b: u32| #[trigger]
            after.1.contains(b) <==> scanned.contains(b) || exists|k: int|
                0 <= k < neighbors.len() && #[trigger] neighbors[k] / 32 == b,
        finds_new(oracle, cutoff, seen, after.0, after.2),
        forall|k: int, l: int|
            0 <= k < l < after.2.len() ==> (#[trigger] after.2[k]).0 < (#[trigger] after.2[l]).0,
        scanned.finite() ==> after.1.finite() && after.3 == 32 * (after.1.len() - scanned.len()),
{
    assert(oracle.block_step(
        neighbors,
        cutoff,
        seen,
        scanned,
        after.0,
        after.1,
        after.2,
        after.3,
    ));
    let blocks = choose|blocks: Seq<u32>|
        {
            &&& #[trigger] are_blocks_of(blocks, neighbors, scanned)
            &&& oracle.scan_step(
                blocks,
                Some(oracle.fastscan.n),
                cutoff,
                seen,
                scanned,
                after.0,
                after.1,
                after.2,
                after.3,
            )
        };
    lemma_scan_finds(oracle, blocks, Some(oracle.fastscan.n), cutoff, seen, scanned, after);
    assert forall|i: u32| #[trigger]
        after.0.contains(i) <==> seen.contains(i) || i < oracle.fastscan.n && !scanned.contains(
            (i / 32) as u32,
        ) && exists|k: int| 0 <= k < neighbors.len() && #[trigger] neighbors[k] / 32 == i / 32 by {
        let b = (i / 32) as u32;
        assert(blocks.contains(b) <==> !scanned.contains(b) && exists|k: int|
            0 <= k < neighbors.len() && #[trigger] neighbors[k] / 32 == b);
    }
}

/// Processing a range by blocks scans the blocks that the range touches, where they
/// have not been scanned, and sees all vectors in them, padding included. Exactly the
/// new ones whose distance is below the cutoff are found, in ascending order. An empty
/// range changes nothing.
pub proof fn law_range_finds_vectors<
    'a,
    const B: usize,
    F: Fn(VectorFactors, u16) -> Distance,
>(
    oracle: &RabitqFastScanOracle<'a, B, F>,
    start: IndexT,
    end: IndexT,
    cutoff: Option<Distance>,
    seen: Set<u32>,
    scanned: Set<u32>,
    after: (Set<u32>, Set<u32>, Seq<(IndexT, Distance)>, int),
)
    requires
        oracle.range_step(
            start,
            end,
            cutoff,
            seen,
            scanned,
            after.0,
            after.1,
            after.2,
            after.3,
        ),
    ensures
        start >= end ==> after == (seen, scanned, Seq::<(IndexT, Distance)>::empty(), 0int),
        start < end ==> {
            &&& forall|i: u32| #[trigger]
                after.0.contains(i) <==> seen.contains(i) || !scanned.contains((i / 32) as u32)
                    && start / 32 <= i / 32 <= (end - 1) / 32
            &&& forall|b: u32| #[trigger]
                after.1.contains(b) <==> scanned.contains(b) || start / 32 <= b <= (end - 1) / 32
            &&& finds_new(oracle, cutoff, seen, after.0, after.2)
            &&& forall|k: int, l: int|
                0 <= k < l < after.2.len() ==> (#[trigger] after.2[k]).0 < (
                #[trigger] after.2[l]).0
            &&& scanned.finite() ==> after.1.finite() && after.3 == 32 * (after.1.len()
                - scanned.len())
        },
{
    assert(oracle.stretch_step(
        start,
        end,
        cutoff,
        seen,
        scanned,
        after.0,
        after.1,
        after.2,
        after.3,
    ));
    if start < end {
        let blocks = choose|blocks: Seq<u32>|
            {
                &&& #[trigger] are_blocks_between(
                    blocks,
                    start as int / 32,
                    (end - 1) / 32,
                    scanned,
                )
                &&& oracle.scan_step(
                    blocks,
                    None,
                    cutoff,
                    seen,
                    scanned,
                    after.0,
                    after.1,
                    after.2,
                    after.3,
                )
            };
        lemma_scan_finds(oracle, blocks, None, cutoff, seen, scanned, after);
        assert forall|i: u32| #[trigger]
            after.0.contains(i) <==> seen.contains(i) || !scanned.contains((i / 32) as u32) && start
                / 32 <= i / 32 <= (end - 1) / 32 by {
            let b = (i / 32) as u32;
            assert(blocks.contains(b) <==> !scanned.contains(b) && start as int / 32 <= b <= (end
                - 1) / 32);
        }
    }
}

/// A search by blocks begins by scanning the block of its start: all vectors of the
/// index in it are seen and, whatever their distance, all but the start that are new
/// are found, in ascending order.
pub proof fn law_search_begins_with_block<
    'a,
    const B: usize,
    F: Fn(VectorFactors, u16) -> Distance,
>(
    oracle: &RabitqFastScanOracle<'a, B, F>,
    start: IndexT,
    seen: Set<u32>,
    scanned: Set<u32>,
    after: (Set<u32>, Set<u32>, Distance, Seq<(IndexT, Distance)>, int),
)
    requires
        oracle.init_step(start, seen, scanned, after.0, after.1, after.2, after.3, after.4),
    ensures
        forall|i: u32| #[trigger]
            after.0.contains(i) <==> seen.contains(i) || i / 32 == start / 32 && i
                < oracle.fastscan.n && i != start,
        forall|b: u32| #[trigger] after.1.contains(b) <==> scanned.contains(b) || b == start / 32,
        oracle.is_distance(start as int, after.2),
        finds_all_new(oracle, seen, after.0, after.3),
        forall|k: int, l: int|
            0 <= k < l < after.3.len() ==> (#[trigger] after.3[k]).0 < (#[trigger] after.3[l]).0,
        after.4 == 32,
{
    let limit = Some(oracle.fastscan.n);
    let skip = Some(start as usize);
    let block = start as int / 32;
    assert(oracle.start_step(start, seen, scanned, after.0, after.1, after.2, after.3, after.4));
    let out = choose|out: Seq<(usize, Distance)>|
        {
            &&& #[trigger] oracle.block_distances(block, out)
            &&& after.2 == out[start as int % 32].1
            &&& admitted(out, limit, skip, None, seen, 32) == (after.3, after.0)
        };
    lemma_admitted_each(out, block, limit, skip, None, seen, 32);
    let all = admitted(out, limit, skip, None, seen, 32);
    assert(all.0 == after.3 && all.1 == after.0);
    lemma_block_is_measured(oracle, block, out);
    assert(oracle.is_distance(32 * block + start as int % 32, out[start as int % 32].1));
    assert forall|i: u32| #[trigger]
        after.0.contains(i) <==> seen.contains(i) || i / 32 == start / 32 && i < oracle.fastscan.n
            && i != start by {
        assert((32 * block <= i < 32 * block + 32) == (i / 32 == start / 32));
    }
    lemma_block_finds_all(oracle, block, out, seen, after.0, after.3);
}

/// The distances of a block are those of its vectors.
proof fn lemma_block_is_measured<'a, const B: usize, F: Fn(VectorFactors, u16) -> Distance>(
    oracle: &RabitqFastScanOracle<'a, B, F>,
    block: int,
    out: Seq<(usize, Distance)>,
)
    requires
        oracle.block_distances(block, out),
    ensures
        forall|lane: int|
            0 <= lane < 32 ==> oracle.is_distance(32 * block + lane, (#[trigger] out[lane]).1),
{
    assert forall|lane: int| 0 <= lane < 32 implies oracle.is_distance(
        32 * block + lane,
        (#[trigger] out[lane]).1,
    ) by {
        assert(out[lane].0 == 32 * block + lane);
    }
}

/// Where all new vectors of a block are found with their distances in it, all that is
/// new is found.
proof fn lemma_block_finds_all<'a, const B: usize, F: Fn(VectorFactors, u16) -> Distance>(
    oracle: &RabitqFastScanOracle<'a, B, F>,
    block: int,
    out: Seq<(usize, Distance)>,
    seen: Set<u32>,
    seen_after: Set<u32>,
    found: Seq<(IndexT, Distance)>,
)
    requires
        forall|lane: int|
            0 <= lane < 32 ==> oracle.is_distance(32 * block + lane, (#[trigger] out[lane]).1),
        forall|i: u32| seen.contains(i) ==> #[trigger] seen_after.contains(i),
        forall|i: u32| #[trigger]
            seen_after.contains(i) && !seen.contains(i) ==> 32 * block <= i < 32 * block + 32
                && found.contains((i, out[i - 32 * block].1)),
        forall|k: int|
            0 <= k < found.len() ==> {
                let i = (#[trigger] found[k]).0;
                &&& seen_after.contains(i)
                &&& !seen.contains(i)
                &&& 32 * block <= i < 32 * block + 32
                &&& found[k].1 == out[i - 32 * block].1
            },
        forall|k: int, l: int|
            0 <= k < l < found.len() ==> (#[trigger] found[k]).0 < (#[trigger] found[l]).0,
    ensures
        finds_all_new(oracle, seen, seen_after, found),
{
    assert forall|i: u32| #[trigger] seen_after.contains(i) && !seen.contains(i) implies exists|
        distance: Distance,
    | #[trigger]
        oracle.is_distance(i as int, distance) && found.contains((i, distance)) by {
        let lane = i - 32 * block;
        assert(oracle.is_distance(32 * block + lane, out[lane].1));
    }
    assert forall|k: int| 0 <= k < found.len() implies {
        &&& seen_after.contains((#[trigger] found[k]).0)
        &&& !seen.contains(found[k].0)
        &&& oracle.is_distance(found[k].0 as int, found[k].1)
    } by {
        let lane = found[k].0 - 32 * block;
        assert(oracle.is_distance(32 * block + lane, out[lane].1));
    }
}

/// The distance of a vector is what the estimate gives for its factors and its scan
/// result.
pub proof fn law_block_distance_is_estimate<
    'a,
    const B: usize,
    F: Fn(VectorFactors, u16) -> Distance,
>(oracle: &RabitqFastScanOracle<'a, B, F>, i: int, distance: Distance)
    ensures
        oracle.is_distance(i, distance) == call_ensures(
            oracle.estimate,
            (oracle.fastscan.factors@[i], oracle.raw_ip(i)),
            distance,
        ),
{
}

/// To compare a query with block `i` is to compute the distances of its 32 vectors, in
/// order.
pub proof fn law_comparison_is_block<
    'a,
    const B: usize,
    F: Fn(VectorFactors, u16) -> Distance,
>(oracle: &RabitqFastScanOracle<'a, B, F>, i: int, out: Seq<(usize, Distance)>)
    ensures
        oracle.compared(i, out) == {
            &&& out.len() == 32
            &&& forall|lane: int|
                0 <= lane < 32 ==> (#[trigger] out[lane]).0 == 32 * i + lane && oracle.is_distance(
                    32 * i + lane,
                    out[lane].1,
                )
        },
{
}

impl<'a, const B: usize, F: Fn(VectorFactors, u16) -> Distance> DistanceOracle
    for RabitqFastScanOracle<'a, B, F> {
    open spec fn can_compare(&self, i: int) -> bool {
        self.sound() && i < self.fastscan.n_blocks
    }

    /// An index stands for a block.
    open spec fn compared(&self, i: int, out: Seq<(usize, Distance)>) -> bool {
        self.block_distances(i, out)
    }

    fn compare(&self, block_idx: usize) -> (out: Vec<(usize, Distance)>) {
        let distances = self.compute_block_distances(block_idx);
        slice_to_vec(distances.as_slice())
    }
}

impl<'a, const B: usize, F: Fn(VectorFactors, u16) -> Distance> ThoroughOracle for RabitqFastScanOracle<
    'a,
    B,
    F,
> {
    proof fn lemma_start_is_measured(
        &self,
        start: IndexT,
        seen: Set<u32>,
        scanned: Set<u32>,
        after: (Set<u32>, Set<u32>, Distance, Seq<(IndexT, Distance)>, int),
    ) {
        law_search_begins_with_block(self, start, seen, scanned, after);
    }

    proof fn lemma_new_are_found(
        &self,
        neighbors: Seq<IndexT>,
        cutoff: Option<Distance>,
        seen: Set<u32>,
        scanned: Set<u32>,
        after: (Set<u32>, Set<u32>, Seq<(IndexT, Distance)>, int),
    ) {
        law_blocks_find_vectors(self, neighbors, cutoff, seen, scanned, after);
    }
}

impl<'a, const B: usize, F: Clone> Clone for RabitqFastScanOracle<'a, B, F> {
    fn clone(&self) -> (copy: RabitqFastScanOracle<'a, B, F>)
        ensures
            copy.fastscan == self.fastscan,
            copy.luts@ == self.luts@,
            cloned(self.estimate, copy.estimate),
    {
        let copy = RabitqFastScanOracle {
            fastscan: self.fastscan,
            luts: self.luts.clone(),
            estimate: self.estimate.clone(),
        };
        assert(copy.luts@ =~= self.luts@);
        copy
    }
}

impl<'a, const B: usize, F> Named for RabitqFastScanOracle<'a, B, F> {
    open spec fn title(&self) -> Seq<char> {
        "RabitqFastScanOracle"@
    }

    fn name(&self) -> (name: &str) {
        "RabitqFastScanOracle"
    }
}

impl<const B: usize> RabitqFastScan<B> {
    /// An oracle for one query: its lookup tables, and how the scan result of a
    /// vector becomes its distance.
    pub fn make_oracle<'a, F: Fn(VectorFactors, u16) -> Distance>(
        &'a self,
        luts: Vec<u8>,
        estimate: F,
    ) -> (oracle: RabitqFastScanOracle<'a, B, F>)
        ensures
            oracle.fastscan == self,
            oracle.luts == luts,
            oracle.estimate == estimate,
            oracle.explained(),
    {
        RabitqFastScanOracle::new(self, luts, estimate)
    }
}

/// The blocks to scan for neighbors: each block in which a neighbor lies and that has
/// not been scanned, once, in ascending order; and no other.
pub proof fn law_blocks_to_scan(blocks: Seq<u32>, neighbors: Seq<IndexT>, scanned: Set<u32>)
    requires
        are_blocks_of(blocks, neighbors, scanned),
    ensures
        forall|i: int, j: int|
            0 <= i < j < blocks.len() ==> #[trigger] blocks[i] < #[trigger] blocks[j],
        forall|k: int|
            0 <= k < neighbors.len() ==> scanned.contains((#[trigger] neighbors[k] / 32) as u32)
                || blocks.contains((neighbors[k] / 32) as u32),
        forall|i: int|
            0 <= i < blocks.len() ==> !scanned.contains(#[trigger] blocks[i]) && exists|k: int|
                0 <= k < neighbors.len() && #[trigger] neighbors[k] / 32 == blocks[i],
{
    assert forall|k: int| 0 <= k < neighbors.len() implies scanned.contains(
        (#[trigger] neighbors[k] / 32) as u32,
    ) || blocks.contains((neighbors[k] / 32) as u32) by {
        let b = (neighbors[k] / 32) as u32;
        assert(neighbors[k] / 32 == b);
        assert(blocks.contains(b) <==> !scanned.contains(b) && exists|j: int|
            0 <= j < neighbors.len() && #[trigger] neighbors[j] / 32 == b);
    }
    assert forall|i: int| 0 <= i < blocks.len() implies !scanned.contains(#[trigger] blocks[i])
        && exists|k: int| 0 <= k < neighbors.len() && #[trigger] neighbors[k] / 32 == blocks[i] by {
        assert(blocks.contains(blocks[i]));
    }
}

} // verus!
