//! The oracle that computes distances one vector at a time.

use std::ops::Range;
use vstd::prelude::*;

use crate::beam_search_oracle::{
    below_cutoff, finds_new, grows_below, is_found, newly_seen, BeamSearchOracle, Candidates,
    ThoroughOracle,
};
use crate::classic_graph::IndexT;
use crate::codes::{code_nibble, lemma_code_nibble, nibble_at};
use crate::distance::{law_order_on_patterns, Distance};
use crate::fast_scan_oracle::cutoff_or_infinity;
use crate::named::Named;
use crate::rabitq_fast_scan::{RabitqFastScan, VectorFactors};
use crate::seen_set::{lemma_len_below, SeenSet};

verus! {

/// An oracle for one query: how the nibbles of a vector's code become its distance.
pub struct RabitqScalarOracle<'a, const B: usize, F> {
    pub fastscan: &'a RabitqFastScan<B>,
    /// From the factors of a vector and the nibbles of its code to its distance.
    pub estimate: F,
}

/// What `visited` has gathered: candidates, seen vectors, and a count.
pub struct Gathered {
    pub found: Seq<(IndexT, Distance)>,
    pub seen: Set<u32>,
    pub count: int,
}

/// What the first `m` neighbors lead to, where the `k`-th, if it is new, has the
/// `k`-th distance: those below `valid` that have not been seen are seen and
/// counted, and those closer than the cutoff become candidates.
pub open spec fn visited(
    neighbors: Seq<IndexT>,
    distances: Seq<Distance>,
    valid: int,
    cutoff: Distance,
    seen: Set<u32>,
    m: int,
) -> Gathered
    decreases m,
{
    if m <= 0 {
        Gathered { found: Seq::empty(), seen, count: 0 }
    } else {
        let so_far = visited(neighbors, distances, valid, cutoff, seen, m - 1);
        let neighbor = neighbors[m - 1];
        if neighbor >= valid || so_far.seen.contains(neighbor) {
            so_far
        } else {
            Gathered {
                found: if distances[m - 1].less(cutoff) {
                    so_far.found.push((neighbor, distances[m - 1]))
                } else {
                    so_far.found
                },
                seen: so_far.seen.insert(neighbor),
                count: so_far.count + 1,
            }
        }
    }
}

/// Whether neighbor `k` is new when its turn comes.
pub open spec fn is_new(
    neighbors: Seq<IndexT>,
    distances: Seq<Distance>,
    valid: int,
    cutoff: Distance,
    seen: Set<u32>,
    k: int,
) -> bool {
    &&& neighbors[k] < valid
    &&& !visited(neighbors, distances, valid, cutoff, seen, k).seen.contains(neighbors[k])
}

/// What `visited` yields: new vectors, each once; all neighbors but padding are seen
/// then.
proof fn lemma_visited(
    neighbors: Seq<IndexT>,
    distances: Seq<Distance>,
    valid: int,
    cutoff: Distance,
    seen: Set<u32>,
    m: int,
)
    requires
        0 <= m <= neighbors.len(),
        seen.finite(),
    ensures
        ({
            let gathered = visited(neighbors, distances, valid, cutoff, seen, m);
            &&& newly_seen(gathered.found, valid, seen, gathered.seen)
            &&& grows_below(seen, gathered.seen, valid)
            &&& gathered.seen.finite()
            &&& gathered.seen.len() == seen.len() + gathered.count
            &&& 0 <= gathered.count <= m
            &&& forall|i: u32| #[trigger]
                gathered.seen.contains(i) ==> seen.contains(i) || neighbors.contains(i)
            &&& forall|k: int|
                0 <= k < m && (#[trigger] neighbors[k]) < valid ==> gathered.seen.contains(
                    neighbors[k],
                )
        }),
    decreases m,
{
    if m > 0 {
        lemma_visited(neighbors, distances, valid, cutoff, seen, m - 1);
    }
}

/// `visited` looks at the first `m` distances only.
proof fn lemma_visited_prefix(
    neighbors: Seq<IndexT>,
    distances: Seq<Distance>,
    others: Seq<Distance>,
    valid: int,
    cutoff: Distance,
    seen: Set<u32>,
    m: int,
)
    requires
        0 <= m <= neighbors.len(),
        forall|k: int| 0 <= k < m ==> #[trigger] distances[k] == others[k],
    ensures
        visited(neighbors, distances, valid, cutoff, seen, m) == visited(
            neighbors,
            others,
            valid,
            cutoff,
            seen,
            m,
        ),
    decreases m,
{
    if m > 0 {
        lemma_visited_prefix(neighbors, distances, others, valid, cutoff, seen, m - 1);
    }
}

/// Whether vector `i` is new at neighbor `k`, and gathered with its distance exactly
/// where that is closer than the cutoff.
spec fn gathered_at(
    neighbors: Seq<IndexT>,
    distances: Seq<Distance>,
    valid: int,
    cutoff: Distance,
    seen: Set<u32>,
    found: Seq<(IndexT, Distance)>,
    i: u32,
    k: int,
) -> bool {
    &&& neighbors[k] == i
    &&& is_new(neighbors, distances, valid, cutoff, seen, k)
    &&& distances[k].less(cutoff) ==> found.contains((i, distances[k]))
    &&& !distances[k].less(cutoff) ==> forall|j: int|
        0 <= j < found.len() ==> (#[trigger] found[j]).0 != i
}

/// What `visited` gathers, vector by vector, and in which order.
proof fn lemma_gathered(
    neighbors: Seq<IndexT>,
    distances: Seq<Distance>,
    valid: int,
    cutoff: Distance,
    seen: Set<u32>,
    m: int,
)
    requires
        0 <= m <= neighbors.len(),
    ensures
        ({
            let gathered = visited(neighbors, distances, valid, cutoff, seen, m);
            let found = gathered.found;
            &&& forall|i: u32| #[trigger]
                gathered.seen.contains(i) <==> seen.contains(i) || i < valid && exists|k: int|
                    0 <= k < m && #[trigger] neighbors[k] == i
            &&& forall|i: u32| #[trigger]
                gathered.seen.contains(i) && !seen.contains(i) ==> exists|k: int|
                    0 <= k < m && #[trigger] gathered_at(
                        neighbors,
                        distances,
                        valid,
                        cutoff,
                        seen,
                        found,
                        i,
                        k,
                    )
            &&& forall|j: int|
                0 <= j < found.len() ==> {
                    &&& gathered.seen.contains((#[trigger] found[j]).0)
                    &&& !seen.contains(found[j].0)
                    &&& found[j].1.less(cutoff)
                    &&& exists|k: int|
                        0 <= k < m && is_new(neighbors, distances, valid, cutoff, seen, k)
                            && found[j] == (#[trigger] neighbors[k], distances[k])
                }
            &&& forall|j: int, l: int|
                0 <= j < l < found.len() ==> (#[trigger] found[j]).0 != (#[trigger] found[l]).0
        }),
    decreases m,
{
    if m > 0 {
        lemma_gathered(neighbors, distances, valid, cutoff, seen, m - 1);
        let so_far = visited(neighbors, distances, valid, cutoff, seen, m - 1);
        let gathered = visited(neighbors, distances, valid, cutoff, seen, m);
        let last = neighbors[m - 1];
        let new = last < valid && !so_far.seen.contains(last);
        assert forall|i: u32| #[trigger]
            gathered.seen.contains(i) <==> seen.contains(i) || i < valid && exists|k: int|
                0 <= k < m && #[trigger] neighbors[k] == i by {
            if so_far.seen.contains(i) && !seen.contains(i) {
                let k = choose|k: int| 0 <= k < m - 1 && #[trigger] neighbors[k] == i;
                assert(neighbors[k] == i);
            }
            if i == last {
                assert(neighbors[m - 1] == i);
            }
        }
        assert forall|i: u32| #[trigger]
            gathered.seen.contains(i) && !seen.contains(i) implies exists|k: int|
            0 <= k < m && #[trigger] gathered_at(
                neighbors,
                distances,
                valid,
                cutoff,
                seen,
                gathered.found,
                i,
                k,
            ) by {
            if so_far.seen.contains(i) {
                let k = choose|k: int|
                    0 <= k < m - 1 && #[trigger] gathered_at(
                        neighbors,
                        distances,
                        valid,
                        cutoff,
                        seen,
                        so_far.found,
                        i,
                        k,
                    );
                if so_far.found.contains((i, distances[k])) {
                    let j = so_far.found.index_of((i, distances[k]));
                    assert(gathered.found[j] == (i, distances[k]));
                }
                assert(gathered_at(
                    neighbors,
                    distances,
                    valid,
                    cutoff,
                    seen,
                    gathered.found,
                    i,
                    k,
                ));
            } else {
                if distances[m - 1].less(cutoff) {
                    assert(gathered.found[so_far.found.len() as int] == (i, distances[m - 1]));
                }
                assert(gathered_at(
                    neighbors,
                    distances,
                    valid,
                    cutoff,
                    seen,
                    gathered.found,
                    i,
                    m - 1,
                ));
            }
        }
        assert forall|j: int| 0 <= j < gathered.found.len() implies {
            &&& gathered.seen.contains((#[trigger] gathered.found[j]).0)
            &&& !seen.contains(gathered.found[j].0)
            &&& gathered.found[j].1.less(cutoff)
            &&& exists|k: int|
                0 <= k < m && is_new(neighbors, distances, valid, cutoff, seen, k)
                    && gathered.found[j] == (#[trigger] neighbors[k], distances[k])
        } by {
            if j < so_far.found.len() {
                assert(gathered.found[j] == so_far.found[j]);
                let k = choose|k: int|
                    0 <= k < m - 1 && is_new(neighbors, distances, valid, cutoff, seen, k)
                        && so_far.found[j] == (#[trigger] neighbors[k], distances[k]);
                assert(gathered.found[j] == (neighbors[k], distances[k]));
            } else {
                assert(gathered.found[j] == (neighbors[m - 1], distances[m - 1]));
                assert(is_new(neighbors, distances, valid, cutoff, seen, m - 1));
            }
        }
    }
}

/// Whether wherever `b` occurs among the first `m` neighbors, `a` occurs before it.
#[verifier::opaque]
pub open spec fn comes_before(neighbors: Seq<IndexT>, m: int, a: u32, b: u32) -> bool {
    forall|k: int|
        0 <= k < m && #[trigger] neighbors[k] == b ==> exists|o: int|
            0 <= o < k && #[trigger] neighbors[o] == a
}

/// `visited` gathers vectors in the order of the neighbors.
proof fn lemma_gathered_in_order(
    neighbors: Seq<IndexT>,
    distances: Seq<Distance>,
    valid: int,
    cutoff: Distance,
    seen: Set<u32>,
    m: int,
)
    requires
        0 <= m <= neighbors.len(),
    ensures
        ({
            let found = visited(neighbors, distances, valid, cutoff, seen, m).found;
            forall|j: int, l: int|
                0 <= j < l < found.len() ==> comes_before(
                    neighbors,
                    m,
                    (#[trigger] found[j]).0,
                    (#[trigger] found[l]).0,
                )
        }),
    decreases m,
{
    if m > 0 {
        lemma_gathered_in_order(neighbors, distances, valid, cutoff, seen, m - 1);
        lemma_gathered(neighbors, distances, valid, cutoff, seen, m - 1);
        let so_far = visited(neighbors, distances, valid, cutoff, seen, m - 1);
        let found = visited(neighbors, distances, valid, cutoff, seen, m).found;
        assert forall|j: int, l: int| 0 <= j < l < found.len() implies comes_before(
            neighbors,
            m,
            (#[trigger] found[j]).0,
            (#[trigger] found[l]).0,
        ) by {
            reveal(comes_before);
            let (a, b) = (found[j].0, found[l].0);
            assert(found[j] == so_far.found[j]);
            let o = choose|o: int|
                0 <= o < m - 1 && is_new(neighbors, distances, valid, cutoff, seen, o)
                    && so_far.found[j] == (#[trigger] neighbors[o], distances[o]);
            assert(neighbors[o] == a);
            if l < so_far.found.len() {
                assert(comes_before(neighbors, m - 1, so_far.found[j].0, so_far.found[l].0));
            } else {
                assert forall|k: int| 0 <= k < m && #[trigger] neighbors[k] == b implies k == m
                    - 1 by {
                    if k < m - 1 {
                        assert(so_far.seen.contains(neighbors[k]));
                    }
                }
            }
        }
    }
}

/// Below infinity are the numbers other than infinity.
pub proof fn law_no_cutoff_takes_all_numbers(distance: Distance, cutoff: Option<Distance>)
    ensures
        distance.less(cutoff_or_infinity(cutoff)) == below_cutoff(distance, cutoff),
{
    if cutoff is None {
        law_order_on_patterns(distance, cutoff_or_infinity(cutoff));
    }
}

/// The numbers of a range, in order.
pub open spec fn numbers(start: IndexT, end: IndexT) -> Seq<IndexT> {
    if start >= end {
        Seq::empty()
    } else {
        Seq::new((end - start) as nat, |k: int| (start + k) as IndexT)
    }
}

impl<'a, const B: usize, F: Fn(VectorFactors, &Vec<u8>) -> Distance> RabitqScalarOracle<'a, B, F> {
    /// Whether the codes are whole, and every code has an estimate.
    pub open spec fn sound(&self) -> bool {
        &&& self.fastscan.wf()
        &&& B % 64 < 4
        &&& forall|f: VectorFactors, nibbles: &Vec<u8>| #[trigger]
            call_requires(self.estimate, (f, nibbles))
    }

    /// Whether these are the nibbles of vector `v`.
    pub open spec fn are_nibbles_of(&self, nibbles: Seq<u8>, v: int) -> bool {
        &&& nibbles.len() == B / 4
        &&& forall|k: int|
            0 <= k < nibbles.len() ==> #[trigger] nibbles[k] == code_nibble(
                self.fastscan.binary_codes@,
                B as int / 64,
                v,
                k,
            )
    }

    /// Whether visiting the neighbors in order can give these results.
    pub open spec fn visit_step(
        &self,
        neighbors: Seq<IndexT>,
        cutoff: Option<Distance>,
        seen: Set<u32>,
        seen_after: Set<u32>,
        found: Seq<(IndexT, Distance)>,
        comparisons: int,
    ) -> bool {
        let cut = cutoff_or_infinity(cutoff);
        let valid = self.fastscan.n as int;
        exists|distances: Seq<Distance>|
            {
                &&& distances.len() == neighbors.len()
                &&& forall|k: int|
                    0 <= k < distances.len() && is_new(
                        neighbors,
                        distances,
                        valid,
                        cut,
                        seen,
                        k,
                    ) ==> self.estimates(neighbors[k] as int, #[trigger] distances[k])
                &&& #[trigger] visited(
                    neighbors,
                    distances,
                    valid,
                    cut,
                    seen,
                    neighbors.len() as int,
                ) == (Gathered { found, seen: seen_after, count: comparisons })
            }
    }

    /// Whether `distance` is an estimate for vector `i`.
    pub open spec fn estimates(&self, i: int, distance: Distance) -> bool {
        exists|nibbles: Vec<u8>|
            #[trigger] self.are_nibbles_of(nibbles@, i) && call_ensures(
                self.estimate,
                (self.fastscan.factors@[i], &nibbles),
                distance,
            )
    }

    /// Whether equal factors and nibbles have equal estimates.
    pub open spec fn estimates_once(&self) -> bool {
        forall|f: VectorFactors, n1: Vec<u8>, n2: Vec<u8>, one: Distance, other: Distance|
            #![trigger call_ensures(self.estimate, (f, &n1), one), call_ensures(self.estimate, (f, &n2), other)]
            n1@ == n2@ && call_ensures(self.estimate, (f, &n1), one) && call_ensures(
                self.estimate,
                (f, &n2),
                other,
            ) ==> one == other
    }

    /// Whether seen vectors exist.
    pub open spec fn agree(&self, seen: Set<u32>) -> bool {
        forall|i: u32| #[trigger] seen.contains(i) ==> i < 32 * self.fastscan.n_blocks
    }

    /// Whether a search can begin like this: only the distance of the start is
    /// computed.
    pub open spec fn start_step(
        &self,
        start: IndexT,
        seen: Set<u32>,
        scanned: Set<u32>,
        seen_after: Set<u32>,
        scanned_after: Set<u32>,
        initial: Distance,
        additional: Seq<(IndexT, Distance)>,
        comparisons: int,
    ) -> bool {
        &&& seen_after == seen
        &&& scanned_after == scanned
        &&& self.estimates(start as int, initial)
        &&& additional == Seq::<(IndexT, Distance)>::empty()
        &&& comparisons == 1
    }

    /// What the oracle means by the terms of `BeamSearchOracle`.
    pub open spec fn explained(&self) -> bool {
        &&& self.ready() == self.sound()
        &&& self.valid() == self.fastscan.n
        &&& forall|i: int| #[trigger] self.measures(i) == (i < 32 * self.fastscan.n_blocks)
        &&& forall|i: IndexT| #[trigger]
            self.accepts(i) == (i < self.fastscan.n ==> i < 32 * self.fastscan.n_blocks)
        &&& forall|i: IndexT, seen: Set<u32>, scanned: Set<u32>| #[trigger]
            self.passes_over(i, seen, scanned) == seen.contains(i)
        &&& forall|i: int, d: Distance| #[trigger] self.is_distance(i, d) == self.estimates(i, d)
        &&& forall|seen: Set<u32>, scanned: Set<u32>| #[trigger]
            self.keeps(seen, scanned) == self.agree(seen)
        &&& forall|seen: Set<u32>, scanned: Set<u32>| #[trigger]
            self.spent(seen, scanned) == seen.len()
        &&& forall|
            start: IndexT,
            seen: Set<u32>,
            scanned: Set<u32>,
            seen_after: Set<u32>,
            scanned_after: Set<u32>,
            initial: Distance,
            additional: Seq<(IndexT, Distance)>,
            comparisons: int,
        | #[trigger]
            self.init_step(
                start,
                seen,
                scanned,
                seen_after,
                scanned_after,
                initial,
                additional,
                comparisons,
            ) == self.start_step(
                start,
                seen,
                scanned,
                seen_after,
                scanned_after,
                initial,
                additional,
                comparisons,
            )
        &&& forall|
            neighbors: Seq<IndexT>,
            cutoff: Option<Distance>,
            seen: Set<u32>,
            scanned: Set<u32>,
            seen_after: Set<u32>,
            scanned_after: Set<u32>,
            found: Seq<(IndexT, Distance)>,
            comparisons: int,
        | #[trigger]
            self.neighbors_step(
                neighbors,
                cutoff,
                seen,
                scanned,
                seen_after,
                scanned_after,
                found,
                comparisons,
            ) == (scanned_after == scanned && self.visit_step(
                neighbors,
                cutoff,
                seen,
                seen_after,
                found,
                comparisons,
            ))
        &&& forall|
            start: IndexT,
            end: IndexT,
            cutoff: Option<Distance>,
            seen: Set<u32>,
            scanned: Set<u32>,
            seen_after: Set<u32>,
            scanned_after: Set<u32>,
            found: Seq<(IndexT, Distance)>,
            comparisons: int,
        | #[trigger]
            self.range_step(
                start,
                end,
                cutoff,
                seen,
                scanned,
                seen_after,
                scanned_after,
                found,
                comparisons,
            ) == (scanned_after == scanned && self.visit_step(
                numbers(start, end),
                cutoff,
                seen,
                seen_after,
                found,
                comparisons,
            ))
        &&& self.is_deterministic() == self.estimates_once()
    }

    /// Every oracle means this.
    pub proof fn lemma_explained(&self)
        ensures
            self.explained(),
    {
    }

    pub fn new(fastscan: &'a RabitqFastScan<B>, estimate: F) -> (oracle: RabitqScalarOracle<
        'a,
        B,
        F,
    >)
        ensures
            oracle.fastscan == fastscan,
            oracle.estimate == estimate,
            oracle.explained(),
    {
        let oracle = RabitqScalarOracle { fastscan, estimate };
        proof {
            oracle.lemma_explained();
        }
        oracle
    }

    /// The nibbles of vector `idx`.
    pub fn nibbles(&self, idx: usize) -> (nibbles: Vec<u8>)
        requires
            self.sound(),
            idx < 32 * self.fastscan.n_blocks,
        ensures
            self.are_nibbles_of(nibbles@, idx as int),
    {
        let m = B / 4;
        let words = B / 64;
        let ghost codes = self.fastscan.binary_codes@;
        proof {
            assert(idx * words + words <= codes.len()) by (nonlinear_arith)
                requires
                    idx + 1 <= 32 * self.fastscan.n_blocks,
                    codes.len() == self.fastscan.n_blocks * 32 * words,
                    0 <= words,
            ;
            assert(self.fastscan.binary_codes.len() == codes.len());
        }
        let code_start = idx * words;
        let mut nibbles: Vec<u8> = Vec::new();
        for k in 0..m
            invariant
                m == B / 4,
                words == B / 64,
                B % 64 < 4,
                codes == self.fastscan.binary_codes@,
                self.fastscan.binary_codes.len() == codes.len(),
                code_start == idx * words,
                code_start + words <= codes.len(),
                nibbles@.len() == k,
                forall|j: int|
                    0 <= j < k ==> #[trigger] nibbles@[j] == code_nibble(
                        codes,
                        B as int / 64,
                        idx as int,
                        j,
                    ),
        {
            proof {
                lemma_code_nibble(codes, B as int / 64, idx as int, k as int);
            }
            nibbles.push(nibble_at(self.fastscan.binary_codes.as_slice(), code_start, k));
        }
        nibbles
    }

    /// The distance of vector `idx`.
    pub fn compute_distance(&self, idx: usize) -> (distance: Distance)
        requires
            self.sound(),
            idx < 32 * self.fastscan.n_blocks,
        ensures
            self.estimates(idx as int, distance),
    {
        let nibbles = self.nibbles(idx);
        (self.estimate)(self.fastscan.factors[idx], &nibbles)
    }

    /// The index that the oracle goes by.
    pub fn fastscan(&self) -> (fastscan: &RabitqFastScan<B>)
        ensures
            fastscan == self.fastscan,
    {
        self.fastscan
    }

    /// The number of vectors.
    pub fn max_valid_idx(&self) -> (valid: usize)
        ensures
            valid == self.fastscan.n,
    {
        self.fastscan.len()
    }

    /// Visits the neighbors in order.
    fn visit(
        &self,
        neighbors: &[IndexT],
        seen: &mut SeenSet,
        frontier: &mut Candidates,
        cutoff: Option<Distance>,
    ) -> (comparisons: usize)
        requires
            self.sound(),
            old(seen).wf(),
            forall|k: int|
                0 <= k < neighbors@.len() && (#[trigger] neighbors@[k]) < self.fastscan.n && !old(
                    seen,
                )@.contains(neighbors@[k]) ==> neighbors@[k] < 32 * self.fastscan.n_blocks,
        ensures
            final(seen).wf(),
            final(frontier)@.len() >= old(frontier)@.len(),
            final(frontier)@.subrange(0, old(frontier)@.len() as int) == old(frontier)@,
            self.visit_step(
                neighbors@,
                cutoff,
                old(seen)@,
                final(seen)@,
                final(frontier)@.subrange(
                    old(frontier)@.len() as int,
                    final(frontier)@.len() as int,
                ),
                comparisons as int,
            ),
    {
        let max_valid = self.max_valid_idx();
        let cutoff_dist = match cutoff {
            Some(c) => c,
            None => Distance::infinity(),
        };
        let ghost valid = self.fastscan.n as int;
        let ghost seen_before = seen@;
        let ghost before = frontier@;
        let ghost mut distances: Seq<Distance> = Seq::empty();
        let mut comparisons: usize = 0;
        proof {
            seen.lemma_finite();
            assert(before + Seq::empty() =~= before);
        }
        for i in 0..neighbors.len()
            invariant
                self.sound(),
                seen.wf(),
                max_valid == valid,
                valid == self.fastscan.n,
                seen_before.finite(),
                forall|k: int|
                    0 <= k < neighbors@.len() && (#[trigger] neighbors@[k]) < self.fastscan.n
                        && !seen_before.contains(neighbors@[k]) ==> neighbors@[k] < 32
                        * self.fastscan.n_blocks,
                distances.len() == i,
                forall|k: int|
                    0 <= k < i && is_new(
                        neighbors@,
                        distances,
                        valid,
                        cutoff_dist,
                        seen_before,
                        k,
                    ) ==> self.estimates(neighbors@[k] as int, #[trigger] distances[k]),
                ({
                    let gathered = visited(
                        neighbors@,
                        distances,
                        valid,
                        cutoff_dist,
                        seen_before,
                        i as int,
                    );
                    &&& frontier@ == before + gathered.found
                    &&& seen@ == gathered.seen
                    &&& comparisons == gathered.count
                }),
        {
            let neighbor = neighbors[i];
            let ghost so_far = visited(
                neighbors@,
                distances,
                valid,
                cutoff_dist,
                seen_before,
                i as int,
            );
            proof {
                lemma_visited(
                    neighbors@,
                    distances,
                    valid,
                    cutoff_dist,
                    seen_before,
                    i as int,
                );
            }
            let ghost mut distance: Distance = cutoff_dist;
            if (neighbor as usize) < max_valid {
                if seen.insert(neighbor) {
                    let dist = self.compute_distance(neighbor as usize);
                    proof {
                        distance = dist;
                    }
                    comparisons = comparisons + 1;
                    if dist.less_than(cutoff_dist) {
                        frontier.push((neighbor, dist));
                        assert((before + so_far.found).push((neighbor, dist)) =~= before
                            + so_far.found.push((neighbor, dist)));
                    }
                } else {
                    assert(so_far.seen.insert(neighbor) =~= so_far.seen);
                }
            }
            proof {
                let longer = distances.push(distance);
                assert forall|k: int| 0 <= k <= i implies #[trigger] visited(
                    neighbors@,
                    longer,
                    valid,
                    cutoff_dist,
                    seen_before,
                    k,
                ) == visited(neighbors@, distances, valid, cutoff_dist, seen_before, k) by {
                    lemma_visited_prefix(
                        neighbors@,
                        distances,
                        longer,
                        valid,
                        cutoff_dist,
                        seen_before,
                        k,
                    );
                }
                assert forall|k: int| 0 <= k < i + 1 && is_new(
                    neighbors@,
                    longer,
                    valid,
                    cutoff_dist,
                    seen_before,
                    k,
                ) implies self.estimates(neighbors@[k] as int, #[trigger] longer[k]) by {
                    if k < i {
                        assert(longer[k] == distances[k]);
                        assert(is_new(
                            neighbors@,
                            distances,
                            valid,
                            cutoff_dist,
                            seen_before,
                            k,
                        ));
                    }
                }
                assert(longer[i as int] == distance);
                assert(visited(
                    neighbors@,
                    longer,
                    valid,
                    cutoff_dist,
                    seen_before,
                    i as int,
                ) == so_far);
                distances = longer;
            }
        }
        proof {
            let gathered = visited(
                neighbors@,
                distances,
                valid,
                cutoff_dist,
                seen_before,
                neighbors@.len() as int,
            );
            assert(frontier@.subrange(before.len() as int, frontier@.len() as int)
                =~= gathered.found);
            assert(frontier@.subrange(0, before.len() as int) =~= before);
            assert(cutoff_dist == cutoff_or_infinity(cutoff));
        }
        comparisons
    }
}

impl<'a, const B: usize, F: Fn(VectorFactors, &Vec<u8>) -> Distance> BeamSearchOracle
    for RabitqScalarOracle<'a, B, F> {
    open spec fn ready(&self) -> bool {
        self.sound()
    }

    open spec fn keeps(&self, seen: Set<u32>, scanned: Set<u32>) -> bool {
        self.agree(seen)
    }

    open spec fn measures(&self, i: int) -> bool {
        i < 32 * self.fastscan.n_blocks
    }

    open spec fn accepts(&self, i: IndexT) -> bool {
        i < self.fastscan.n ==> i < 32 * self.fastscan.n_blocks
    }

    open spec fn passes_over(&self, i: IndexT, seen: Set<u32>, scanned: Set<u32>) -> bool {
        seen.contains(i)
    }

    open spec fn valid(&self) -> int {
        self.fastscan.n as int
    }

    open spec fn spent(&self, seen: Set<u32>, scanned: Set<u32>) -> int {
        seen.len() as int
    }

    open spec fn is_distance(&self, i: int, distance: Distance) -> bool {
        self.estimates(i, distance)
    }

    open spec fn init_step(
        &self,
        start: IndexT,
        seen: Set<u32>,
        scanned: Set<u32>,
        seen_after: Set<u32>,
        scanned_after: Set<u32>,
        initial: Distance,
        additional: Seq<(IndexT, Distance)>,
        comparisons: int,
    ) -> bool {
        self.start_step(
            start,
            seen,
            scanned,
            seen_after,
            scanned_after,
            initial,
            additional,
            comparisons,
        )
    }

    /// The neighbors are visited in order.
    open spec fn neighbors_step(
        &self,
        neighbors: Seq<IndexT>,
        cutoff: Option<Distance>,
        seen: Set<u32>,
        scanned: Set<u32>,
        seen_after: Set<u32>,
        scanned_after: Set<u32>,
        found: Seq<(IndexT, Distance)>,
        comparisons: int,
    ) -> bool {
        &&& scanned_after == scanned
        &&& self.visit_step(neighbors, cutoff, seen, seen_after, found, comparisons)
    }

    /// The numbers of the range are visited in order.
    open spec fn range_step(
        &self,
        start: IndexT,
        end: IndexT,
        cutoff: Option<Distance>,
        seen: Set<u32>,
        scanned: Set<u32>,
        seen_after: Set<u32>,
        scanned_after: Set<u32>,
        found: Seq<(IndexT, Distance)>,
        comparisons: int,
    ) -> bool {
        &&& scanned_after == scanned
        &&& self.visit_step(numbers(start, end), cutoff, seen, seen_after, found, comparisons)
    }

    open spec fn is_deterministic(&self) -> bool {
        self.estimates_once()
    }

    proof fn lemma_init_deterministic(
        &self,
        start: IndexT,
        seen: Set<u32>,
        scanned: Set<u32>,
        one: (Set<u32>, Set<u32>, Distance, Seq<(IndexT, Distance)>, int),
        other: (Set<u32>, Set<u32>, Distance, Seq<(IndexT, Distance)>, int),
    ) {
        self.lemma_distance_deterministic(start as int, one.2, other.2);
    }

    proof fn lemma_neighbors_deterministic(
        &self,
        neighbors: Seq<IndexT>,
        cutoff: Option<Distance>,
        seen: Set<u32>,
        scanned: Set<u32>,
        one: (Set<u32>, Set<u32>, Seq<(IndexT, Distance)>, int),
        other: (Set<u32>, Set<u32>, Seq<(IndexT, Distance)>, int),
    ) {
        let cut = cutoff_or_infinity(cutoff);
        let valid = self.fastscan.n as int;
        let n = neighbors.len() as int;
        let d1 = choose|distances: Seq<Distance>|
            {
                &&& distances.len() == neighbors.len()
                &&& forall|k: int|
                    0 <= k < distances.len() && is_new(
                        neighbors,
                        distances,
                        valid,
                        cut,
                        seen,
                        k,
                    ) ==> self.estimates(neighbors[k] as int, #[trigger] distances[k])
                &&& #[trigger] visited(neighbors, distances, valid, cut, seen, n) == (Gathered {
                    found: one.2,
                    seen: one.0,
                    count: one.3,
                })
            };
        let d2 = choose|distances: Seq<Distance>|
            {
                &&& distances.len() == neighbors.len()
                &&& forall|k: int|
                    0 <= k < distances.len() && is_new(
                        neighbors,
                        distances,
                        valid,
                        cut,
                        seen,
                        k,
                    ) ==> self.estimates(neighbors[k] as int, #[trigger] distances[k])
                &&& #[trigger] visited(neighbors, distances, valid, cut, seen, n) == (Gathered {
                    found: other.2,
                    seen: other.0,
                    count: other.3,
                })
            };
        self.lemma_visits_deterministic(neighbors, d1, d2, cut, seen, n);
    }

    proof fn lemma_scanned_grows(
        &self,
        neighbors: Seq<IndexT>,
        cutoff: Option<Distance>,
        seen: Set<u32>,
        scanned: Set<u32>,
        after: (Set<u32>, Set<u32>, Seq<(IndexT, Distance)>, int),
    ) {
    }

    fn initialize(
        &self,
        start: IndexT,
        seen: &mut SeenSet,
        scanned_blocks: &mut SeenSet,
    ) -> (begun: (Distance, Candidates, usize)) {
        let initial_distance = self.compute_distance(start as usize);
        proof {
            assert(Set::<u32>::empty().insert(start).len() == 1);
        }
        (initial_distance, Vec::new(), 1)
    }

    fn process_neighbors(
        &self,
        neighbors: &[IndexT],
        seen: &mut SeenSet,
        scanned_blocks: &mut SeenSet,
        frontier: &mut Candidates,
        cutoff: Option<Distance>,
    ) -> (comparisons: usize) {
        proof {
            assert forall|k: int| 0 <= k < neighbors@.len() && (#[trigger] neighbors@[k])
                < self.fastscan.n && !seen@.contains(neighbors@[k]) implies neighbors@[k] < 32
                * self.fastscan.n_blocks by {
                let i = neighbors@[k];
                assert(self.accepts(i) || self.passes_over(i, seen@, scanned_blocks@));
            }
        }
        let comparisons = self.visit(neighbors, seen, frontier, cutoff);
        proof {
            self.lemma_visit_step(
                neighbors@,
                cutoff,
                *old(seen),
                seen@,
                frontier@.subrange(old(frontier)@.len() as int, frontier@.len() as int),
                comparisons as int,
            );
            assert(self.fastscan.factors.len() == self.fastscan.factors@.len());
        }
        comparisons
    }

    fn process_range(
        &self,
        range: Range<IndexT>,
        seen: &mut SeenSet,
        scanned_blocks: &mut SeenSet,
        frontier: &mut Candidates,
        cutoff: Option<Distance>,
    ) -> (comparisons: usize) {
        let mut neighbors: Vec<IndexT> = Vec::new();
        let mut i = range.start;
        while i < range.end
            invariant
                range.start <= i,
                range.start <= range.end ==> i <= range.end,
                range.start > range.end ==> i == range.start,
                neighbors@ == numbers(range.start, i),
            decreases range.end - i,
        {
            neighbors.push(i);
            assert(numbers(range.start, i).push(i) =~= numbers(range.start, (i + 1) as IndexT));
            i = i + 1;
        }
        assert(neighbors@ == numbers(range.start, range.end));
        proof {
            assert forall|k: int| 0 <= k < neighbors@.len() && (#[trigger] neighbors@[k])
                < self.fastscan.n && !seen@.contains(neighbors@[k]) implies neighbors@[k] < 32
                * self.fastscan.n_blocks by {
                let i = neighbors@[k];
                assert(self.accepts(i) || self.passes_over(i, seen@, scanned_blocks@));
            }
        }
        let comparisons = self.visit(neighbors.as_slice(), seen, frontier, cutoff);
        proof {
            self.lemma_visit_step(
                neighbors@,
                cutoff,
                *old(seen),
                seen@,
                frontier@.subrange(old(frontier)@.len() as int, frontier@.len() as int),
                comparisons as int,
            );
        }
        comparisons
    }

    fn compute_distance(&self, idx: usize) -> (distance: Distance) {
        RabitqScalarOracle::compute_distance(self, idx)
    }

    fn max_valid_idx(&self) -> (valid: usize) {
        RabitqScalarOracle::max_valid_idx(self)
    }
}

impl<'a, const B: usize, F: Fn(VectorFactors, &Vec<u8>) -> Distance> RabitqScalarOracle<'a, B, F> {
    /// Where estimates are deterministic, a vector has one estimate.
    pub proof fn lemma_estimates_agree(&self, i: int, one: Distance, other: Distance)
        requires
            self.estimates_once(),
            self.estimates(i, one),
            self.estimates(i, other),
        ensures
            one == other,
    {
        self.lemma_distance_deterministic(i, one, other);
    }

    /// Where estimates are deterministic, so are distances.
    proof fn lemma_distance_deterministic(&self, i: int, one: Distance, other: Distance)
        requires
            self.estimates_once(),
            self.estimates(i, one),
            self.estimates(i, other),
        ensures
            one == other,
    {
        let f = self.fastscan.factors@[i];
        let n1 = choose|nibbles: Vec<u8>|
            #[trigger] self.are_nibbles_of(nibbles@, i) && call_ensures(
                self.estimate,
                (f, &nibbles),
                one,
            );
        let n2 = choose|nibbles: Vec<u8>|
            #[trigger] self.are_nibbles_of(nibbles@, i) && call_ensures(
                self.estimate,
                (f, &nibbles),
                other,
            );
        assert(n1@ =~= n2@);
    }

    /// Where estimates are deterministic, so are visits.
    proof fn lemma_visits_deterministic(
        &self,
        neighbors: Seq<IndexT>,
        one: Seq<Distance>,
        other: Seq<Distance>,
        cutoff: Distance,
        seen: Set<u32>,
        m: int,
    )
        requires
            self.estimates_once(),
            0 <= m <= neighbors.len(),
            one.len() == neighbors.len(),
            other.len() == neighbors.len(),
            forall|k: int|
                0 <= k < one.len() && is_new(
                    neighbors,
                    one,
                    self.fastscan.n as int,
                    cutoff,
                    seen,
                    k,
                ) ==> self.estimates(neighbors[k] as int, #[trigger] one[k]),
            forall|k: int|
                0 <= k < other.len() && is_new(
                    neighbors,
                    other,
                    self.fastscan.n as int,
                    cutoff,
                    seen,
                    k,
                ) ==> self.estimates(neighbors[k] as int, #[trigger] other[k]),
        ensures
            visited(neighbors, one, self.fastscan.n as int, cutoff, seen, m) == visited(
                neighbors,
                other,
                self.fastscan.n as int,
                cutoff,
                seen,
                m,
            ),
        decreases m,
    {
        if m > 0 {
            self.lemma_visits_deterministic(neighbors, one, other, cutoff, seen, m - 1);
            let valid = self.fastscan.n as int;
            if is_new(neighbors, one, valid, cutoff, seen, m - 1) {
                assert(is_new(neighbors, other, valid, cutoff, seen, m - 1));
                self.lemma_distance_deterministic(
                    neighbors[m - 1] as int,
                    one[m - 1],
                    other[m - 1],
                );
            }
        }
    }

    /// What visiting neighbors leads to: new vectors, each once; and where all seen
    /// vectors existed before, they do so again.
    proof fn lemma_visit_step(
        &self,
        neighbors: Seq<IndexT>,
        cutoff: Option<Distance>,
        seen: SeenSet,
        seen_after: Set<u32>,
        found: Seq<(IndexT, Distance)>,
        comparisons: int,
    )
        requires
            seen.wf(),
            forall|k: int|
                0 <= k < neighbors.len() && (#[trigger] neighbors[k]) < self.fastscan.n
                    && !seen@.contains(neighbors[k]) ==> neighbors[k] < 32
                    * self.fastscan.n_blocks,
            self.visit_step(neighbors, cutoff, seen@, seen_after, found, comparisons),
        ensures
            newly_seen(found, self.fastscan.n as int, seen@, seen_after),
            grows_below(seen@, seen_after, self.fastscan.n as int),
            comparisons == seen_after.len() - seen@.len(),
            self.agree(seen@) ==> self.agree(seen_after) && seen_after.len() <= 32
                * self.fastscan.n_blocks,
            forall|k: int|
                0 <= k < neighbors.len() && (#[trigger] neighbors[k]) < self.fastscan.n
                    ==> seen_after.contains(neighbors[k]),
    {
        let cut = cutoff_or_infinity(cutoff);
        let valid = self.fastscan.n as int;
        let distances = choose|distances: Seq<Distance>|
            {
                &&& distances.len() == neighbors.len()
                &&& forall|k: int|
                    0 <= k < distances.len() && is_new(
                        neighbors,
                        distances,
                        valid,
                        cut,
                        seen@,
                        k,
                    ) ==> self.estimates(neighbors[k] as int, #[trigger] distances[k])
                &&& #[trigger] visited(
                    neighbors,
                    distances,
                    valid,
                    cut,
                    seen@,
                    neighbors.len() as int,
                ) == (Gathered { found, seen: seen_after, count: comparisons })
            };
        seen.lemma_finite();
        lemma_visited(neighbors, distances, valid, cut, seen@, neighbors.len() as int);
        if self.agree(seen@) {
            assert forall|i: u32| #[trigger] seen_after.contains(i) implies i
                < 32 * self.fastscan.n_blocks by {
                if !seen@.contains(i) {
                    let k = neighbors.index_of(i);
                    assert(neighbors[k] == i);
                }
            }
            lemma_len_below(seen_after, 32 * self.fastscan.n_blocks);
        }
    }
}

/// Processing neighbors one at a time sees exactly the neighbors that are vectors of
/// the index, and computes one distance for each that is new. Exactly the new ones
/// whose distance is below the cutoff are found, in the order in which they first
/// occur; without a cutoff, all whose distance is a number other than infinity.
pub proof fn law_scalar_finds_neighbors<
    'a,
    const B: usize,
    F: Fn(VectorFactors, &Vec<u8>) -> Distance,
>(
    oracle: &RabitqScalarOracle<'a, B, F>,
    neighbors: Seq<IndexT>,
    cutoff: Option<Distance>,
    seen: Set<u32>,
    scanned: Set<u32>,
    after: (Set<u32>, Set<u32>, Seq<(IndexT, Distance)>, int),
)
    requires
        oracle.neighbors_step(
            neighbors,
            cutoff,
            seen,
            scanned,
            after.0,
            after.1,
            after.2,
            after.3,
        ),
    ensures
        forall|i: u32| #[trigger]
            after.0.contains(i) <==> seen.contains(i) || neighbors.contains(i) && i
                < oracle.fastscan.n,
        after.1 == scanned,
        finds_new(oracle, cutoff, seen, after.0, after.2),
        seen.finite() ==> after.0.finite() && after.3 == after.0.len() - seen.len(),
        forall|j: int, l: int|
            0 <= j < l < after.2.len() ==> comes_before(
                neighbors,
                neighbors.len() as int,
                (#[trigger] after.2[j]).0,
                (#[trigger] after.2[l]).0,
            ),
{
    let cut = cutoff_or_infinity(cutoff);
    let valid = oracle.fastscan.n as int;
    let n = neighbors.len() as int;
    let found = after.2;
    assert(oracle.visit_step(neighbors, cutoff, seen, after.0, found, after.3));
    let distances = choose|distances: Seq<Distance>|
        {
            &&& distances.len() == neighbors.len()
            &&& forall|k: int|
                0 <= k < distances.len() && is_new(
                    neighbors,
                    distances,
                    valid,
                    cut,
                    seen,
                    k,
                ) ==> oracle.estimates(neighbors[k] as int, #[trigger] distances[k])
            &&& #[trigger] visited(neighbors, distances, valid, cut, seen, n) == (Gathered {
                found,
                seen: after.0,
                count: after.3,
            })
        };
    lemma_gathered(neighbors, distances, valid, cut, seen, n);
    lemma_gathered_in_order(neighbors, distances, valid, cut, seen, n);
    if seen.finite() {
        lemma_visited(neighbors, distances, valid, cut, seen, n);
    }
    assert forall|i: u32| #[trigger]
        after.0.contains(i) <==> seen.contains(i) || neighbors.contains(i) && i
            < oracle.fastscan.n by {
        if neighbors.contains(i) {
            let k = neighbors.index_of(i);
            assert(neighbors[k] == i);
        }
    }
    assert forall|i: u32| #[trigger] after.0.contains(i) && !seen.contains(i) implies is_found(
        oracle,
        cutoff,
        found,
        i,
    ) by {
        let k = choose|k: int|
            0 <= k < n && #[trigger] gathered_at(
                neighbors,
                distances,
                valid,
                cut,
                seen,
                found,
                i,
                k,
            );
        let d = distances[k];
        law_no_cutoff_takes_all_numbers(d, cutoff);
        assert(oracle.is_distance(i as int, d));
    }
    assert forall|j: int| 0 <= j < found.len() implies {
        &&& after.0.contains((#[trigger] found[j]).0)
        &&& !seen.contains(found[j].0)
        &&& oracle.is_distance(found[j].0 as int, found[j].1)
        &&& below_cutoff(found[j].1, cutoff)
    } by {
        law_no_cutoff_takes_all_numbers(found[j].1, cutoff);
        let k = choose|k: int|
            0 <= k < n && is_new(neighbors, distances, valid, cut, seen, k) && found[j] == (
                #[trigger] neighbors[k],
                distances[k],
            );
        assert(oracle.estimates(neighbors[k] as int, distances[k]));
    }
}

/// Processing a range one at a time is processing its numbers from the first to the
/// last as neighbors.
pub proof fn law_scalar_range_is_its_numbers<
    'a,
    const B: usize,
    F: Fn(VectorFactors, &Vec<u8>) -> Distance,
>(
    oracle: &RabitqScalarOracle<'a, B, F>,
    start: IndexT,
    end: IndexT,
    cutoff: Option<Distance>,
    seen: Set<u32>,
    scanned: Set<u32>,
    after: (Set<u32>, Set<u32>, Seq<(IndexT, Distance)>, int),
) -> (all: Seq<IndexT>)
    ensures
        all.len() == (if start < end {
            end - start
        } else {
            0
        }),
        forall|k: int| 0 <= k < all.len() ==> #[trigger] all[k] == start + k,
        oracle.range_step(
            start,
            end,
            cutoff,
            seen,
            scanned,
            after.0,
            after.1,
            after.2,
            after.3,
        ) == oracle.neighbors_step(
            all,
            cutoff,
            seen,
            scanned,
            after.0,
            after.1,
            after.2,
            after.3,
        ),
{
    numbers(start, end)
}

/// A search with distances one at a time begins with the distance of its start, and
/// sees nothing else.
pub proof fn law_scalar_begins_with_start<
    'a,
    const B: usize,
    F: Fn(VectorFactors, &Vec<u8>) -> Distance,
>(
    oracle: &RabitqScalarOracle<'a, B, F>,
    start: IndexT,
    seen: Set<u32>,
    scanned: Set<u32>,
    after: (Set<u32>, Set<u32>, Distance, Seq<(IndexT, Distance)>, int),
)
    requires
        oracle.init_step(start, seen, scanned, after.0, after.1, after.2, after.3, after.4),
    ensures
        after.0 == seen,
        after.1 == scanned,
        oracle.is_distance(start as int, after.2),
        after.3.len() == 0,
        after.4 == 1,
{
}

/// The distance of a vector is what the estimate gives for its factors and for the
/// nibbles of its code: nibble `k` is made of dimensions `4k` to `4k + 3`, the first of
/// them weighing most.
pub proof fn law_scalar_distance_is_estimate<
    'a,
    const B: usize,
    F: Fn(VectorFactors, &Vec<u8>) -> Distance,
>(oracle: &RabitqScalarOracle<'a, B, F>, i: int, distance: Distance) -> (nibbles: Vec<u8>)
    requires
        oracle.is_distance(i, distance),
    ensures
        nibbles@.len() == B / 4,
        forall|k: int|
            0 <= k < nibbles@.len() ==> {
                let words = oracle.fastscan.binary_codes@;
                let at = i * (B as int / 64) + k / 16;
                let low = 4 * (k % 16);
                (#[trigger] nibbles@[k]) == 8 * ((words[at] >> (low as u64)) & 1) + 4 * ((words[at]
                    >> ((low + 1) as u64)) & 1) + 2 * ((words[at] >> ((low + 2) as u64)) & 1) + ((
                words[at] >> ((low + 3) as u64)) & 1)
            },
        call_ensures(oracle.estimate, (oracle.fastscan.factors@[i], &nibbles), distance),
{
    assert(oracle.estimates(i, distance));
    let nibbles = choose|nibbles: Vec<u8>|
        #[trigger] oracle.are_nibbles_of(nibbles@, i) && call_ensures(
            oracle.estimate,
            (oracle.fastscan.factors@[i], &nibbles),
            distance,
        );
    assert forall|k: int| 0 <= k < nibbles@.len() implies {
        let words = oracle.fastscan.binary_codes@;
        let at = i * (B as int / 64) + k / 16;
        let low = 4 * (k % 16);
        (#[trigger] nibbles@[k]) == 8 * ((words[at] >> (low as u64)) & 1) + 4 * ((words[at] >> ((low
            + 1) as u64)) & 1) + 2 * ((words[at] >> ((low + 2) as u64)) & 1) + ((words[at] >> ((low
            + 3) as u64)) & 1)
    } by {
        lemma_code_nibble(oracle.fastscan.binary_codes@, B as int / 64, i, k);
    }
    nibbles
}

impl<'a, const B: usize, F: Fn(VectorFactors, &Vec<u8>) -> Distance> ThoroughOracle for RabitqScalarOracle<
    'a,
    B,
    F,
> {
    proof fn lemma_start_is_measured(
        &self,
        start: IndexT,
        seen: Set<u32>,
        scanned: Set<u32>,
        after: (Set<u32>, Set<u32>, Distance, Seq<(IndexT, Distance)>, int),
    ) {
    }

    proof fn lemma_new_are_found(
        &self,
        neighbors: Seq<IndexT>,
        cutoff: Option<Distance>,
        seen: Set<u32>,
        scanned: Set<u32>,
        after: (Set<u32>, Set<u32>, Seq<(IndexT, Distance)>, int),
    ) {
        law_scalar_finds_neighbors(self, neighbors, cutoff, seen, scanned, after);
    }
}

impl<'a, const B: usize, F: Clone> Clone for RabitqScalarOracle<'a, B, F> {
    fn clone(&self) -> (copy: RabitqScalarOracle<'a, B, F>)
        ensures
            copy.fastscan == self.fastscan,
            cloned(self.estimate, copy.estimate),
    {
        RabitqScalarOracle { fastscan: self.fastscan, estimate: self.estimate.clone() }
    }
}

impl<'a, const B: usize, F> Named for RabitqScalarOracle<'a, B, F> {
    open spec fn title(&self) -> Seq<char> {
        "RabitqScalarOracle"@
    }

    fn name(&self) -> (name: &str) {
        "RabitqScalarOracle"
    }
}

} // verus!
