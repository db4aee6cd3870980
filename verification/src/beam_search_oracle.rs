//! What a beam search asks of the one who knows the distances.

use std::ops::Range;
use vstd::prelude::*;

use crate::classic_graph::IndexT;
use crate::distance::Distance;
use crate::seen_set::SeenSet;

verus! {

/// Candidates: numbers of vectors with their distances.
pub type Candidates = Vec<(IndexT, Distance)>;

/// Whether the candidates are vectors below `valid` that had not been seen, have
/// been seen now, and are all different.
pub open spec fn newly_seen(
    found: Seq<(IndexT, Distance)>,
    valid: int,
    seen: Set<u32>,
    seen_after: Set<u32>,
) -> bool {
    &&& forall|k: int|
        0 <= k < found.len() ==> {
            &&& (#[trigger] found[k]).0 < valid
            &&& !seen.contains(found[k].0)
            &&& seen_after.contains(found[k].0)
        }
    &&& forall|k: int, l: int|
        0 <= k < l < found.len() ==> (#[trigger] found[k]).0 != (#[trigger] found[l]).0
}

/// Whether `seen_after` keeps what had been seen, and adds only vectors below
/// `valid`.
pub open spec fn grows_below(seen: Set<u32>, seen_after: Set<u32>, valid: int) -> bool {
    &&& forall|i: u32| seen.contains(i) ==> #[trigger] seen_after.contains(i)
    &&& forall|i: u32|
        #[trigger] seen_after.contains(i) && !seen.contains(i) ==> i < valid
}

/// Whether a distance is closer than the cutoff; where there is none, whether it is
/// that of a number other than infinity.
pub open spec fn below_cutoff(distance: Distance, cutoff: Option<Distance>) -> bool {
    match cutoff {
        Some(c) => distance.less(c),
        None => distance.bits < 0x7f80_0000 || 0x8000_0000 <= distance.bits <= 0xff80_0000,
    }
}

/// Whether vector `i`, which has newly been seen, is found with a distance of its own
/// exactly where that is below the cutoff.
pub open spec fn is_found<O: BeamSearchOracle>(
    oracle: &O,
    cutoff: Option<Distance>,
    found: Seq<(IndexT, Distance)>,
    i: u32,
) -> bool {
    exists|distance: Distance|
        {
            &&& #[trigger] oracle.is_distance(i as int, distance)
            &&& below_cutoff(distance, cutoff) ==> found.contains((i, distance))
            &&& !below_cutoff(distance, cutoff) ==> forall|k: int|
                0 <= k < found.len() ==> (#[trigger] found[k]).0 != i
        }
}

/// Whether exactly the vectors that have newly been seen and are below the cutoff are
/// found, each once and with a distance of its own.
pub open spec fn finds_new<O: BeamSearchOracle>(
    oracle: &O,
    cutoff: Option<Distance>,
    seen: Set<u32>,
    seen_after: Set<u32>,
    found: Seq<(IndexT, Distance)>,
) -> bool {
    &&& seen.subset_of(seen_after)
    &&& forall|i: u32| #[trigger]
        seen_after.contains(i) && !seen.contains(i) ==> is_found(oracle, cutoff, found, i)
    &&& forall|k: int|
        0 <= k < found.len() ==> {
            &&& seen_after.contains((#[trigger] found[k]).0)
            &&& !seen.contains(found[k].0)
            &&& oracle.is_distance(found[k].0 as int, found[k].1)
            &&& below_cutoff(found[k].1, cutoff)
        }
    &&& forall|k: int, l: int|
        0 <= k < l < found.len() ==> (#[trigger] found[k]).0 != (#[trigger] found[l]).0
}

/// Whether all vectors that have newly been seen are found, each once and with a
/// distance of its own.
pub open spec fn finds_all_new<O: BeamSearchOracle>(
    oracle: &O,
    seen: Set<u32>,
    seen_after: Set<u32>,
    found: Seq<(IndexT, Distance)>,
) -> bool {
    &&& seen.subset_of(seen_after)
    &&& forall|i: u32| #[trigger]
        seen_after.contains(i) && !seen.contains(i) ==> exists|distance: Distance|
            #[trigger] oracle.is_distance(i as int, distance) && found.contains((i, distance))
    &&& forall|k: int|
        0 <= k < found.len() ==> {
            &&& seen_after.contains((#[trigger] found[k]).0)
            &&& !seen.contains(found[k].0)
            &&& oracle.is_distance(found[k].0 as int, found[k].1)
        }
    &&& forall|k: int, l: int|
        0 <= k < l < found.len() ==> (#[trigger] found[k]).0 != (#[trigger] found[l]).0
}

/// An oracle for the distances between a query and the vectors of a dataset.
///
/// A search keeps two sets for its oracle: the vectors that it has seen, and the
/// blocks of vectors that the oracle has scanned.
pub trait BeamSearchOracle: Sized {
    /// Whether the oracle is in working order.
    spec fn ready(&self) -> bool;

    /// What holds of the two sets throughout a search: it holds once a search has
    /// begun, and processing neighbors or ranges keeps it.
    spec fn keeps(&self, seen: Set<u32>, scanned: Set<u32>) -> bool;

    /// Whether the distance of a vector can be computed.
    spec fn measures(&self, i: int) -> bool;

    /// Whether a vector may be among the neighbors to process.
    spec fn accepts(&self, i: IndexT) -> bool;

    /// Whether a vector among the neighbors is passed over because of what has been
    /// seen or scanned before.
    spec fn passes_over(&self, i: IndexT, seen: Set<u32>, scanned: Set<u32>) -> bool;

    /// The number of vectors; those from there on are padding.
    spec fn valid(&self) -> int;

    /// How many distances have been computed by the time the two sets have grown this
    /// far.
    spec fn spent(&self, seen: Set<u32>, scanned: Set<u32>) -> int;

    /// Whether `distance` is a distance of vector `i`.
    spec fn is_distance(&self, i: int, distance: Distance) -> bool;

    /// Whether `initialize` can lead from one pair of sets to another with these
    /// results.
    spec fn init_step(
        &self,
        start: IndexT,
        seen: Set<u32>,
        scanned: Set<u32>,
        seen_after: Set<u32>,
        scanned_after: Set<u32>,
        initial: Distance,
        additional: Seq<(IndexT, Distance)>,
        comparisons: int,
    ) -> bool;

    /// Whether `process_neighbors` can lead from one pair of sets to another with
    /// these results.
    spec fn neighbors_step(
        &self,
        neighbors: Seq<IndexT>,
        cutoff: Option<Distance>,
        seen: Set<u32>,
        scanned: Set<u32>,
        seen_after: Set<u32>,
        scanned_after: Set<u32>,
        found: Seq<(IndexT, Distance)>,
        comparisons: int,
    ) -> bool;

    /// Whether `process_range` can lead from one pair of sets to another with these
    /// results.
    spec fn range_step(
        &self,
        start: IndexT,
        end: IndexT,
        cutoff: Option<Distance>,
        seen: Set<u32>,
        scanned: Set<u32>,
        seen_after: Set<u32>,
        scanned_after: Set<u32>,
        found: Seq<(IndexT, Distance)>,
        comparisons: int,
    ) -> bool;

    /// Whether equal questions get equal answers.
    spec fn is_deterministic(&self) -> bool;

    /// Equal beginnings have equal results.
    proof fn lemma_init_deterministic(
        &self,
        start: IndexT,
        seen: Set<u32>,
        scanned: Set<u32>,
        one: (Set<u32>, Set<u32>, Distance, Seq<(IndexT, Distance)>, int),
        other: (Set<u32>, Set<u32>, Distance, Seq<(IndexT, Distance)>, int),
    )
        requires
            self.is_deterministic(),
            self.init_step(start, seen, scanned, one.0, one.1, one.2, one.3, one.4),
            self.init_step(start, seen, scanned, other.0, other.1, other.2, other.3, other.4),
        ensures
            one == other,
    ;

    /// Equal neighbors have equal results.
    proof fn lemma_neighbors_deterministic(
        &self,
        neighbors: Seq<IndexT>,
        cutoff: Option<Distance>,
        seen: Set<u32>,
        scanned: Set<u32>,
        one: (Set<u32>, Set<u32>, Seq<(IndexT, Distance)>, int),
        other: (Set<u32>, Set<u32>, Seq<(IndexT, Distance)>, int),
    )
        requires
            self.is_deterministic(),
            self.neighbors_step(neighbors, cutoff, seen, scanned, one.0, one.1, one.2, one.3),
            self.neighbors_step(
                neighbors,
                cutoff,
                seen,
                scanned,
                other.0,
                other.1,
                other.2,
                other.3,
            ),
        ensures
            one == other,
    ;

    /// Scanned blocks stay scanned.
    proof fn lemma_scanned_grows(
        &self,
        neighbors: Seq<IndexT>,
        cutoff: Option<Distance>,
        seen: Set<u32>,
        scanned: Set<u32>,
        after: (Set<u32>, Set<u32>, Seq<(IndexT, Distance)>, int),
    )
        requires
            self.neighbors_step(
                neighbors,
                cutoff,
                seen,
                scanned,
                after.0,
                after.1,
                after.2,
                after.3,
            ),
        ensures
            scanned.subset_of(after.1),
            scanned.finite() ==> after.1.finite(),
    ;

    /// Begins a search at `start`: its distance, other vectors that came with it and
    /// have not been seen, and the number of distances computed.
    fn initialize(
        &self,
        start: IndexT,
        seen: &mut SeenSet,
        scanned_blocks: &mut SeenSet,
    ) -> (begun: (Distance, Candidates, usize))
        requires
            self.ready(),
            self.measures(start as int),
            old(seen).wf(),
            old(scanned_blocks).wf(),
        ensures
            final(seen).wf(),
            final(scanned_blocks).wf(),
            self.init_step(
                start,
                old(seen)@,
                old(scanned_blocks)@,
                final(seen)@,
                final(scanned_blocks)@,
                begun.0,
                begun.1@,
                begun.2 as int,
            ),
            self.is_distance(start as int, begun.0),
            grows_below(old(seen)@, final(seen)@, self.valid()),
            newly_seen(begun.1@, self.valid(), old(seen)@, final(seen)@),
            old(seen)@ == Set::<u32>::empty().insert(start) && old(scanned_blocks)@ == Set::<
                u32,
            >::empty() ==> {
                &&& self.keeps(final(seen)@, final(scanned_blocks)@)
                &&& begun.2 == self.spent(final(seen)@, final(scanned_blocks)@)
                &&& self.spent(final(seen)@, final(scanned_blocks)@) <= usize::MAX
            },
    ;

    /// Computes the distances that the neighbors call for, appends what has not
    /// been seen and is closer than the cutoff to the frontier, and returns the
    /// number of distances computed.
    fn process_neighbors(
        &self,
        neighbors: &[IndexT],
        seen: &mut SeenSet,
        scanned_blocks: &mut SeenSet,
        frontier: &mut Candidates,
        cutoff: Option<Distance>,
    ) -> (comparisons: usize)
        requires
            self.ready(),
            old(seen).wf(),
            old(scanned_blocks).wf(),
            forall|k: int|
                0 <= k < neighbors@.len() ==> self.accepts(#[trigger] neighbors@[k])
                    || self.passes_over(neighbors@[k], old(seen)@, old(scanned_blocks)@),
        ensures
            final(seen).wf(),
            final(scanned_blocks).wf(),
            final(frontier)@.len() >= old(frontier)@.len(),
            final(frontier)@.subrange(0, old(frontier)@.len() as int) == old(frontier)@,
            ({
                let found = final(frontier)@.subrange(
                    old(frontier)@.len() as int,
                    final(frontier)@.len() as int,
                );
                &&& self.neighbors_step(
                    neighbors@,
                    cutoff,
                    old(seen)@,
                    old(scanned_blocks)@,
                    final(seen)@,
                    final(scanned_blocks)@,
                    found,
                    comparisons as int,
                )
                &&& newly_seen(found, self.valid(), old(seen)@, final(seen)@)
            }),
            grows_below(old(seen)@, final(seen)@, self.valid()),
            self.keeps(old(seen)@, old(scanned_blocks)@) ==> {
                &&& self.keeps(final(seen)@, final(scanned_blocks)@)
                &&& forall|k: int|
                    0 <= k < neighbors@.len() && (#[trigger] neighbors@[k]) < self.valid()
                        ==> final(seen)@.contains(neighbors@[k])
                &&& comparisons == self.spent(final(seen)@, final(scanned_blocks)@) - self.spent(
                    old(seen)@,
                    old(scanned_blocks)@,
                )
                &&& self.spent(final(seen)@, final(scanned_blocks)@) <= usize::MAX
            },
    ;

    /// As `process_neighbors`, for a range of vectors.
    fn process_range(
        &self,
        range: Range<IndexT>,
        seen: &mut SeenSet,
        scanned_blocks: &mut SeenSet,
        frontier: &mut Candidates,
        cutoff: Option<Distance>,
    ) -> (comparisons: usize)
        requires
            self.ready(),
            old(seen).wf(),
            old(scanned_blocks).wf(),
            forall|i: IndexT|
                range.start <= i < range.end ==> #[trigger] self.accepts(i) || self.passes_over(
                    i,
                    old(seen)@,
                    old(scanned_blocks)@,
                ),
        ensures
            final(seen).wf(),
            final(scanned_blocks).wf(),
            final(frontier)@.len() >= old(frontier)@.len(),
            final(frontier)@.subrange(0, old(frontier)@.len() as int) == old(frontier)@,
            self.range_step(
                range.start,
                range.end,
                cutoff,
                old(seen)@,
                old(scanned_blocks)@,
                final(seen)@,
                final(scanned_blocks)@,
                final(frontier)@.subrange(
                    old(frontier)@.len() as int,
                    final(frontier)@.len() as int,
                ),
                comparisons as int,
            ),
            self.keeps(old(seen)@, old(scanned_blocks)@) ==> self.keeps(
                final(seen)@,
                final(scanned_blocks)@,
            ),
    ;

    /// The distance of a vector.
    fn compute_distance(&self, idx: usize) -> (distance: Distance)
        requires
            self.ready(),
            self.measures(idx as int),
        ensures
            self.is_distance(idx as int, distance),
    ;

    /// The number of vectors.
    fn max_valid_idx(&self) -> (valid: usize)
        requires
            self.ready(),
        ensures
            valid == self.valid(),
    ;

    /// The number of blocks; none where the oracle does not scan blocks.
    fn num_blocks(&self) -> (blocks: usize)
        default_ensures
            blocks == 0,
    {
        0
    }
}

/// An oracle that passes over nothing it sees: what is new and below the cutoff is
/// found.
pub trait ThoroughOracle: BeamSearchOracle {
    /// A search begins with a distance of the start; whatever else is seen then is
    /// found.
    proof fn lemma_start_is_measured(
        &self,
        start: IndexT,
        seen: Set<u32>,
        scanned: Set<u32>,
        after: (Set<u32>, Set<u32>, Distance, Seq<(IndexT, Distance)>, int),
    )
        requires
            self.init_step(start, seen, scanned, after.0, after.1, after.2, after.3, after.4),
        ensures
            self.is_distance(start as int, after.2),
            finds_all_new(self, seen, after.0, after.3),
    ;

    /// Whatever is seen among neighbors is found, where it is below the cutoff.
    proof fn lemma_new_are_found(
        &self,
        neighbors: Seq<IndexT>,
        cutoff: Option<Distance>,
        seen: Set<u32>,
        scanned: Set<u32>,
        after: (Set<u32>, Set<u32>, Seq<(IndexT, Distance)>, int),
    )
        requires
            self.neighbors_step(
                neighbors,
                cutoff,
                seen,
                scanned,
                after.0,
                after.1,
                after.2,
                after.3,
            ),
        ensures
            finds_new(self, cutoff, seen, after.0, after.2),
    ;
}

} // verus!
