//! Beam search over a graph, with an oracle that compares one index, or several, at
//! a time.

use vstd::prelude::*;
use vstd::set_lib::lemma_len_subset;

use crate::beam::{
    first_unvisited, fresh, has_its_place, ids, in_line, inserted, inserted_all, is_sorted,
    is_taken_from, law_candidates_compete, law_next_is_closest, lemma_first_unvisited,
    lemma_inserted, lemma_taken_after, near, within, Beam, Entry,
};
use crate::beam_search::{
    closest, copy_snapshots, count_unvisited, first_ids, lemma_marked, marked, stops, BeamSearchable,
};
use crate::classic_graph::{ClassicGraph, Graph, IndexT};
use crate::distance::Distance;
use crate::distance_oracle::{joined, law_joined_is_flattened, DistanceOracle};
use crate::named::Named;
use crate::seen_set::SeenSet;

verus! {

/// The state of a search with an oracle for comparisons.
pub struct ClassicBeamState<D> {
    /// Nodes that have been seen, and do not enter the beam again.
    pub seen: SeenSet,
    /// The closest candidates, and the nodes visited.
    pub beam: Beam,
    /// The width of the beam.
    pub beam_width: usize,
    /// The most nodes to visit.
    pub limit: Option<usize>,
    /// The oracle for the comparisons.
    pub oracle: D,
    /// How many candidates to return, where that is not the width of the beam.
    pub rerank_n: Option<usize>,
    /// The ids in the beam after each visit.
    pub beam_snapshots: Vec<Vec<IndexT>>,
}

impl<D: Clone> Clone for ClassicBeamState<D> {
    fn clone(&self) -> (copy: ClassicBeamState<D>)
        ensures
            copy.seen@ == self.seen@,
            self.seen.wf() ==> copy.seen.wf(),
            copy.beam.entries@ == self.beam.entries@,
            copy.beam.capacity == self.beam.capacity,
            copy.beam.visited@ == self.beam.visited@,
            copy.beam_width == self.beam_width,
            copy.limit == self.limit,
            cloned(self.oracle, copy.oracle),
            copy.rerank_n == self.rerank_n,
            copy.beam_snapshots@.len() == self.beam_snapshots@.len(),
            forall|k: int|
                0 <= k < self.beam_snapshots@.len() ==> (#[trigger] copy.beam_snapshots@[k])@
                    == self.beam_snapshots@[k]@,
    {
        ClassicBeamState {
            seen: self.seen.clone(),
            beam: self.beam.clone(),
            beam_width: self.beam_width,
            limit: self.limit,
            oracle: self.oracle.clone(),
            rerank_n: self.rerank_n,
            beam_snapshots: copy_snapshots(&self.beam_snapshots),
        }
    }
}

/// Of the first `m` neighbors, those that have not been seen, each once; and what
/// has been seen then.
pub open spec fn unseen_among(neighbors: Seq<IndexT>, seen: Set<u32>, m: int) -> (
    Seq<IndexT>,
    Set<u32>,
)
    decreases m,
{
    if m <= 0 {
        (Seq::empty(), seen)
    } else {
        let (unseen, now) = unseen_among(neighbors, seen, m - 1);
        if now.contains(neighbors[m - 1]) {
            (unseen, now)
        } else {
            (unseen.push(neighbors[m - 1]), now.insert(neighbors[m - 1]))
        }
    }
}

/// What has been seen, and the entries of the beam, after the first `m` results of a
/// batch: those that had not been seen, or that the batch was made for, go into the
/// beam.
pub open spec fn absorbed(
    batch: Seq<(usize, Distance)>,
    unseen: Seq<IndexT>,
    seen: Set<u32>,
    entries: Seq<Entry>,
    capacity: int,
    m: int,
) -> (Set<u32>, Seq<Entry>)
    decreases m,
{
    if m <= 0 {
        (seen, entries)
    } else {
        let (now, kept) = absorbed(batch, unseen, seen, entries, capacity, m - 1);
        let (idx, distance) = batch[m - 1];
        let id = idx as IndexT;
        if !now.contains(id) || unseen.contains(id) {
            (now.insert(id), inserted(kept, (id, distance), capacity))
        } else {
            (now, kept)
        }
    }
}

/// Whether the oracle can give this batch for the indices.
pub open spec fn is_batch<D: DistanceOracle>(
    oracle: &D,
    indices: Seq<IndexT>,
    batch: Seq<(usize, Distance)>,
) -> bool {
    exists|parts: Seq<Seq<(usize, Distance)>>|
        {
            &&& parts.len() == indices.len()
            &&& forall|k: int|
                0 <= k < parts.len() ==> oracle.compared(indices[k] as int, #[trigger] parts[k])
            &&& batch == #[trigger] joined(parts, parts.len() as int)
        }
}

/// Whether a graph and an oracle go together: all neighbors can be compared, and
/// what they stand for are nodes.
pub open spec fn suits<D: DistanceOracle>(graph: &ClassicGraph, oracle: &D) -> bool {
    &&& graph.wf()
    &&& forall|i: IndexT, k: int|
        i < graph.n && 0 <= k < graph.neighborhood(i).len() ==> oracle.can_compare(
            #[trigger] graph.neighborhood(i)[k] as int,
        )
    &&& forall|i: IndexT, k: int, out: Seq<(usize, Distance)>, l: int|
        #![trigger oracle.compared(graph.neighborhood(i)[k] as int, out), out[l]]
        i < graph.n && 0 <= k < graph.neighborhood(i).len() && oracle.compared(
            graph.neighborhood(i)[k] as int,
            out,
        ) && 0 <= l < out.len() ==> (out[l].0 as IndexT) < graph.n
}

/// What is true of all parts is true of the parts joined.
proof fn lemma_joined_nodes(parts: Seq<Seq<(usize, Distance)>>, m: int, n: IndexT)
    requires
        0 <= m <= parts.len(),
        forall|i: int, k: int|
            0 <= i < parts.len() && 0 <= k < parts[i].len() ==> ((#[trigger] parts[i][k]).0 as IndexT)
                < n,
    ensures
        forall|k: int|
            0 <= k < joined(parts, m).len() ==> ((#[trigger] joined(parts, m)[k]).0 as IndexT) < n,
    decreases m,
{
    if m > 0 {
        lemma_joined_nodes(parts, m - 1, n);
        let before = joined(parts, m - 1);
        let all = joined(parts, m);
        assert forall|k: int| 0 <= k < all.len() implies ((#[trigger] all[k]).0 as IndexT) < n by {
            if k < before.len() {
                assert(all[k] == before[k]);
            } else {
                assert(all[k] == parts[m - 1][k - before.len()]);
            }
        }
    }
}

/// All neighbors are seen in the end; those not seen before are the unseen ones.
proof fn lemma_unseen_among(neighbors: Seq<IndexT>, seen: Set<u32>, m: int)
    requires
        0 <= m <= neighbors.len(),
    ensures
        ({
            let (unseen, now) = unseen_among(neighbors, seen, m);
            &&& seen.subset_of(now)
            &&& forall|k: int| 0 <= k < m ==> now.contains(#[trigger] neighbors[k])
            &&& forall|i: u32| #[trigger]
                now.contains(i) ==> seen.contains(i) || unseen.contains(i)
            &&& forall|k: int|
                0 <= k < unseen.len() ==> {
                    &&& neighbors.contains(#[trigger] unseen[k])
                    &&& !seen.contains(unseen[k])
                    &&& now.contains(unseen[k])
                }
            &&& unseen.len() == 0 ==> now == seen
        }),
    decreases m,
{
    if m > 0 {
        lemma_unseen_among(neighbors, seen, m - 1);
        let (unseen, now) = unseen_among(neighbors, seen, m - 1);
        if !now.contains(neighbors[m - 1]) {
            let more = unseen.push(neighbors[m - 1]);
            assert(more[unseen.len() as int] == neighbors[m - 1]);
            assert forall|i: u32| unseen.contains(i) implies more.contains(i) by {
                let k = unseen.index_of(i);
                assert(more[k] == i);
            }
        }
    }
}

/// Absorbing a batch keeps the order and the capacity of the beam, and brings in
/// nothing but the batch.
proof fn lemma_absorbed(
    batch: Seq<(usize, Distance)>,
    unseen: Seq<IndexT>,
    seen: Set<u32>,
    entries: Seq<Entry>,
    capacity: int,
    m: int,
    n: IndexT,
)
    requires
        0 <= m <= batch.len(),
        is_sorted(entries),
        0 <= capacity,
        entries.len() <= capacity,
        forall|k: int| 0 <= k < batch.len() ==> ((#[trigger] batch[k]).0 as IndexT) < n,
        forall|k: int| 0 <= k < entries.len() ==> (#[trigger] entries[k]).id < n,
    ensures
        ({
            let (now, kept) = absorbed(batch, unseen, seen, entries, capacity, m);
            &&& seen.subset_of(now)
            &&& is_sorted(kept)
            &&& entries.len() <= kept.len() <= capacity
            &&& forall|k: int| 0 <= k < kept.len() ==> (#[trigger] kept[k]).id < n
        }),
    decreases m,
{
    if m > 0 {
        lemma_absorbed(batch, unseen, seen, entries, capacity, m - 1, n);
        let (now, kept) = absorbed(batch, unseen, seen, entries, capacity, m - 1);
        let (idx, distance) = batch[m - 1];
        let id = idx as IndexT;
        lemma_inserted(kept, (id, distance), capacity);
        let grown = inserted(kept, (id, distance), capacity);
        assert forall|k: int| 0 <= k < grown.len() implies (#[trigger] grown[k]).id < n by {
            if kept.contains(grown[k]) {
                let j = kept.index_of(grown[k]);
                assert(kept[j] == grown[k]);
            }
        }
    }
}

/// Whether a number occurs.
fn holds(numbers: &Vec<IndexT>, number: IndexT) -> (found: bool)
    ensures
        found == numbers@.contains(number),
{
    for k in 0..numbers.len()
        invariant
            forall|j: int| 0 <= j < k ==> #[trigger] numbers@[j] != number,
    {
        if numbers[k] == number {
            assert(numbers@[k as int] == number);
            return true;
        }
    }
    false
}

/// Puts the results of a batch into the beam: those that had not been seen, or that
/// the batch was made for.
pub fn absorb_batch(
    batch: &Vec<(usize, Distance)>,
    unseen: &Vec<IndexT>,
    seen: &mut SeenSet,
    beam: &mut Beam,
)
    requires
        old(seen).wf(),
        old(beam).wf(),
    ensures
        final(seen).wf(),
        final(beam).wf(),
        (final(seen)@, final(beam).entries@) == absorbed(
            batch@,
            unseen@,
            old(seen)@,
            old(beam).entries@,
            old(beam).capacity as int,
            batch@.len() as int,
        ),
        final(beam).capacity == old(beam).capacity,
        final(beam).visited@ == old(beam).visited@,
{
    let ghost seen_before = seen@;
    let ghost before = *beam;
    for k in 0..batch.len()
        invariant
            seen.wf(),
            beam.wf(),
            beam.capacity == before.capacity,
            beam.visited@ == before.visited@,
            (seen@, beam.entries@) == absorbed(
                batch@,
                unseen@,
                seen_before,
                before.entries@,
                before.capacity as int,
                k as int,
            ),
    {
        let (idx, dist) = batch[k];
        let id = idx as IndexT;
        let ghost now = seen@;
        let new = seen.insert(id);
        assert(now.contains(id) ==> now.insert(id) =~= now);
        if new || holds(unseen, id) {
            beam.insert((id, dist));
        }
    }
}

impl<D> ClassicBeamState<D> {
    /// The ids in the beam after each visit.
    pub fn get_beam_snapshots(&self) -> (snapshots: &Vec<Vec<IndexT>>)
        ensures
            snapshots == &self.beam_snapshots,
    {
        &self.beam_snapshots
    }

    /// Whether the states belong to the same search.
    pub open spec fn same_search(&self, other: &ClassicBeamState<D>) -> bool {
        &&& self.beam.capacity == other.beam.capacity
        &&& self.beam_width == other.beam_width
        &&& self.limit == other.limit
        &&& self.oracle == other.oracle
        &&& self.rerank_n == other.rerank_n
    }
}

impl<D: DistanceOracle> ClassicBeamState<D> {
    /// Whether the parts of the state agree, and candidates and visited nodes are
    /// nodes of the graph.
    pub open spec fn sound_for(&self, graph: &ClassicGraph) -> bool {
        &&& suits(graph, &self.oracle)
        &&& self.seen.wf()
        &&& self.beam.wf()
        &&& forall|k: int|
            0 <= k < self.beam.entries@.len() ==> (#[trigger] self.beam.entries@[k]).id < graph.n
        &&& forall|k: int|
            0 <= k < self.beam.visited@.len() ==> (#[trigger] self.beam.visited@[k]) < graph.n
        &&& self.limit matches Some(l) ==> self.beam.visited@.len() <= l
    }

    /// A search that begins at `start`, whose distance is known.
    pub fn new(
        oracle: D,
        start: IndexT,
        beam_width: usize,
        limit: Option<usize>,
        initial_distance: Distance,
        graph_size: usize,
    ) -> (state: ClassicBeamState<D>)
        ensures
            state.seen.wf(),
            state.beam.wf(),
            state.seen@ == Set::<u32>::empty().insert(start),
            state.beam.capacity == (if beam_width >= 1 {
                beam_width
            } else {
                1
            }),
            state.beam.entries@ == inserted(
                Seq::empty(),
                (start, initial_distance),
                state.beam.capacity as int,
            ),
            state.beam.visited@ == Seq::<u32>::empty(),
            state.beam_width == beam_width,
            state.limit == limit,
            state.oracle == oracle,
            state.rerank_n == None::<usize>,
            state.beam_snapshots@ == Seq::<Vec<IndexT>>::empty(),
            forall|graph: ClassicGraph|
                state.sound_for(&graph) ==> #[trigger] graph.ready(&state),
    {
        let mut seen = SeenSet::new(graph_size);
        seen.insert(start);
        let beam_length = if beam_width >= 1 {
            beam_width
        } else {
            1
        };
        let mut beam = Beam::new(beam_length);
        beam.insert((start, initial_distance));
        let state = ClassicBeamState {
            seen,
            beam,
            beam_width,
            limit,
            oracle,
            rerank_n: None,
            beam_snapshots: Vec::new(),
        };
        assert forall|graph: ClassicGraph| state.sound_for(&graph) implies #[trigger] graph.ready(
            &state,
        ) by {
            assert(state.closed(&graph, 0));
        }
        state
    }

    /// Whether all neighbors of the first `m` visited nodes have been seen.
    pub open spec fn closed(&self, graph: &ClassicGraph, m: int) -> bool {
        forall|j: int, k: int|
            0 <= j < m && 0 <= k < graph.neighborhood(self.beam.visited@[j]).len()
                ==> self.seen@.contains(
                #[trigger] graph.neighborhood(self.beam.visited@[j])[k],
            )
    }
}

impl ClassicGraph {
    /// Whether looking at the neighbors of a node can lead to these seen nodes and
    /// entries.
    pub open spec fn neighborhood_step<D: DistanceOracle>(
        &self,
        before: &ClassicBeamState<D>,
        node: IndexT,
        seen_after: Set<u32>,
        entries_after: Seq<Entry>,
    ) -> bool {
        let neighbors = self.neighborhood(node);
        let (unseen, now) = unseen_among(neighbors, before.seen@, neighbors.len() as int);
        if unseen.len() == 0 {
            seen_after == now && entries_after == before.beam.entries@
        } else {
            exists|batch: Seq<(usize, Distance)>|
                {
                    &&& #[trigger] is_batch(&before.oracle, unseen, batch)
                    &&& (seen_after, entries_after) == absorbed(
                        batch,
                        unseen,
                        now,
                        before.beam.entries@,
                        before.beam.capacity as int,
                        batch.len() as int,
                    )
                }
        }
    }

    /// Compares the neighbors that have not been seen, all at once, and puts them
    /// into the beam.
    fn expand_neighborhood<D: DistanceOracle>(
        &self,
        state: &mut ClassicBeamState<D>,
        current: IndexT,
    )
        requires
            old(state).sound_for(self),
            current < self.n,
        ensures
            final(state).sound_for(self),
            final(state).same_search(old(state)),
            final(state).beam.visited@ == old(state).beam.visited@,
            final(state).beam_snapshots == old(state).beam_snapshots,
            self.neighborhood_step(
                old(state),
                current,
                final(state).seen@,
                final(state).beam.entries@,
            ),
            old(state).seen@.subset_of(final(state).seen@),
            forall|k: int|
                0 <= k < self.neighborhood(current).len() ==> final(state).seen@.contains(
                    #[trigger] self.neighborhood(current)[k],
                ),
            final(state).seen@ == old(state).seen@ ==> final(state).beam.entries@ == old(
                state,
            ).beam.entries@,
    {
        let ghost before = *state;
        let neighbors = self.neighbors(current);
        let mut unseen: Vec<IndexT> = Vec::new();
        for k in 0..neighbors.len()
            invariant
                state.seen.wf(),
                state.beam == before.beam,
                state.same_search(&before),
                state.beam_snapshots == before.beam_snapshots,
                (unseen@, state.seen@) == unseen_among(neighbors@, before.seen@, k as int),
        {
            let ghost now = state.seen@;
            assert(now.contains(neighbors@[k as int]) ==> now.insert(neighbors@[k as int]) =~= now);
            if state.seen.insert(neighbors[k]) {
                unseen.push(neighbors[k]);
            }
        }
        let ghost now = state.seen@;
        proof {
            lemma_unseen_among(neighbors@, before.seen@, neighbors@.len() as int);
        }
        if unseen.len() > 0 {
            proof {
                assert forall|k: int| 0 <= k < unseen@.len() implies state.oracle.can_compare(
                    #[trigger] unseen@[k] as int,
                ) by {
                    assert(neighbors@.contains(unseen@[k]));
                    let j = neighbors@.index_of(unseen@[k]);
                    assert(self.neighborhood(current)[j] == unseen@[k]);
                }
            }
            let batch_results = state.oracle.compare_batch(unseen.as_slice());
            proof {
                let batch = batch_results@;
                assert(is_batch(&before.oracle, unseen@, batch));
                let parts = choose|parts: Seq<Seq<(usize, Distance)>>|
                    {
                        &&& parts.len() == unseen@.len()
                        &&& forall|k: int|
                            0 <= k < parts.len() ==> before.oracle.compared(
                                unseen@[k] as int,
                                #[trigger] parts[k],
                            )
                        &&& batch == #[trigger] joined(parts, parts.len() as int)
                    };
                assert forall|i: int, k: int|
                    0 <= i < parts.len() && 0 <= k < parts[i].len() implies ((
                #[trigger] parts[i][k]).0 as IndexT) < self.n by {
                    assert(neighbors@.contains(unseen@[i]));
                    let j = neighbors@.index_of(unseen@[i]);
                    assert(before.oracle.compared(
                        self.neighborhood(current)[j] as int,
                        parts[i],
                    ));
                }
                lemma_joined_nodes(parts, parts.len() as int, self.n);
                lemma_absorbed(
                    batch,
                    unseen@,
                    now,
                    before.beam.entries@,
                    before.beam.capacity as int,
                    batch.len() as int,
                    self.n,
                );
            }
            absorb_batch(&batch_results, &unseen, &mut state.seen, &mut state.beam);
            assert(state.seen@ != before.seen@) by {
                assert(now.contains(unseen@[0]) && !before.seen@.contains(unseen@[0]));
            }
        }
    }
}

impl<D: DistanceOracle> BeamSearchable<ClassicBeamState<D>> for ClassicGraph {
    /// The state is sound, and the neighbors of all visited nodes have been seen.
    open spec fn ready(&self, state: &ClassicBeamState<D>) -> bool {
        &&& state.sound_for(self)
        &&& state.closed(self, state.beam.visited@.len() as int)
    }

    /// The node is the last one visited; the neighbors of those before it have been
    /// seen.
    open spec fn pending(&self, state: &ClassicBeamState<D>, node: IndexT) -> bool {
        &&& state.sound_for(self)
        &&& state.beam.visited@.len() > 0
        &&& state.beam.visited@.last() == node
        &&& state.closed(self, state.beam.visited@.len() - 1)
    }

    open spec fn unseen(&self, state: &ClassicBeamState<D>) -> nat {
        (0x1_0000_0000 - state.seen@.len()) as nat
    }

    open spec fn unvisited(&self, state: &ClassicBeamState<D>) -> nat {
        count_unvisited(state.beam.entries@)
    }

    open spec fn next_step(
        &self,
        before: &ClassicBeamState<D>,
        next: Option<IndexT>,
        after: &ClassicBeamState<D>,
    ) -> bool {
        let entries = before.beam.entries@;
        &&& after.same_search(before)
        &&& after.seen == before.seen
        &&& after.beam_snapshots == before.beam_snapshots
        &&& match next {
            Some(node) => {
                &&& !stops(entries, before.beam.visited@.len(), before.limit)
                &&& node == entries[first_unvisited(entries)].id
                &&& after.beam.entries@ == marked(entries)
                &&& after.beam.visited@ == before.beam.visited@.push(node)
            },
            None => {
                &&& stops(entries, before.beam.visited@.len(), before.limit)
                &&& after.beam.entries@ == entries
                &&& after.beam.visited@ == before.beam.visited@
            },
        }
    }

    open spec fn expand_step(
        &self,
        before: &ClassicBeamState<D>,
        node: IndexT,
        after: &ClassicBeamState<D>,
    ) -> bool {
        &&& after.same_search(before)
        &&& after.beam.visited@ == before.beam.visited@
        &&& self.neighborhood_step(before, node, after.seen@, after.beam.entries@)
        &&& after.beam_snapshots@.len() == before.beam_snapshots@.len() + 1
        &&& after.beam_snapshots@.drop_last() == before.beam_snapshots@
        &&& after.beam_snapshots@.last()@ == ids(after.beam.entries@)
    }

    open spec fn results(&self, state: &ClassicBeamState<D>) -> Seq<IndexT> {
        first_ids(
            state.beam.entries@,
            match state.rerank_n {
                Some(n) => n as nat,
                None => state.beam_width as nat,
            },
        )
    }

    fn next_node(&self, search_state: &mut ClassicBeamState<D>) -> (next: Option<IndexT>) {
        let ghost before = *search_state;
        proof {
            assert(self.ready(&before));
            lemma_first_unvisited(before.beam.entries@);
        }
        if let Some(limit) = search_state.limit {
            if search_state.beam.visited_count() >= limit {
                return None;
            }
        }
        let next = search_state.beam.get_next();
        proof {
            let after = *search_state;
            if next is Some {
                lemma_marked(before.beam.entries@);
                assert forall|j: int, k: int|
                    0 <= j < before.beam.visited@.len() && 0 <= k < self.neighborhood(
                        after.beam.visited@[j],
                    ).len() implies after.seen@.contains(
                    #[trigger] self.neighborhood(after.beam.visited@[j])[k],
                ) by {
                    assert(after.beam.visited@[j] == before.beam.visited@[j]);
                    assert(before.seen@.contains(
                        self.neighborhood(before.beam.visited@[j])[k],
                    ));
                }
                assert(self.pending(&after, next->0));
                assert(self.unseen(&after) == self.unseen(&before));
                assert(self.unvisited(&after) < self.unvisited(&before));
            }
        }
        next
    }

    fn expand_node(&self, state: &mut ClassicBeamState<D>, node: IndexT) {
        let ghost before = *state;
        assert(self.pending(&before, node));
        assert(before.beam.visited@[before.beam.visited@.len() - 1] < self.n);
        self.expand_neighborhood(state, node);
        let ghost expanded = *state;
        let snapshot = state.beam.get_results();
        state.beam_snapshots.push(snapshot);
        proof {
            let after = *state;
            assert(after.beam_snapshots@.drop_last() =~= before.beam_snapshots@);
            assert forall|j: int, k: int|
                0 <= j < after.beam.visited@.len() && 0 <= k < self.neighborhood(
                    after.beam.visited@[j],
                ).len() implies after.seen@.contains(
                #[trigger] self.neighborhood(after.beam.visited@[j])[k],
            ) by {
                if j < after.beam.visited@.len() - 1 {
                    assert(before.seen@.contains(self.neighborhood(before.beam.visited@[j])[k]));
                }
            }
            before.seen.lemma_finite();
            after.seen.lemma_finite();
            lemma_len_subset(before.seen@, after.seen@);
            if after.seen@ != before.seen@ {
                let extra = choose|i: u32|
                    #[trigger] after.seen@.contains(i) && !before.seen@.contains(i);
                if !(exists|i: u32| #[trigger] after.seen@.contains(i) && !before.seen@.contains(i)) {
                    assert(after.seen@ =~= before.seen@);
                }
                lemma_len_subset(before.seen@.insert(extra), after.seen@);
            }
            assert(self.unseen(&after) <= self.unseen(&before));
            assert(self.unseen(&after) == self.unseen(&before) ==> self.unvisited(&after)
                <= self.unvisited(&before));
        }
    }

    fn get_results(&self, state: &mut ClassicBeamState<D>) -> (results: Vec<IndexT>) {
        let result_count = match state.rerank_n {
            Some(n) => n,
            None => state.beam_width,
        };
        closest(&state.beam, result_count)
    }
}

/// Whether result `k` of a batch takes part: the batch was made for it, or it had not
/// been seen before and is the first of its id in the batch.
pub open spec fn takes_part(
    batch: Seq<(usize, Distance)>,
    unseen: Seq<IndexT>,
    seen: Set<u32>,
    k: int,
) -> bool {
    let id = batch[k].0 as IndexT;
    ||| unseen.contains(id)
    ||| !seen.contains(id) && forall|j: int| 0 <= j < k ==> (#[trigger] batch[j]).0 as IndexT != id
}

/// How many of the first `m` results of a batch take part and are no farther than the
/// given place.
pub open spec fn taking_part(
    batch: Seq<(usize, Distance)>,
    unseen: Seq<IndexT>,
    seen: Set<u32>,
    place: int,
    m: int,
) -> int
    decreases m,
{
    if m <= 0 {
        0
    } else {
        taking_part(batch, unseen, seen, place, m - 1) + (if takes_part(batch, unseen, seen, m - 1)
            && batch[m - 1].1.place() <= place {
            1int
        } else {
            0
        })
    }
}

/// All results of a batch that had not been seen, or that the batch was made for, take
/// part in the beam: of the entries before and those results together that are no
/// farther than any given place, the beam holds as many as it has room for. So no such
/// result is left out while there is room, and none that is closer than an entry; no
/// entry is lost to one that is farther; and nothing else comes in. All results have
/// been seen then.
pub proof fn law_batch_takes_part(
    batch: Seq<(usize, Distance)>,
    unseen: Seq<IndexT>,
    seen: Set<u32>,
    entries: Seq<Entry>,
    capacity: int,
    place: int,
    m: int,
)
    requires
        0 <= m <= batch.len(),
        is_sorted(entries),
        0 <= capacity,
        entries.len() <= capacity,
    ensures
        ({
            let (now, kept) = absorbed(batch, unseen, seen, entries, capacity, m);
            let all = near(entries, place) + taking_part(batch, unseen, seen, place, m);
            &&& forall|i: u32| #[trigger]
                now.contains(i) <==> seen.contains(i) || exists|k: int|
                    0 <= k < m && (#[trigger] batch[k]).0 as IndexT == i
            &&& is_sorted(kept)
            &&& entries.len() <= kept.len() <= capacity
            &&& near(kept, place) == (if all < capacity {
                all
            } else {
                capacity
            })
            &&& forall|k: int|
                0 <= k < m && takes_part(batch, unseen, seen, k) ==> has_its_place(
                    kept,
                    capacity,
                    ((#[trigger] batch[k]).0 as IndexT, batch[k].1),
                )
            &&& forall|other: (u32, Distance)| #[trigger]
                has_its_place(entries, capacity, other) ==> has_its_place(kept, capacity, other)
            &&& forall|j: int|
                0 <= j < kept.len() ==> {
                    ||| entries.contains(#[trigger] kept[j])
                    ||| !kept[j].visited && exists|k: int|
                        0 <= k < m && takes_part(batch, unseen, seen, k) && (
                        #[trigger] batch[k]).0 as IndexT == kept[j].id && batch[k].1
                            == kept[j].distance
                }
        }),
    decreases m,
{
    if m == 0 {
        law_candidates_compete(entries, Seq::empty(), capacity, place);
        assert forall|j: int| 0 <= j < entries.len() implies entries.contains(
            #[trigger] entries[j],
        ) by {}
    } else {
        law_batch_takes_part(batch, unseen, seen, entries, capacity, place, m - 1);
        let (then, had) = absorbed(batch, unseen, seen, entries, capacity, m - 1);
        let (now, kept) = absorbed(batch, unseen, seen, entries, capacity, m);
        let id = batch[m - 1].0 as IndexT;
        let one = (id, batch[m - 1].1);
        assert((!then.contains(id) || unseen.contains(id)) == takes_part(
            batch,
            unseen,
            seen,
            m - 1,
        ));
        assert forall|i: u32| #[trigger]
            now.contains(i) <==> seen.contains(i) || exists|k: int|
                0 <= k < m && (#[trigger] batch[k]).0 as IndexT == i by {
            if then.contains(i) && !seen.contains(i) {
                let k = choose|k: int| 0 <= k < m - 1 && (#[trigger] batch[k]).0 as IndexT == i;
                assert(batch[k].0 as IndexT == i);
            }
            assert(batch[m - 1].0 as IndexT == id);
        }
        if takes_part(batch, unseen, seen, m - 1) {
            let alone = seq![one];
            assert(alone.drop_last() =~= Seq::<(u32, Distance)>::empty());
            assert(inserted_all(had, alone, capacity) == kept) by {
                reveal_with_fuel(inserted_all, 2);
                assert(alone.last() == one);
            }
            assert(within(alone, place) == (if one.1.place() <= place {
                1int
            } else {
                0
            })) by {
                reveal_with_fuel(within, 2);
                assert(alone.last() == one);
            }
            law_candidates_compete(had, alone, capacity, place);
            assert(has_its_place(kept, capacity, alone[0]));
            assert forall|j: int| 0 <= j < kept.len() implies {
                ||| entries.contains(#[trigger] kept[j])
                ||| !kept[j].visited && exists|k: int|
                    0 <= k < m && takes_part(batch, unseen, seen, k) && (
                    #[trigger] batch[k]).0 as IndexT == kept[j].id && batch[k].1
                        == kept[j].distance
            } by {
                if had.contains(kept[j]) {
                    let l = had.index_of(kept[j]);
                    assert(had[l] == kept[j]);
                } else {
                    assert(alone.contains((kept[j].id, kept[j].distance)));
                    assert(batch[m - 1].0 as IndexT == kept[j].id);
                }
            }
        }
    }
}

/// Each neighbor that had not been seen is looked at once, in the order in which the
/// neighbors first occur, and none that had been: `at` says where each of them first
/// occurs.
pub proof fn law_unseen_are_looked_at_once(neighbors: Seq<IndexT>, seen: Set<u32>, m: int) -> (at:
    Seq<int>)
    requires
        0 <= m <= neighbors.len(),
    ensures
        ({
            let (unseen, now) = unseen_among(neighbors, seen, m);
            &&& at.len() == unseen.len()
            &&& forall|j: int|
                0 <= j < at.len() ==> {
                    &&& 0 <= #[trigger] at[j] < m
                    &&& neighbors[at[j]] == unseen[j]
                    &&& !seen.contains(unseen[j])
                    &&& forall|o: int| 0 <= o < at[j] ==> #[trigger] neighbors[o] != unseen[j]
                }
            &&& forall|j: int, l: int|
                0 <= j < l < at.len() ==> #[trigger] at[j] < #[trigger] at[l]
            &&& forall|k: int|
                0 <= k < m && !seen.contains(#[trigger] neighbors[k]) ==> unseen.contains(
                    neighbors[k],
                )
            &&& forall|i: u32| #[trigger]
                now.contains(i) <==> seen.contains(i) || unseen.contains(i)
        }),
    decreases m,
{
    if m > 0 {
        let before = law_unseen_are_looked_at_once(neighbors, seen, m - 1);
        let (unseen, now) = unseen_among(neighbors, seen, m - 1);
        let last = neighbors[m - 1];
        if now.contains(last) {
            before
        } else {
            let at = before.push(m - 1);
            let more = unseen.push(last);
            assert forall|i: u32| #[trigger] more.contains(i) <==> unseen.contains(i) || i
                == last by {
                if unseen.contains(i) {
                    let k = unseen.index_of(i);
                    assert(more[k] == i);
                }
                assert(more[unseen.len() as int] == last);
            }
            assert forall|j: int| 0 <= j < at.len() implies {
                &&& 0 <= #[trigger] at[j] < m
                &&& neighbors[at[j]] == more[j]
                &&& !seen.contains(more[j])
                &&& forall|o: int| 0 <= o < at[j] ==> #[trigger] neighbors[o] != more[j]
            } by {
                if j < before.len() {
                    assert(at[j] == before[j]);
                } else {
                    assert forall|o: int| 0 <= o < at[j] implies #[trigger] neighbors[o]
                        != more[j] by {
                        if neighbors[o] == last {
                            assert(now.contains(neighbors[o]));
                        }
                    }
                }
            }
            at
        }
    } else {
        Seq::empty()
    }
}

/// A step picks the closest candidate that has not been visited, unless all have been
/// or the limit on visits is reached; it marks that candidate as visited, and changes
/// nothing else of the beam.
pub proof fn law_classic_step_visits_closest<D: DistanceOracle>(
    graph: &ClassicGraph,
    before: &ClassicBeamState<D>,
    next: Option<IndexT>,
    after: &ClassicBeamState<D>,
)
    requires
        is_sorted(before.beam.entries@),
        graph.next_step(before, next, after),
    ensures
        next is None <==> {
            ||| before.limit matches Some(l) && before.beam.visited@.len() >= l
            ||| forall|k: int|
                0 <= k < before.beam.entries@.len() ==> (
                #[trigger] before.beam.entries@[k]).visited
        },
        next is None ==> after.beam.entries@ == before.beam.entries@ && after.beam.visited@
            == before.beam.visited@,
        next matches Some(node) ==> {
            &&& after.beam.visited@ == before.beam.visited@.push(node)
            &&& after.beam.entries@.len() == before.beam.entries@.len()
            &&& exists|at: int|
                {
                    &&& 0 <= at < before.beam.entries@.len()
                    &&& (#[trigger] before.beam.entries@[at]).id == node
                    &&& !before.beam.entries@[at].visited
                    &&& forall|k: int|
                        0 <= k < before.beam.entries@.len() && !(
                        #[trigger] before.beam.entries@[k]).visited
                            ==> before.beam.entries@[at].distance.place()
                            <= before.beam.entries@[k].distance.place()
                    &&& forall|k: int|
                        0 <= k < before.beam.entries@.len() ==> (
                        #[trigger] after.beam.entries@[k]) == (Entry {
                            visited: before.beam.entries@[k].visited || k == at,
                            ..before.beam.entries@[k]
                        })
                }
        },
{
    let entries = before.beam.entries@;
    law_next_is_closest(entries);
    let at = first_unvisited(entries);
    if next is Some {
        assert(entries[at].id == next->0);
        assert(!entries[at].visited);
    }
}

/// The neighbors to look at are those that had not been seen.
proof fn lemma_unseen_are(neighbors: Seq<IndexT>, seen: Set<u32>)
    ensures
        ({
            let (unseen, now) = unseen_among(neighbors, seen, neighbors.len() as int);
            &&& unseen.no_duplicates()
            &&& forall|i: u32| #[trigger]
                unseen.contains(i) <==> neighbors.contains(i) && !seen.contains(i)
            &&& forall|i: u32| #[trigger]
                now.contains(i) <==> seen.contains(i) || unseen.contains(i)
        }),
{
    let (unseen, now) = unseen_among(neighbors, seen, neighbors.len() as int);
    let at = law_unseen_are_looked_at_once(neighbors, seen, neighbors.len() as int);
    assert forall|i: int, j: int|
        0 <= i < unseen.len() && 0 <= j < unseen.len() && i != j implies unseen[i] != unseen[j] by {
        if i < j {
            assert(at[i] < at[j]);
            assert(neighbors[at[i]] == unseen[i]);
        } else {
            assert(at[j] < at[i]);
            assert(neighbors[at[j]] == unseen[j]);
        }
    }
    assert forall|i: u32| #[trigger] unseen.contains(i) <==> neighbors.contains(i)
        && !seen.contains(i) by {
        if unseen.contains(i) {
            let j = unseen.index_of(i);
            assert(0 <= at[j] < neighbors.len());
            assert(neighbors[at[j]] == i);
        }
        if neighbors.contains(i) {
            let k = neighbors.index_of(i);
            assert(neighbors[k] == i);
        }
    }
}

/// The neighbors of a visited node take part in the beam: those that had not been seen
/// are compared, each once, and whatever a comparison gives has its place in the beam,
/// where it is one of them or had not been seen. What was in its place stays so, all of
/// it has been seen then, and nothing else has.
#[verifier::spinoff_prover]
pub proof fn law_classic_neighbors_take_part<D: DistanceOracle>(
    graph: &ClassicGraph,
    before: &ClassicBeamState<D>,
    node: IndexT,
    after: &ClassicBeamState<D>,
) -> (compared: (Seq<IndexT>, Seq<(usize, Distance)>))
    requires
        before.beam.wf(),
        graph.expand_step(before, node, after),
    ensures
        compared.0.no_duplicates(),
        forall|i: u32| #[trigger]
            compared.0.contains(i) <==> graph.neighborhood(node).contains(i)
                && !before.seen@.contains(i),
        is_batch(&before.oracle, compared.0, compared.1),
        forall|i: u32| #[trigger]
            after.seen@.contains(i) <==> before.seen@.contains(i) || graph.neighborhood(
                node,
            ).contains(i) || exists|k: int|
                0 <= k < compared.1.len() && (#[trigger] compared.1[k]).0 as IndexT == i,
        is_sorted(after.beam.entries@),
        after.beam.entries@.len() <= before.beam.capacity,
        forall|k: int|
            0 <= k < compared.1.len() && takes_part(compared.1, compared.0, before.seen@, k)
                ==> has_its_place(
                after.beam.entries@,
                before.beam.capacity as int,
                ((#[trigger] compared.1[k]).0 as IndexT, compared.1[k].1),
            ),
        forall|other: (u32, Distance)| #[trigger]
            has_its_place(before.beam.entries@, before.beam.capacity as int, other)
                ==> has_its_place(after.beam.entries@, before.beam.capacity as int, other),
        after.beam.visited@ == before.beam.visited@,
        after.beam_snapshots@.len() == before.beam_snapshots@.len() + 1,
        after.beam_snapshots@.last()@.len() == after.beam.entries@.len(),
        forall|k: int|
            0 <= k < after.beam.entries@.len() ==> #[trigger] after.beam_snapshots@.last()@[k]
                == after.beam.entries@[k].id,
{
    let neighbors = graph.neighborhood(node);
    let (unseen, now) = unseen_among(neighbors, before.seen@, neighbors.len() as int);
    let capacity = before.beam.capacity as int;
    lemma_unseen_are(neighbors, before.seen@);
    let batch = if unseen.len() == 0 {
        Seq::<(usize, Distance)>::empty()
    } else {
        choose|batch: Seq<(usize, Distance)>|
            {
                &&& #[trigger] is_batch(&before.oracle, unseen, batch)
                &&& (after.seen@, after.beam.entries@) == absorbed(
                    batch,
                    unseen,
                    now,
                    before.beam.entries@,
                    capacity,
                    batch.len() as int,
                )
            }
    };
    if unseen.len() == 0 {
        let parts = Seq::<Seq<(usize, Distance)>>::empty();
        assert(batch == joined(parts, parts.len() as int));
        assert(is_batch(&before.oracle, unseen, batch));
    }
    assert(graph.neighborhood_step(before, node, after.seen@, after.beam.entries@));
    assert((after.seen@, after.beam.entries@) == absorbed(
        batch,
        unseen,
        now,
        before.beam.entries@,
        capacity,
        batch.len() as int,
    ));
    law_batch_takes_part(
        batch,
        unseen,
        now,
        before.beam.entries@,
        capacity,
        0,
        batch.len() as int,
    );
    assert(after.beam_snapshots@.last()@ == ids(after.beam.entries@));
    assert forall|k: int|
        0 <= k < batch.len() && takes_part(
            batch,
            unseen,
            before.seen@,
            k,
        ) implies has_its_place(
        after.beam.entries@,
        capacity,
        ((#[trigger] batch[k]).0 as IndexT, batch[k].1),
    ) by {
        let id = batch[k].0 as IndexT;
        assert(now.contains(id) <==> before.seen@.contains(id) || unseen.contains(id));
        assert(takes_part(batch, unseen, now, k));
    }
    assert forall|i: u32| #[trigger]
        after.seen@.contains(i) <==> before.seen@.contains(i) || neighbors.contains(i)
            || exists|k: int|
            0 <= k < batch.len() && (#[trigger] batch[k]).0 as IndexT == i by {
        let then = absorbed(
            batch,
            unseen,
            now,
            before.beam.entries@,
            capacity,
            batch.len() as int,
        ).0;
        assert(then == after.seen@);
        assert(then.contains(i) <==> now.contains(i) || exists|k: int|
            0 <= k < batch.len() && (#[trigger] batch[k]).0 as IndexT == i);
        assert(now.contains(i) <==> before.seen@.contains(i) || unseen.contains(i));
        assert(unseen.contains(i) <==> neighbors.contains(i) && !before.seen@.contains(i));
    }
    (unseen, batch)
}

/// What a batch holds: everything that the comparisons with the indices give, one after
/// the other.
pub proof fn law_batch_holds_all(parts: Seq<Seq<(usize, Distance)>>, m: int, i: int, k: int)
    requires
        0 <= i < m <= parts.len(),
        0 <= k < parts[i].len(),
    ensures
        ({
            let before = joined(parts, i);
            &&& before.len() + k < joined(parts, m).len()
            &&& joined(parts, m)[before.len() + k] == parts[i][k]
            &&& i == 0 ==> before.len() == 0
            &&& joined(parts, i + 1).len() == before.len() + parts[i].len()
        }),
    decreases m,
{
    if i < m - 1 {
        law_batch_holds_all(parts, m - 1, i, k);
    }
}

/// The results of a batch as entries, in their order.
pub open spec fn as_candidates(batch: Seq<(usize, Distance)>) -> Seq<(u32, Distance)> {
    Seq::new(batch.len(), |k: int| (batch[k].0 as IndexT, batch[k].1))
}

/// Absorbing a batch is fair: where distances are equal, entries come before results of
/// the batch, and these in their order.
pub proof fn law_batch_is_absorbed_in_order(
    batch: Seq<(usize, Distance)>,
    unseen: Seq<IndexT>,
    seen: Set<u32>,
    entries: Seq<Entry>,
    capacity: int,
    m: int,
) -> (origin: Seq<int>)
    requires
        0 <= m <= batch.len(),
        is_sorted(entries),
        0 <= capacity,
        entries.len() <= capacity,
    ensures
        is_taken_from(
            absorbed(batch, unseen, seen, entries, capacity, m).1,
            in_line(entries, as_candidates(batch.take(m))),
            origin,
        ),
    decreases m,
{
    let line = in_line(entries, as_candidates(batch.take(m)));
    if m == 0 {
        assert(line =~= entries);
        Seq::new(entries.len(), |k: int| k)
    } else {
        let origin = law_batch_is_absorbed_in_order(
            batch,
            unseen,
            seen,
            entries,
            capacity,
            m - 1,
        );
        law_batch_takes_part(batch, unseen, seen, entries, capacity, 0, m - 1);
        let had = absorbed(batch, unseen, seen, entries, capacity, m - 1).1;
        let shorter = in_line(entries, as_candidates(batch.take(m - 1)));
        let one = (batch[m - 1].0 as IndexT, batch[m - 1].1);
        assert(shorter.push(fresh(one)) =~= line);
        let after = lemma_taken_after(had, shorter, origin, one, capacity);
        if absorbed(batch, unseen, seen, entries, capacity, m).1 == had {
            assert forall|k: int| 0 <= k < had.len() implies 0 <= #[trigger] origin[k] < line.len()
                && had[k] == line[origin[k]] by {
                assert(had[k] == shorter[origin[k]]);
            }
            origin
        } else {
            after
        }
    }
}

/// A batch is everything that the comparisons with the indices give, one after the
/// other.
pub proof fn law_batch_is_all_comparisons<D: DistanceOracle>(
    oracle: &D,
    indices: Seq<IndexT>,
    batch: Seq<(usize, Distance)>,
) -> (parts: Seq<Seq<(usize, Distance)>>)
    requires
        is_batch(oracle, indices, batch),
    ensures
        parts.len() == indices.len(),
        forall|k: int|
            0 <= k < parts.len() ==> oracle.compared(indices[k] as int, #[trigger] parts[k]),
        batch == parts.flatten(),
{
    let parts = choose|parts: Seq<Seq<(usize, Distance)>>|
        {
            &&& parts.len() == indices.len()
            &&& forall|k: int|
                0 <= k < parts.len() ==> oracle.compared(indices[k] as int, #[trigger] parts[k])
            &&& batch == #[trigger] joined(parts, parts.len() as int)
        };
    law_joined_is_flattened(parts);
    parts
}

impl Named for ClassicGraph {
    open spec fn title(&self) -> Seq<char> {
        "ClassicGraph"@
    }

    fn name(&self) -> (name: &str) {
        "ClassicGraph"
    }
}

} // verus!
