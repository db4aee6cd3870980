//! Beam search over a graph, with an oracle for the distances.

use std::marker::PhantomData;
use vstd::prelude::*;
use vstd::set_lib::lemma_len_subset;

use crate::beam::{
    first_unvisited, fresh, inserted, inserted_all, is_sorted, lemma_first_unvisited,
    lemma_inserted, lemma_inserted_all, lemma_position, position, Beam, Entry,
};
use crate::beam_search::{
    closest, copy_snapshots, count_unvisited, first_ids, lemma_marked, marked, stops, BeamSearchable,
};
use crate::beam_search_oracle::{grows_below, newly_seen, BeamSearchOracle, Candidates};
use crate::classic_graph::{ClassicGraph, Graph, IndexT};
use crate::distance::Distance;
use crate::named::Named;
use crate::seen_set::SeenSet;

verus! {

/// A graph to be searched with oracles of type `O`. The oracle itself is part of the
/// search state, since it belongs to one query.
pub struct ClassicGraphWithOracle<'a, O> {
    pub graph: &'a ClassicGraph,
    pub oracle_type: PhantomData<O>,
}

impl<'a, O> ClassicGraphWithOracle<'a, O> {
    pub fn new(graph: &'a ClassicGraph) -> (wrapper: ClassicGraphWithOracle<'a, O>)
        ensures
            wrapper.graph == graph,
    {
        ClassicGraphWithOracle { graph, oracle_type: PhantomData }
    }
}

impl<'a, O> Named for ClassicGraphWithOracle<'a, O> {
    open spec fn title(&self) -> Seq<char> {
        "ClassicGraph(O)"@
    }

    fn name(&self) -> (name: &str) {
        "ClassicGraph(O)"
    }
}

/// The state of a search with an oracle.
pub struct OracleBeamState<O> {
    /// Nodes that have been seen, and do not enter the beam again.
    pub seen: SeenSet,
    /// The closest candidates, and the nodes visited.
    pub beam: Beam,
    /// Blocks that have been scanned, where the oracle scans blocks.
    pub scanned_blocks: SeenSet,
    /// The width of the beam.
    pub beam_width: usize,
    /// The most nodes to visit.
    pub limit: Option<usize>,
    /// The oracle for the distances.
    pub oracle: O,
    /// The number of vectors.
    pub max_valid_idx: usize,
    /// How many distances have been computed.
    pub distance_comparisons: usize,
    /// How many candidates to return, where that is not the width of the beam.
    pub rerank_n: Option<usize>,
    /// Ids in the beam after each visit, where these are recorded.
    pub beam_snapshots: Vec<Vec<IndexT>>,
}

/// What a search has come to.
pub struct OracleSearch {
    pub seen: Set<u32>,
    pub scanned: Set<u32>,
    pub entries: Seq<Entry>,
    pub visited: Seq<IndexT>,
    pub comparisons: int,
}

impl<O> View for OracleBeamState<O> {
    type V = OracleSearch;

    open spec fn view(&self) -> OracleSearch {
        OracleSearch {
            seen: self.seen@,
            scanned: self.scanned_blocks@,
            entries: self.beam.entries@,
            visited: self.beam.visited@,
            comparisons: self.distance_comparisons as int,
        }
    }
}

impl<O: Clone> Clone for OracleBeamState<O> {
    fn clone(&self) -> (copy: OracleBeamState<O>)
        ensures
            copy@ == self@,
            self.seen.wf() ==> copy.seen.wf(),
            self.scanned_blocks.wf() ==> copy.scanned_blocks.wf(),
            copy.beam.capacity == self.beam.capacity,
            copy.beam_width == self.beam_width,
            copy.limit == self.limit,
            cloned(self.oracle, copy.oracle),
            copy.max_valid_idx == self.max_valid_idx,
            copy.rerank_n == self.rerank_n,
            copy.beam_snapshots@.len() == self.beam_snapshots@.len(),
            forall|k: int|
                0 <= k < self.beam_snapshots@.len() ==> (#[trigger] copy.beam_snapshots@[k])@
                    == self.beam_snapshots@[k]@,
    {
        OracleBeamState {
            seen: self.seen.clone(),
            beam: self.beam.clone(),
            scanned_blocks: self.scanned_blocks.clone(),
            beam_width: self.beam_width,
            limit: self.limit,
            oracle: self.oracle.clone(),
            max_valid_idx: self.max_valid_idx,
            distance_comparisons: self.distance_comparisons,
            rerank_n: self.rerank_n,
            beam_snapshots: copy_snapshots(&self.beam_snapshots),
        }
    }
}

/// The search after its next node has been picked.
pub open spec fn picked(search: OracleSearch) -> OracleSearch {
    OracleSearch {
        entries: marked(search.entries),
        visited: search.visited.push(search.entries[first_unvisited(search.entries)].id),
        ..search
    }
}

/// Whether a search can begin like this at `start`: the start and what comes with it
/// are in the beam.
pub open spec fn begins<O: BeamSearchOracle>(
    oracle: &O,
    start: IndexT,
    capacity: int,
    search: OracleSearch,
) -> bool {
    &&& search.visited == Seq::<IndexT>::empty()
    &&& exists|initial: Distance, additional: Seq<(IndexT, Distance)>|
        {
            &&& #[trigger] oracle.init_step(
                start,
                Set::<u32>::empty().insert(start),
                Set::<u32>::empty(),
                search.seen,
                search.scanned,
                initial,
                additional,
                search.comparisons,
            )
            &&& search.entries == inserted_all(
                inserted(Seq::empty(), (start, initial), capacity),
                additional,
                capacity,
            )
        }
}

/// Whether looking at the neighbors of `node` can lead from one search to the other:
/// what the oracle finds goes into the beam.
pub open spec fn expands<O: BeamSearchOracle>(
    graph: &ClassicGraph,
    oracle: &O,
    capacity: int,
    before: OracleSearch,
    node: IndexT,
    after: OracleSearch,
) -> bool {
    &&& after.visited == before.visited
    &&& exists|found: Seq<(IndexT, Distance)>|
        {
            &&& #[trigger] oracle.neighbors_step(
                graph.neighborhood(node),
                None,
                before.seen,
                before.scanned,
                after.seen,
                after.scanned,
                found,
                after.comparisons - before.comparisons,
            )
            &&& after.entries == inserted_all(before.entries, found, capacity)
        }
}

/// Whether the searches follow one another, each by visiting the closest candidate
/// of the one before that has not been visited, and the last one stops.
pub open spec fn is_run<O: BeamSearchOracle>(
    graph: &ClassicGraph,
    oracle: &O,
    capacity: int,
    limit: Option<usize>,
    searches: Seq<OracleSearch>,
) -> bool {
    &&& searches.len() > 0
    &&& forall|k: int|
        0 <= k < searches.len() - 1 ==> {
            &&& !stops((#[trigger] searches[k]).entries, searches[k].visited.len(), limit)
            &&& expands(
                graph,
                oracle,
                capacity,
                picked(searches[k]),
                picked(searches[k]).visited.last(),
                searches[k + 1],
            )
        }
    &&& stops(searches.last().entries, searches.last().visited.len(), limit)
}

/// Whether a search that begins at `start` can come to this.
pub open spec fn comes_to<O: BeamSearchOracle>(
    graph: &ClassicGraph,
    oracle: &O,
    start: IndexT,
    capacity: int,
    limit: Option<usize>,
    end: OracleSearch,
) -> bool {
    exists|searches: Seq<OracleSearch>|
        {
            &&& #[trigger] is_run(graph, oracle, capacity, limit, searches)
            &&& begins(oracle, start, capacity, searches[0])
            &&& end == searches.last()
        }
}

/// Whether no two entries have the same id.
pub open spec fn distinct_ids(entries: Seq<Entry>) -> bool {
    forall|i: int, j: int|
        0 <= i < j < entries.len() ==> (#[trigger] entries[i]).id != (#[trigger] entries[j]).id
}

/// Whether candidates and visited nodes have been seen, no candidate occurs twice,
/// and the candidates marked as visited have been visited.
pub open spec fn coherent(search: OracleSearch) -> bool {
    &&& distinct_ids(search.entries)
    &&& forall|k: int|
        0 <= k < search.entries.len() ==> {
            &&& search.seen.contains((#[trigger] search.entries[k]).id)
            &&& search.entries[k].visited ==> search.visited.contains(search.entries[k].id)
        }
    &&& forall|k: int|
        0 <= k < search.visited.len() ==> search.seen.contains(#[trigger] search.visited[k])
}

/// Whether all neighbors below `valid` of the first `m` visited nodes have been seen.
pub open spec fn closed(
    graph: &ClassicGraph,
    search: OracleSearch,
    valid: int,
    m: int,
) -> bool {
    forall|j: int, k: int|
        0 <= j < m && 0 <= k < graph.neighborhood(search.visited[j]).len()
            && graph.neighborhood(search.visited[j])[k] < valid ==> search.seen.contains(
            #[trigger] graph.neighborhood(search.visited[j])[k],
        )
}

/// Whether a graph and an oracle go together: the vectors are nodes, and the oracle
/// takes all neighbors.
pub open spec fn go_together<O: BeamSearchOracle>(graph: &ClassicGraph, oracle: &O) -> bool {
    &&& graph.wf()
    &&& oracle.ready()
    &&& oracle.valid() <= graph.n
    &&& forall|i: IndexT, k: int|
        i < graph.n && 0 <= k < graph.neighborhood(i).len() ==> oracle.accepts(
            #[trigger] graph.neighborhood(i)[k],
        )
}

/// Entries come from candidates put in, or were there before; and where candidates
/// are different from one another and from the entries, no id occurs twice.
proof fn lemma_inserted_members(
    entries: Seq<Entry>,
    candidates: Seq<(u32, Distance)>,
    capacity: int,
)
    requires
        is_sorted(entries),
        0 <= capacity,
        entries.len() <= capacity,
        distinct_ids(entries),
        forall|k: int, l: int|
            0 <= k < l < candidates.len() ==> (#[trigger] candidates[k]).0 != (
            #[trigger] candidates[l]).0,
        forall|k: int, l: int|
            0 <= k < candidates.len() && 0 <= l < entries.len() ==> (#[trigger] candidates[k]).0 != (
            #[trigger] entries[l]).id,
    ensures
        is_sorted(inserted_all(entries, candidates, capacity)),
        inserted_all(entries, candidates, capacity).len() <= capacity,
        distinct_ids(inserted_all(entries, candidates, capacity)),
        forall|k: int|
            0 <= k < inserted_all(entries, candidates, capacity).len() ==> {
                let entry = #[trigger] inserted_all(entries, candidates, capacity)[k];
                ||| entries.contains(entry)
                ||| exists|l: int|
                    0 <= l < candidates.len() && entry == fresh(#[trigger] candidates[l])
            },
    decreases candidates.len(),
{
    if candidates.len() > 0 {
        let before = candidates.drop_last();
        let last = candidates.last();
        assert forall|k: int, l: int| 0 <= k < l < before.len() implies (#[trigger] before[k]).0 != (
        #[trigger] before[l]).0 by {
            assert(candidates[k].0 != candidates[l].0);
        }
        assert forall|k: int, l: int|
            0 <= k < before.len() && 0 <= l < entries.len() implies (#[trigger] before[k]).0 != (
        #[trigger] entries[l]).id by {
            assert(candidates[k].0 != entries[l].id);
        }
        lemma_inserted_members(entries, before, capacity);
        let had = inserted_all(entries, before, capacity);
        lemma_inserted(had, last, capacity);
        lemma_position(had, last.1.place());
        let at = position(had, last.1.place());
        let grown = had.insert(at, fresh(last));
        let kept = inserted(had, last, capacity);
        assert(candidates[candidates.len() - 1] == last);
        assert forall|k: int| 0 <= k < had.len() implies (#[trigger] had[k]).id != last.0 by {
            if entries.contains(had[k]) {
                let l = entries.index_of(had[k]);
                assert(candidates[candidates.len() - 1].0 != entries[l].id);
            } else {
                let l = choose|l: int| 0 <= l < before.len() && had[k] == fresh(#[trigger] before[l]);
                assert(before[l] == candidates[l]);
            }
        }
        assert forall|k: int| 0 <= k < kept.len() implies #[trigger] kept[k] == (if k < at {
            had[k]
        } else if k == at {
            fresh(last)
        } else {
            had[k - 1]
        }) by {
            assert(kept[k] == grown[k]);
        }
        assert forall|k: int| 0 <= k < kept.len() implies {
            let entry = #[trigger] kept[k];
            ||| entries.contains(entry)
            ||| exists|l: int| 0 <= l < candidates.len() && entry == fresh(#[trigger] candidates[l])
        } by {
            if k == at {
                assert(kept[k] == fresh(candidates[candidates.len() - 1]));
            } else {
                let j = if k < at {
                    k
                } else {
                    k - 1
                };
                if !entries.contains(had[j]) {
                    let l = choose|l: int|
                        0 <= l < before.len() && had[j] == fresh(#[trigger] before[l]);
                    assert(candidates[l] == before[l]);
                }
            }
        }
    }
}

/// Putting new vectors into the beam keeps it coherent.
proof fn lemma_coherent_grown(
    before: OracleSearch,
    found: Seq<(IndexT, Distance)>,
    capacity: int,
    valid: int,
    after: OracleSearch,
)
    requires
        coherent(before),
        is_sorted(before.entries),
        0 <= capacity,
        before.entries.len() <= capacity,
        newly_seen(found, valid, before.seen, after.seen),
        grows_below(before.seen, after.seen, valid),
        after.entries == inserted_all(before.entries, found, capacity),
        after.visited == before.visited,
    ensures
        coherent(after),
{
    lemma_inserted_members(before.entries, found, capacity);
    assert forall|k: int| 0 <= k < after.entries.len() implies {
        &&& after.seen.contains((#[trigger] after.entries[k]).id)
        &&& after.entries[k].visited ==> after.visited.contains(after.entries[k].id)
    } by {
        if before.entries.contains(after.entries[k]) {
            let l = before.entries.index_of(after.entries[k]);
            assert(before.entries[l] == after.entries[k]);
        } else {
            let l = choose|l: int|
                0 <= l < found.len() && after.entries[k] == fresh(#[trigger] found[l]);
            assert(after.seen.contains(found[l].0));
        }
    }
}

/// Picking a node keeps the beam coherent.
proof fn lemma_coherent_picked(search: OracleSearch)
    requires
        coherent(search),
        first_unvisited(search.entries) < search.entries.len(),
    ensures
        coherent(picked(search)),
{
    lemma_first_unvisited(search.entries);
    let after = picked(search);
    let at = first_unvisited(search.entries);
    assert forall|k: int| 0 <= k < after.entries.len() implies {
        &&& after.seen.contains((#[trigger] after.entries[k]).id)
        &&& after.entries[k].visited ==> after.visited.contains(after.entries[k].id)
    } by {
        assert(search.seen.contains(search.entries[k].id));
        if k == at {
            assert(after.visited[search.visited.len() as int] == after.entries[k].id);
        } else if after.entries[k].visited {
            let j = search.visited.index_of(search.entries[k].id);
            assert(after.visited[j] == search.entries[k].id);
        }
    }
    assert forall|i: int, j: int| 0 <= i < j < after.entries.len() implies (
    #[trigger] after.entries[i]).id != (#[trigger] after.entries[j]).id by {
        assert(search.entries[i].id != search.entries[j].id);
    }
    assert(search.seen.contains(search.entries[at].id));
}

impl<O> OracleBeamState<O> {
    /// The number of blocks that have been scanned.
    pub fn num_scanned_blocks(&self) -> (blocks: usize)
        requires
            self.scanned_blocks.wf(),
            self@.scanned.len() <= usize::MAX,
        ensures
            blocks == self@.scanned.len(),
    {
        self.scanned_blocks.len()
    }

    /// The number of distances that have been computed.
    pub fn num_distance_comparisons(&self) -> (comparisons: usize)
        ensures
            comparisons == self@.comparisons,
    {
        self.distance_comparisons
    }

    /// The ids in the beam after each visit, where these are recorded.
    pub fn get_beam_snapshots(&self) -> (snapshots: &Vec<Vec<IndexT>>)
        ensures
            snapshots == &self.beam_snapshots,
    {
        &self.beam_snapshots
    }

    /// Whether the states belong to the same search: all but what a step changes is
    /// the same.
    pub open spec fn same_search(&self, other: &OracleBeamState<O>) -> bool {
        &&& self.beam.capacity == other.beam.capacity
        &&& self.beam_width == other.beam_width
        &&& self.limit == other.limit
        &&& self.oracle == other.oracle
        &&& self.max_valid_idx == other.max_valid_idx
        &&& self.rerank_n == other.rerank_n
        &&& self.beam_snapshots == other.beam_snapshots
    }

    /// How many results the search returns at most.
    pub open spec fn result_count(&self) -> nat {
        match self.rerank_n {
            Some(n) => n as nat,
            None => self.beam_width as nat,
        }
    }
}

/// How many candidates a beam of the given width keeps.
pub open spec fn beam_length(beam_width: usize, rerank_n: Option<usize>) -> usize {
    match rerank_n {
        Some(n) => if n >= beam_width {
            n
        } else {
            beam_width
        },
        None => beam_width,
    }
}

impl<O: BeamSearchOracle> OracleBeamState<O> {
    /// Whether the parts of the state agree.
    pub open spec fn sound(&self) -> bool {
        &&& self.oracle.ready()
        &&& self.seen.wf()
        &&& self.scanned_blocks.wf()
        &&& self.beam.wf()
        &&& self.oracle.keeps(self@.seen, self@.scanned)
        &&& self@.comparisons == self.oracle.spent(self@.seen, self@.scanned)
        &&& coherent(self@)
        &&& self.beam.capacity > 0 ==> self@.entries.len() > 0
        &&& self.limit matches Some(l) ==> self@.visited.len() <= l
    }

    /// Whether the state is sound, and all that has been seen are nodes of the graph.
    pub open spec fn sound_for(&self, graph: &ClassicGraph) -> bool {
        &&& self.sound()
        &&& go_together(graph, &self.oracle)
        &&& forall|i: u32| #[trigger] self@.seen.contains(i) ==> i < graph.n
    }

    /// Sees the start, and puts it and what comes with it into an empty beam.
    fn begin(
        oracle: &O,
        start: IndexT,
        seen: &mut SeenSet,
        scanned_blocks: &mut SeenSet,
        beam: &mut Beam,
    ) -> (comparisons: usize)
        requires
            oracle.ready(),
            oracle.measures(start as int),
            old(seen).wf(),
            old(scanned_blocks).wf(),
            old(beam).wf(),
            old(seen)@ == Set::<u32>::empty(),
            old(scanned_blocks)@ == Set::<u32>::empty(),
            old(beam).entries@ == Seq::<Entry>::empty(),
            old(beam).visited@ == Seq::<u32>::empty(),
        ensures
            final(seen).wf(),
            final(scanned_blocks).wf(),
            final(beam).wf(),
            final(beam).capacity == old(beam).capacity,
            oracle.keeps(final(seen)@, final(scanned_blocks)@),
            comparisons == oracle.spent(final(seen)@, final(scanned_blocks)@),
            grows_below(Set::<u32>::empty().insert(start), final(seen)@, oracle.valid()),
            ({
                let search = OracleSearch {
                    seen: final(seen)@,
                    scanned: final(scanned_blocks)@,
                    entries: final(beam).entries@,
                    visited: final(beam).visited@,
                    comparisons: comparisons as int,
                };
                &&& begins(oracle, start, old(beam).capacity as int, search)
                &&& coherent(search)
                &&& old(beam).capacity > 0 ==> search.entries.len() > 0
            }),
    {
        seen.insert(start);
        let ghost only_start = seen@;
        let (initial_distance, additional_distances, distance_comparisons) = oracle.initialize(
            start,
            seen,
            scanned_blocks,
        );
        beam.insert((start, initial_distance));
        proof {
            lemma_inserted(
                Seq::empty(),
                (start, initial_distance),
                beam.capacity as int,
            );
            let one = OracleSearch {
                seen: only_start,
                scanned: Set::empty(),
                entries: beam.entries@,
                visited: Seq::empty(),
                comparisons: 0,
            };
            assert(coherent(one)) by {
                assert forall|k: int| 0 <= k < one.entries.len() implies one.entries[k] == fresh(
                    (start, initial_distance),
                ) by {
                    assert(inserted(
                        Seq::empty(),
                        (start, initial_distance),
                        beam.capacity as int,
                    )[k] == one.entries[k]);
                }
            }
            let search = OracleSearch {
                seen: seen@,
                scanned: scanned_blocks@,
                entries: inserted_all(
                    beam.entries@,
                    additional_distances@,
                    beam.capacity as int,
                ),
                visited: Seq::empty(),
                comparisons: distance_comparisons as int,
            };
            lemma_inserted_all(one.entries, additional_distances@, beam.capacity as int);
            lemma_coherent_grown(
                one,
                additional_distances@,
                beam.capacity as int,
                oracle.valid(),
                search,
            );
        }
        beam.batch_insert(&additional_distances);
        proof {
            let search = OracleSearch {
                seen: seen@,
                scanned: scanned_blocks@,
                entries: beam.entries@,
                visited: beam.visited@,
                comparisons: distance_comparisons as int,
            };
            assert(oracle.init_step(
                start,
                Set::<u32>::empty().insert(start),
                Set::<u32>::empty(),
                search.seen,
                search.scanned,
                initial_distance,
                additional_distances@,
                search.comparisons,
            ));
            assert(search.entries == inserted_all(
                inserted(Seq::empty(), (start, initial_distance), beam.capacity as int),
                additional_distances@,
                beam.capacity as int,
            ));
        }
        distance_comparisons
    }

    /// A search that begins at `start`.
    pub fn new(
        oracle: O,
        start: IndexT,
        beam_width: usize,
        limit: Option<usize>,
        rerank_n: Option<usize>,
    ) -> (state: OracleBeamState<O>)
        requires
            oracle.ready(),
            oracle.measures(start as int),
        ensures
            state.sound(),
            state.oracle == oracle,
            state.beam_width == beam_width,
            state.limit == limit,
            state.rerank_n == rerank_n,
            state.max_valid_idx == oracle.valid(),
            state.beam.capacity == beam_length(beam_width, rerank_n),
            state.beam.capacity >= beam_width,
            rerank_n matches Some(n) ==> state.beam.capacity >= n,
            state.beam.capacity == beam_width || rerank_n == Some(state.beam.capacity),
            state.beam_snapshots@ == Seq::<Vec<IndexT>>::empty(),
            begins(&oracle, start, state.beam.capacity as int, state@),
            grows_below(Set::<u32>::empty().insert(start), state@.seen, oracle.valid()),
            forall|wrapper: ClassicGraphWithOracle<O>|
                state.sound_for(wrapper.graph) ==> #[trigger] wrapper.ready(&state),
    {
        let max_valid_idx = oracle.max_valid_idx();
        let num_blocks = oracle.num_blocks();
        let mut seen = SeenSet::new(max_valid_idx);
        let mut scanned_blocks = SeenSet::new(num_blocks);
        let beam_length = match rerank_n {
            Some(n) => if n >= beam_width {
                n
            } else {
                beam_width
            },
            None => beam_width,
        };
        let mut beam = Beam::new(beam_length);
        let distance_comparisons = OracleBeamState::begin(
            &oracle,
            start,
            &mut seen,
            &mut scanned_blocks,
            &mut beam,
        );
        OracleBeamState {
            seen,
            beam,
            scanned_blocks,
            beam_width,
            limit,
            oracle,
            max_valid_idx,
            distance_comparisons,
            rerank_n,
            beam_snapshots: Vec::new(),
        }
    }

    /// Begins again at `start` with another oracle.
    pub fn reset_for_query(&mut self, oracle: O, start: IndexT)
        requires
            old(self).seen.wf(),
            old(self).scanned_blocks.wf(),
            oracle.ready(),
            oracle.measures(start as int),
        ensures
            final(self).sound(),
            final(self).oracle == oracle,
            final(self).beam_width == old(self).beam_width,
            final(self).limit == old(self).limit,
            final(self).rerank_n == old(self).rerank_n,
            final(self).max_valid_idx == old(self).max_valid_idx,
            final(self).beam.capacity == old(self).beam.capacity,
            final(self).beam_snapshots == old(self).beam_snapshots,
            begins(&oracle, start, final(self).beam.capacity as int, final(self)@),
            grows_below(Set::<u32>::empty().insert(start), final(self)@.seen, oracle.valid()),
            forall|wrapper: ClassicGraphWithOracle<O>|
                final(self).sound_for(wrapper.graph) ==> #[trigger] wrapper.ready(final(self)),
    {
        self.seen.reset();
        self.beam.reset();
        self.scanned_blocks.reset();
        self.oracle = oracle;
        self.distance_comparisons = OracleBeamState::begin(
            &self.oracle,
            start,
            &mut self.seen,
            &mut self.scanned_blocks,
            &mut self.beam,
        );
    }
}

impl<'a, O: BeamSearchOracle> BeamSearchable<OracleBeamState<O>> for ClassicGraphWithOracle<
    'a,
    O,
> {
    /// The state is sound, and the neighbors of all visited nodes have been seen.
    open spec fn ready(&self, state: &OracleBeamState<O>) -> bool {
        &&& state.sound_for(self.graph)
        &&& closed(self.graph, state@, state.oracle.valid(), state@.visited.len() as int)
    }

    /// The node is the last one visited; the neighbors of those before it have been
    /// seen.
    open spec fn pending(&self, state: &OracleBeamState<O>, node: IndexT) -> bool {
        &&& state.sound_for(self.graph)
        &&& state@.visited.len() > 0
        &&& state@.visited.last() == node
        &&& closed(self.graph, state@, state.oracle.valid(), state@.visited.len() - 1)
    }

    open spec fn unseen(&self, state: &OracleBeamState<O>) -> nat {
        (0x1_0000_0000 - state@.seen.len()) as nat
    }

    open spec fn unvisited(&self, state: &OracleBeamState<O>) -> nat {
        count_unvisited(state@.entries)
    }

    open spec fn next_step(
        &self,
        before: &OracleBeamState<O>,
        next: Option<IndexT>,
        after: &OracleBeamState<O>,
    ) -> bool {
        &&& after.same_search(before)
        &&& match next {
            Some(node) => {
                &&& !stops(before@.entries, before@.visited.len(), before.limit)
                &&& after@ == picked(before@)
                &&& node == after@.visited.last()
            },
            None => {
                &&& stops(before@.entries, before@.visited.len(), before.limit)
                &&& after@ == before@
            },
        }
    }

    open spec fn expand_step(
        &self,
        before: &OracleBeamState<O>,
        node: IndexT,
        after: &OracleBeamState<O>,
    ) -> bool {
        &&& after.same_search(before)
        &&& expands(
            self.graph,
            &before.oracle,
            before.beam.capacity as int,
            before@,
            node,
            after@,
        )
    }

    open spec fn results(&self, state: &OracleBeamState<O>) -> Seq<IndexT> {
        first_ids(state@.entries, state.result_count())
    }

    fn next_node(&self, search_state: &mut OracleBeamState<O>) -> (next: Option<IndexT>) {
        let ghost before = *search_state;
        proof {
            assert(self.ready(&before));
            lemma_first_unvisited(before@.entries);
        }
        if let Some(limit) = search_state.limit {
            if search_state.beam.visited_count() >= limit {
                return None;
            }
        }
        let next = search_state.beam.get_next();
        proof {
            let after = *search_state;
            if next is Some {
                lemma_marked(before@.entries);
                lemma_coherent_picked(before@);
                assert(after@ == picked(before@));
                assert forall|j: int, k: int|
                    0 <= j < before@.visited.len() && 0 <= k < self.graph.neighborhood(
                        after@.visited[j],
                    ).len() && self.graph.neighborhood(after@.visited[j])[k]
                        < after.oracle.valid() implies after@.seen.contains(
                    #[trigger] self.graph.neighborhood(after@.visited[j])[k],
                ) by {
                    assert(after@.visited[j] == before@.visited[j]);
                    assert(before@.seen.contains(self.graph.neighborhood(before@.visited[j])[k]));
                }
                assert(self.pending(&after, next->0));
                assert(self.unseen(&after) == self.unseen(&before));
                assert(self.unvisited(&after) < self.unvisited(&before));
            }
        }
        next
    }

    fn expand_node(&self, state: &mut OracleBeamState<O>, node: IndexT) {
        let ghost before = *state;
        assert(self.pending(&before, node));
        assert(before@.seen.contains(before@.visited[before@.visited.len() - 1]));
        let neighbors = self.graph.neighbors(node);
        let mut new_candidates: Candidates = Vec::new();
        let comparisons = state.oracle.process_neighbors(
            neighbors,
            &mut state.seen,
            &mut state.scanned_blocks,
            &mut new_candidates,
            None,
        );
        state.beam.batch_insert(&new_candidates);
        state.distance_comparisons = state.distance_comparisons + comparisons;
        proof {
            let after = *state;
            let found = new_candidates@;
            assert(found.subrange(0, found.len() as int) =~= found);
            let valid = after.oracle.valid();
            lemma_inserted_all(before@.entries, found, after.beam.capacity as int);
            lemma_coherent_grown(before@, found, after.beam.capacity as int, valid, after@);
            assert(after.oracle.neighbors_step(
                self.graph.neighborhood(node),
                None,
                before@.seen,
                before@.scanned,
                after@.seen,
                after@.scanned,
                found,
                after@.comparisons - before@.comparisons,
            ));
            assert forall|j: int, k: int|
                0 <= j < after@.visited.len() && 0 <= k < self.graph.neighborhood(
                    after@.visited[j],
                ).len() && self.graph.neighborhood(after@.visited[j])[k]
                    < valid implies after@.seen.contains(
                #[trigger] self.graph.neighborhood(after@.visited[j])[k],
            ) by {
                if j < after@.visited.len() - 1 {
                    assert(before@.seen.contains(self.graph.neighborhood(before@.visited[j])[k]));
                }
            }
            before.seen.lemma_finite();
            after.seen.lemma_finite();
            lemma_len_subset(before@.seen, after@.seen);
            if found.len() > 0 {
                assert(before@.seen.insert(found[0].0).subset_of(after@.seen));
                lemma_len_subset(before@.seen.insert(found[0].0), after@.seen);
            }
            assert(self.unseen(&after) <= self.unseen(&before));
            assert(self.unseen(&after) == self.unseen(&before) ==> self.unvisited(&after)
                <= self.unvisited(&before));
        }
    }

    fn get_results(&self, state: &mut OracleBeamState<O>) -> (results: Vec<IndexT>) {
        let count = match state.rerank_n {
            Some(n) => n,
            None => state.beam_width,
        };
        closest(&state.beam, count)
    }
}

/// Steps do not change what belongs to the query.
proof fn lemma_same_search<O: BeamSearchOracle>(
    wrapper: &ClassicGraphWithOracle<O>,
    states: Seq<OracleBeamState<O>>,
    picks: Seq<OracleBeamState<O>>,
    nodes: Seq<IndexT>,
    m: int,
)
    requires
        states.len() == nodes.len() + 1,
        picks.len() == nodes.len(),
        forall|k: int|
            0 <= k < nodes.len() ==> {
                &&& wrapper.next_step(&states[k], Some(#[trigger] nodes[k]), &picks[k])
                &&& wrapper.expand_step(&picks[k], nodes[k], &states[k + 1])
            },
        0 <= m < states.len(),
    ensures
        states[m].same_search(&states[0]),
    decreases m,
{
    if m > 0 {
        lemma_same_search(wrapper, states, picks, nodes, m - 1);
        let node = nodes[m - 1];
        assert(wrapper.next_step(&states[m - 1], Some(node), &picks[m - 1]));
        assert(wrapper.expand_step(&picks[m - 1], node, &states[m]));
    }
}

/// The steps of a search, one after the other, are a run.
proof fn lemma_steps_are_run<O: BeamSearchOracle>(
    wrapper: &ClassicGraphWithOracle<O>,
    states: Seq<OracleBeamState<O>>,
    picks: Seq<OracleBeamState<O>>,
    nodes: Seq<IndexT>,
    end: OracleBeamState<O>,
)
    requires
        states.len() == nodes.len() + 1,
        picks.len() == nodes.len(),
        forall|k: int|
            0 <= k < nodes.len() ==> {
                &&& wrapper.next_step(&states[k], Some(#[trigger] nodes[k]), &picks[k])
                &&& wrapper.expand_step(&picks[k], nodes[k], &states[k + 1])
            },
        wrapper.next_step(&states[nodes.len() as int], None, &end),
    ensures
        end.same_search(&states[0]),
        ({
            let searches = Seq::new(states.len(), |k: int| states[k]@);
            &&& is_run(
                wrapper.graph,
                &states[0].oracle,
                states[0].beam.capacity as int,
                states[0].limit,
                searches,
            )
            &&& searches.last() == end@
        }),
{
    let searches = Seq::new(states.len(), |k: int| states[k]@);
    assert forall|k: int| 0 <= k < searches.len() - 1 implies {
        &&& !stops(
            (#[trigger] searches[k]).entries,
            searches[k].visited.len(),
            states[0].limit,
        )
        &&& expands(
            wrapper.graph,
            &states[0].oracle,
            states[0].beam.capacity as int,
            picked(searches[k]),
            picked(searches[k]).visited.last(),
            searches[k + 1],
        )
    } by {
        lemma_same_search(wrapper, states, picks, nodes, k);
        let node = nodes[k];
        assert(wrapper.next_step(&states[k], Some(node), &picks[k]));
        assert(wrapper.expand_step(&picks[k], node, &states[k + 1]));
    }
    lemma_same_search(wrapper, states, picks, nodes, nodes.len() as int);
    assert(wrapper.next_step(&states[nodes.len() as int], None, &end));
}

/// Searches from the state to the end.
pub(crate) fn search_to_end<O: BeamSearchOracle>(
    graph: &ClassicGraph,
    state: &mut OracleBeamState<O>,
) -> (results: Vec<IndexT>)
    requires
        old(state).sound_for(graph),
        old(state)@.visited.len() == 0,
    ensures
        final(state).sound_for(graph),
        final(state).same_search(old(state)),
        closed(graph, final(state)@, final(state).oracle.valid(), final(state)@.visited.len() as int),
        exists|searches: Seq<OracleSearch>|
            {
                &&& #[trigger] is_run(
                    graph,
                    &old(state).oracle,
                    old(state).beam.capacity as int,
                    old(state).limit,
                    searches,
                )
                &&& searches[0] == old(state)@
                &&& searches.last() == final(state)@
            },
        results@ == first_ids(final(state)@.entries, final(state).result_count()),
{
    let wrapper = ClassicGraphWithOracle::<O>::new(graph);
    let ghost before = *state;
    assert(wrapper.ready(&before));
    wrapper.beam_search(state);
    let ghost after = *state;
    proof {
        assert(wrapper.ready(&after));
        let (states, picks, nodes) = choose|
            states: Seq<OracleBeamState<O>>,
            picks: Seq<OracleBeamState<O>>,
            nodes: Seq<IndexT>,
        |
            #![trigger states.len(), picks.len(), nodes.len()]
            {
                &&& states.len() == nodes.len() + 1
                &&& picks.len() == nodes.len()
                &&& states[0] == before
                &&& forall|k: int|
                    0 <= k < nodes.len() ==> {
                        &&& wrapper.next_step(&states[k], Some(#[trigger] nodes[k]), &picks[k])
                        &&& wrapper.expand_step(&picks[k], nodes[k], &states[k + 1])
                    }
                &&& wrapper.next_step(&states[nodes.len() as int], None, &after)
            };
        lemma_steps_are_run(&wrapper, states, picks, nodes, after);
    }
    let results = wrapper.get_results(state);
    assert(results@ == wrapper.results(&after));
    results
}

/// Whether these are nodes of the graph, all different, and at most `count`; and at
/// least one, where the beam has room for any and any is asked for.
pub open spec fn is_answer(
    graph: &ClassicGraph,
    results: Seq<IndexT>,
    count: nat,
    capacity: nat,
) -> bool {
    &&& results.len() <= count
    &&& results.no_duplicates()
    &&& forall|k: int| 0 <= k < results.len() ==> #[trigger] results[k] < graph.n
    &&& count > 0 && capacity > 0 ==> results.len() > 0
}

/// What a sound state returns is an answer.
proof fn lemma_is_answer<O: BeamSearchOracle>(graph: &ClassicGraph, state: OracleBeamState<O>)
    requires
        state.sound_for(graph),
    ensures
        is_answer(
            graph,
            first_ids(state@.entries, state.result_count()),
            state.result_count(),
            state.beam.capacity as nat,
        ),
{
    let entries = state@.entries;
    let results = first_ids(entries, state.result_count());
    assert forall|k: int| 0 <= k < results.len() implies #[trigger] results[k] < graph.n by {
        assert(results[k] == entries[k].id);
        assert(state@.seen.contains(entries[k].id));
    }
    assert forall|i: int, j: int|
        0 <= i < results.len() && 0 <= j < results.len() && i != j implies results[i]
        != results[j] by {
        if i < j {
            assert(entries[i].id != entries[j].id);
        } else {
            assert(entries[j].id != entries[i].id);
        }
    }
}

/// Searches a graph with an oracle, and returns the results with the final state.
pub fn beam_search_with_oracle<O: BeamSearchOracle>(
    graph: &ClassicGraph,
    oracle: O,
    start: IndexT,
    beam_width: usize,
    limit: Option<usize>,
    rerank_n: Option<usize>,
) -> (found: (Vec<IndexT>, OracleBeamState<O>))
    requires
        go_together(graph, &oracle),
        oracle.measures(start as int),
        start < graph.n,
    ensures
        comes_to(
            graph,
            &oracle,
            start,
            beam_length(beam_width, rerank_n) as int,
            limit,
            found.1@,
        ),
        found.0@ == first_ids(found.1@.entries, found.1.result_count()),
        is_answer(
            graph,
            found.0@,
            found.1.result_count(),
            beam_length(beam_width, rerank_n) as nat,
        ),
        found.1.sound_for(graph),
        closed(graph, found.1@, oracle.valid(), found.1@.visited.len() as int),
        found.1.oracle == oracle,
        found.1.beam_width == beam_width,
        found.1.limit == limit,
        found.1.rerank_n == rerank_n,
        found.1.max_valid_idx == oracle.valid(),
        found.1.beam.capacity == beam_length(beam_width, rerank_n),
        found.1.beam.capacity >= beam_width,
        rerank_n matches Some(n) ==> found.1.beam.capacity >= n,
        found.1.beam.capacity == beam_width || rerank_n == Some(found.1.beam.capacity),
        found.0@.len() <= (match rerank_n {
            Some(n) => n,
            None => beam_width,
        }),
        found.1.beam_snapshots@ == Seq::<Vec<IndexT>>::empty(),
{
    let mut state = OracleBeamState::new(oracle, start, beam_width, limit, rerank_n);
    let results = search_to_end(graph, &mut state);
    proof {
        lemma_is_answer(graph, state);
    }
    (results, state)
}

/// Begins a search again with another oracle, and returns the results.
pub(crate) fn beam_search_with_state<O: BeamSearchOracle>(
    graph: &ClassicGraph,
    oracle: O,
    start: IndexT,
    state: &mut OracleBeamState<O>,
) -> (results: Vec<IndexT>)
    requires
        old(state).seen.wf(),
        old(state).scanned_blocks.wf(),
        go_together(graph, &oracle),
        oracle.measures(start as int),
        start < graph.n,
    ensures
        comes_to(
            graph,
            &oracle,
            start,
            old(state).beam.capacity as int,
            old(state).limit,
            final(state)@,
        ),
        results@ == first_ids(final(state)@.entries, old(state).result_count()),
        is_answer(
            graph,
            results@,
            old(state).result_count(),
            old(state).beam.capacity as nat,
        ),
        final(state).sound_for(graph),
        closed(graph, final(state)@, oracle.valid(), final(state)@.visited.len() as int),
        final(state).oracle == oracle,
        final(state).beam_width == old(state).beam_width,
        final(state).limit == old(state).limit,
        final(state).rerank_n == old(state).rerank_n,
        final(state).max_valid_idx == old(state).max_valid_idx,
        final(state).beam.capacity == old(state).beam.capacity,
        final(state).beam_snapshots == old(state).beam_snapshots,
{
    state.reset_for_query(oracle, start);
    let results = search_to_end(graph, state);
    proof {
        lemma_is_answer(graph, *state);
    }
    results
}

} // verus!
