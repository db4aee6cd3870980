//! Beam search: visit the closest candidate that has not been visited, look at its
//! neighbors, and go on until nothing is left to visit.

use vstd::prelude::*;
use vstd::slice::slice_to_vec;

use crate::beam::{first_unvisited, ids, lemma_first_unvisited, Beam, Entry};
use crate::classic_graph::IndexT;

verus! {

/// How many entries have not been visited.
pub open spec fn count_unvisited(entries: Seq<Entry>) -> nat
    decreases entries.len(),
{
    if entries.len() == 0 {
        0
    } else {
        count_unvisited(entries.drop_last()) + (if entries.last().visited {
            0nat
        } else {
            1nat
        })
    }
}

/// The entries with the first that has not been visited marked as visited.
pub open spec fn marked(entries: Seq<Entry>) -> Seq<Entry> {
    let at = first_unvisited(entries);
    entries.update(at, (Entry { visited: true, ..entries[at] }))
}

/// Marking an entry as visited leaves one less.
proof fn lemma_count_update(entries: Seq<Entry>, at: int)
    requires
        0 <= at < entries.len(),
        !entries[at].visited,
    ensures
        count_unvisited(entries.update(at, (Entry { visited: true, ..entries[at] }))) + 1
            == count_unvisited(entries),
    decreases entries.len(),
{
    let changed = entries.update(at, (Entry { visited: true, ..entries[at] }));
    if at == entries.len() - 1 {
        assert(changed.drop_last() =~= entries.drop_last());
    } else {
        lemma_count_update(entries.drop_last(), at);
        assert(changed.drop_last() =~= entries.drop_last().update(
            at,
            (Entry { visited: true, ..entries[at] }),
        ));
    }
}

/// Marking the first entry that has not been visited leaves one less.
pub proof fn lemma_marked(entries: Seq<Entry>)
    requires
        first_unvisited(entries) < entries.len(),
    ensures
        count_unvisited(marked(entries)) + 1 == count_unvisited(entries),
{
    lemma_first_unvisited(entries);
    lemma_count_update(entries, first_unvisited(entries));
}

/// Whether a search stops: the limit on visits is reached, or all entries have been
/// visited.
pub open spec fn stops(entries: Seq<Entry>, visits: nat, limit: Option<usize>) -> bool {
    ||| limit matches Some(l) && visits >= l
    ||| first_unvisited(entries) == entries.len()
}

/// The first ids, at most `count` of them.
pub open spec fn first_ids(entries: Seq<Entry>, count: nat) -> Seq<IndexT> {
    if count < entries.len() {
        ids(entries).subrange(0, count as int)
    } else {
        ids(entries)
    }
}

/// The results of a search are the ids of the first entries, in order: as many as are
/// asked for, or all where there are fewer.
pub proof fn law_results_are_first_entries(entries: Seq<Entry>, count: nat)
    ensures
        ({
            let results = first_ids(entries, count);
            &&& results.len() <= count
            &&& results.len() <= entries.len()
            &&& results.len() < count ==> results.len() == entries.len()
            &&& forall|k: int|
                0 <= k < results.len() ==> #[trigger] results[k] == entries[k].id
        }),
{
}

/// A search goes on exactly as long as some entry has not been visited and fewer nodes
/// have been visited than the limit, if there is one, allows.
pub proof fn law_search_goes_on(entries: Seq<Entry>, visits: nat, limit: Option<usize>)
    ensures
        !stops(entries, visits, limit) == ((exists|k: int|
            0 <= k < entries.len() && !(#[trigger] entries[k]).visited) && (limit is None
            || visits < limit->0)),
{
    lemma_first_unvisited(entries);
}

/// To visit the next entry is to mark one that has not been visited, the first in
/// order; ids, distances and the other marks stay.
pub proof fn law_visit_marks_one(entries: Seq<Entry>) -> (at: int)
    requires
        exists|k: int| 0 <= k < entries.len() && !(#[trigger] entries[k]).visited,
    ensures
        0 <= at < entries.len(),
        !entries[at].visited,
        forall|k: int| 0 <= k < at ==> (#[trigger] entries[k]).visited,
        marked(entries).len() == entries.len(),
        forall|k: int|
            0 <= k < entries.len() ==> {
                &&& (#[trigger] marked(entries)[k]).id == entries[k].id
                &&& marked(entries)[k].distance == entries[k].distance
                &&& marked(entries)[k].visited == (entries[k].visited || k == at)
            },
{
    lemma_first_unvisited(entries);
    first_unvisited(entries)
}

/// A copy of recorded ids.
pub(crate) fn copy_snapshots(snapshots: &Vec<Vec<IndexT>>) -> (copy: Vec<Vec<IndexT>>)
    ensures
        copy@.len() == snapshots@.len(),
        forall|k: int| 0 <= k < snapshots@.len() ==> (#[trigger] copy@[k])@ == snapshots@[k]@,
{
    let mut copy: Vec<Vec<IndexT>> = Vec::new();
    for i in 0..snapshots.len()
        invariant
            copy@.len() == i,
            forall|k: int| 0 <= k < i ==> (#[trigger] copy@[k])@ == snapshots@[k]@,
    {
        copy.push(slice_to_vec(snapshots[i].as_slice()));
    }
    copy
}

/// The ids of the closest candidates, at most `count` of them.
pub fn closest(beam: &Beam, count: usize) -> (results: Vec<IndexT>)
    ensures
        results@ == first_ids(beam.entries@, count as nat),
{
    let mut results = beam.get_results();
    if count < results.len() {
        results.truncate(count);
    }
    results
}

/// Something that a beam search can walk over. `SearchState` is what a search keeps
/// between steps.
pub trait BeamSearchable<SearchState>: Sized {
    /// Whether a search may go on from the state.
    spec fn ready(&self, state: &SearchState) -> bool;

    /// Whether `node` has been picked in the state and is still to be expanded.
    spec fn pending(&self, state: &SearchState, node: IndexT) -> bool;

    /// How many nodes may still be seen.
    spec fn unseen(&self, state: &SearchState) -> nat;

    /// How many candidates have not been visited.
    spec fn unvisited(&self, state: &SearchState) -> nat;

    /// Whether `next_node` can lead from one state to another with this result.
    spec fn next_step(
        &self,
        before: &SearchState,
        next: Option<IndexT>,
        after: &SearchState,
    ) -> bool;

    /// Whether `expand_node` can lead from one state to another.
    spec fn expand_step(
        &self,
        before: &SearchState,
        node: IndexT,
        after: &SearchState,
    ) -> bool;

    /// What the search has found.
    spec fn results(&self, state: &SearchState) -> Seq<IndexT>;

    /// Picks the next node to expand; none where the search stops.
    fn next_node(&self, search_state: &mut SearchState) -> (next: Option<IndexT>)
        requires
            self.ready(old(search_state)),
        ensures
            self.next_step(old(search_state), next, final(search_state)),
            match next {
                Some(node) => {
                    &&& self.pending(final(search_state), node)
                    &&& self.unseen(final(search_state)) == self.unseen(old(search_state))
                    &&& self.unvisited(final(search_state)) < self.unvisited(old(search_state))
                },
                None => self.ready(final(search_state)),
            },
    ;

    /// Looks at the neighbors of a node that has been picked.
    fn expand_node(&self, state: &mut SearchState, node: IndexT)
        requires
            self.pending(old(state), node),
        ensures
            self.expand_step(old(state), node, final(state)),
            self.ready(final(state)),
            self.unseen(final(state)) <= self.unseen(old(state)),
            self.unseen(final(state)) == self.unseen(old(state)) ==> self.unvisited(final(state))
                <= self.unvisited(old(state)),
    ;

    /// What the search has found, nearest first.
    fn get_results(&self, state: &mut SearchState) -> (results: Vec<IndexT>)
        requires
            self.ready(old(state)),
        ensures
            *final(state) == *old(state),
            results@ == self.results(old(state)),
    ;

    /// Picks and expands nodes until the search stops: from the state at the start,
    /// each picked node leads to the next state, until none is picked.
    fn beam_search(&self, state: &mut SearchState)
        requires
            self.ready(old(state)),
        ensures
            self.ready(final(state)),
            exists|
                states: Seq<SearchState>,
                picked: Seq<SearchState>,
                nodes: Seq<IndexT>,
            |
                #![trigger states.len(), picked.len(), nodes.len()]
                {
                    &&& states.len() == nodes.len() + 1
                    &&& picked.len() == nodes.len()
                    &&& states[0] == *old(state)
                    &&& forall|k: int|
                        0 <= k < nodes.len() ==> {
                            &&& self.next_step(&states[k], Some(#[trigger] nodes[k]), &picked[k])
                            &&& self.expand_step(&picked[k], nodes[k], &states[k + 1])
                        }
                    &&& self.next_step(&states[nodes.len() as int], None, final(state))
                },
    {
        let ghost mut states: Seq<SearchState> = seq![*state];
        let ghost mut picked: Seq<SearchState> = Seq::empty();
        let ghost mut nodes: Seq<IndexT> = Seq::empty();
        loop
            invariant
                self.ready(state),
                states.len() == nodes.len() + 1,
                picked.len() == nodes.len(),
                states[0] == *old(state),
                states[nodes.len() as int] == *state,
                forall|k: int|
                    0 <= k < nodes.len() ==> {
                        &&& self.next_step(&states[k], Some(#[trigger] nodes[k]), &picked[k])
                        &&& self.expand_step(&picked[k], nodes[k], &states[k + 1])
                    },
            decreases self.unseen(state), self.unvisited(state),
        {
            match self.next_node(state) {
                Some(node) => {
                    let ghost mid = *state;
                    self.expand_node(state, node);
                    proof {
                        let before = nodes;
                        picked = picked.push(mid);
                        states = states.push(*state);
                        nodes = nodes.push(node);
                        assert forall|k: int| 0 <= k < nodes.len() implies {
                            &&& self.next_step(&states[k], Some(#[trigger] nodes[k]), &picked[k])
                            &&& self.expand_step(&picked[k], nodes[k], &states[k + 1])
                        } by {
                            if k < before.len() {
                                assert(nodes[k] == before[k]);
                            }
                        }
                    }
                },
                None => {
                    assert(states.len() == nodes.len() + 1 && picked.len() == nodes.len());
                    return ;
                },
            }
        }
    }
}

} // verus!
