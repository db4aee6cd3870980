//! What holds of searches as a whole.

use vstd::prelude::*;
use vstd::set_lib::lemma_len_subset;

use crate::beam::{
    first_unvisited, has_its_place, in_line, inserted, inserted_all, is_sorted, is_taken_from,
    law_beam_is_fair, law_candidates_compete, law_next_is_closest,
    lemma_first_unvisited, lemma_inserted, lemma_inserted_all, lemma_place_kept, Entry,
};
use crate::beam_search::{
    first_ids, law_results_are_first_entries, law_search_goes_on, marked, stops, BeamSearchable,
};
use crate::beam_search_oracle::{below_cutoff, is_found, BeamSearchOracle, ThoroughOracle};
use crate::classic_graph::{ClassicGraph, IndexT};
use crate::classic_search::ClassicBeamState;
use crate::codes::{code_nibble, lemma_code_nibble};
use crate::distance::Distance;
use crate::distance_oracle::DistanceOracle;
use crate::fast_scan_oracle::{
    admitted, admitted_all, are_blocks_between, are_blocks_of, cutoff_or_infinity, filled,
    law_blocks_find_vectors, law_search_begins_with_block, lemma_admitted_count, lemma_block_scan,
    RabitqFastScanOracle,
};
use crate::oracle_search::{
    beam_length, begins, closed, comes_to, expands, is_run, picked, ClassicGraphWithOracle,
    OracleBeamState, OracleSearch,
};
use crate::rabitq_fast_scan::{
    highest_level, law_quantized_scans_fit, RabitqFastScan, VectorFactors,
};
use crate::rabitq_fast_scan_kernels::{lemma_scan_sum_grows, packed_nibble, scan_sum};
use crate::rabitq_search::asked_for;
use crate::scalar_oracle::{
    law_scalar_begins_with_start, law_scalar_finds_neighbors, numbers, RabitqScalarOracle,
};

verus! {

/// With a deterministic oracle, a node leads to one search only.
proof fn lemma_expands_deterministic<O: BeamSearchOracle>(
    graph: &ClassicGraph,
    oracle: &O,
    capacity: int,
    before: OracleSearch,
    node: IndexT,
    one: OracleSearch,
    other: OracleSearch,
)
    requires
        oracle.is_deterministic(),
        expands(graph, oracle, capacity, before, node, one),
        expands(graph, oracle, capacity, before, node, other),
    ensures
        one == other,
{
    let neighbors = graph.neighborhood(node);
    let f1 = choose|found: Seq<(IndexT, Distance)>|
        {
            &&& #[trigger] oracle.neighbors_step(
                neighbors,
                None,
                before.seen,
                before.scanned,
                one.seen,
                one.scanned,
                found,
                one.comparisons - before.comparisons,
            )
            &&& one.entries == inserted_all(before.entries, found, capacity)
        };
    let f2 = choose|found: Seq<(IndexT, Distance)>|
        {
            &&& #[trigger] oracle.neighbors_step(
                neighbors,
                None,
                before.seen,
                before.scanned,
                other.seen,
                other.scanned,
                found,
                other.comparisons - before.comparisons,
            )
            &&& other.entries == inserted_all(before.entries, found, capacity)
        };
    oracle.lemma_neighbors_deterministic(
        neighbors,
        None,
        before.seen,
        before.scanned,
        (one.seen, one.scanned, f1, one.comparisons - before.comparisons),
        (other.seen, other.scanned, f2, other.comparisons - before.comparisons),
    );
}

/// With a deterministic oracle, a search begins in one way only: a state that is
/// reset for a query holds what a new state with the same oracle, start and capacity
/// holds, and nothing of the query before.
pub proof fn law_reset_is_like_new<O: BeamSearchOracle>(
    oracle: &O,
    start: IndexT,
    capacity: int,
    one: OracleSearch,
    other: OracleSearch,
)
    requires
        oracle.is_deterministic(),
        begins(oracle, start, capacity, one),
        begins(oracle, start, capacity, other),
    ensures
        one == other,
{
    let only = Set::<u32>::empty().insert(start);
    let none = Set::<u32>::empty();
    let (i1, a1) = choose|initial: Distance, additional: Seq<(IndexT, Distance)>|
        {
            &&& #[trigger] oracle.init_step(
                start,
                only,
                none,
                one.seen,
                one.scanned,
                initial,
                additional,
                one.comparisons,
            )
            &&& one.entries == inserted_all(
                inserted(Seq::empty(), (start, initial), capacity),
                additional,
                capacity,
            )
        };
    let (i2, a2) = choose|initial: Distance, additional: Seq<(IndexT, Distance)>|
        {
            &&& #[trigger] oracle.init_step(
                start,
                only,
                none,
                other.seen,
                other.scanned,
                initial,
                additional,
                other.comparisons,
            )
            &&& other.entries == inserted_all(
                inserted(Seq::empty(), (start, initial), capacity),
                additional,
                capacity,
            )
        };
    oracle.lemma_init_deterministic(
        start,
        only,
        none,
        (one.seen, one.scanned, i1, a1, one.comparisons),
        (other.seen, other.scanned, i2, a2, other.comparisons),
    );
}

/// With a deterministic oracle, two runs from the same beginning go the same way for
/// as long as both go on, whatever their limits.
proof fn lemma_runs_agree<O: BeamSearchOracle>(
    graph: &ClassicGraph,
    oracle: &O,
    capacity: int,
    limit: Option<usize>,
    other_limit: Option<usize>,
    one: Seq<OracleSearch>,
    other: Seq<OracleSearch>,
    k: int,
)
    requires
        oracle.is_deterministic(),
        is_run(graph, oracle, capacity, limit, one),
        is_run(graph, oracle, capacity, other_limit, other),
        one[0] == other[0],
        0 <= k < one.len(),
        k < other.len(),
    ensures
        one[k] == other[k],
    decreases k,
{
    if k > 0 {
        lemma_runs_agree(graph, oracle, capacity, limit, other_limit, one, other, k - 1);
        let before = picked(one[k - 1]);
        assert(one[k] == one[k - 1 + 1] && other[k] == other[k - 1 + 1]);
        assert(picked(other[k - 1]) == before);
        lemma_expands_deterministic(
            graph,
            oracle,
            capacity,
            before,
            before.visited.last(),
            one[k],
            other[k],
        );
    }
}

/// Each search of a run has visited one node more than the one before it.
proof fn lemma_run_visits<O: BeamSearchOracle>(
    graph: &ClassicGraph,
    oracle: &O,
    capacity: int,
    limit: Option<usize>,
    searches: Seq<OracleSearch>,
    k: int,
)
    requires
        is_run(graph, oracle, capacity, limit, searches),
        searches[0].visited.len() == 0,
        0 <= k < searches.len(),
    ensures
        searches[k].visited.len() == k,
        limit matches Some(l) ==> k <= l,
        k > 0 ==> searches[k - 1].visited == searches[k].visited.drop_last(),
    decreases k,
{
    if k > 0 {
        lemma_run_visits(graph, oracle, capacity, limit, searches, k - 1);
        assert(searches[k - 1 + 1] == searches[k]);
        assert(searches[k - 1].visited =~= picked(searches[k - 1]).visited.drop_last());
    }
}

/// Later searches of a run have scanned what earlier ones have, and their visits go
/// on from those.
proof fn lemma_run_grows<O: BeamSearchOracle>(
    graph: &ClassicGraph,
    oracle: &O,
    capacity: int,
    limit: Option<usize>,
    searches: Seq<OracleSearch>,
    j: int,
    k: int,
)
    requires
        is_run(graph, oracle, capacity, limit, searches),
        0 <= j <= k < searches.len(),
    ensures
        searches[j].scanned.subset_of(searches[k].scanned),
        searches[j].scanned.finite() ==> searches[k].scanned.finite(),
        searches[j].visited.is_prefix_of(searches[k].visited),
    decreases k - j,
{
    if j < k {
        lemma_run_grows(graph, oracle, capacity, limit, searches, j, k - 1);
        let before = picked(searches[k - 1]);
        let after = searches[k];
        assert(searches[k - 1 + 1] == after);
        let found = choose|found: Seq<(IndexT, Distance)>|
            {
                &&& #[trigger] oracle.neighbors_step(
                    graph.neighborhood(before.visited.last()),
                    None,
                    before.seen,
                    before.scanned,
                    after.seen,
                    after.scanned,
                    found,
                    after.comparisons - before.comparisons,
                )
                &&& after.entries == inserted_all(before.entries, found, capacity)
            };
        oracle.lemma_scanned_grows(
            graph.neighborhood(before.visited.last()),
            None,
            before.seen,
            before.scanned,
            (after.seen, after.scanned, found, after.comparisons - before.comparisons),
        );
        assert(searches[j].visited =~= searches[k].visited.subrange(
            0,
            searches[j].visited.len() as int,
        )) by {
            assert(searches[j].visited =~= searches[k - 1].visited.subrange(
                0,
                searches[j].visited.len() as int,
            ));
        }
    }
}

/// Searching is deterministic: where the oracle gives equal answers to equal
/// questions, two searches with the same graph, oracle, start, beam and limit come
/// to the same end, and so return the same results and counts.
pub proof fn law_search_is_deterministic<O: BeamSearchOracle>(
    graph: &ClassicGraph,
    oracle: &O,
    start: IndexT,
    capacity: int,
    limit: Option<usize>,
    one: OracleSearch,
    other: OracleSearch,
)
    requires
        oracle.is_deterministic(),
        comes_to(graph, oracle, start, capacity, limit, one),
        comes_to(graph, oracle, start, capacity, limit, other),
    ensures
        one == other,
{
    let s1 = choose|searches: Seq<OracleSearch>|
        {
            &&& #[trigger] is_run(graph, oracle, capacity, limit, searches)
            &&& begins(oracle, start, capacity, searches[0])
            &&& one == searches.last()
        };
    let s2 = choose|searches: Seq<OracleSearch>|
        {
            &&& #[trigger] is_run(graph, oracle, capacity, limit, searches)
            &&& begins(oracle, start, capacity, searches[0])
            &&& other == searches.last()
        };
    law_reset_is_like_new(oracle, start, capacity, s1[0], s2[0]);
    let k: int = if s1.len() <= s2.len() {
        s1.len() - 1
    } else {
        s2.len() - 1
    };
    lemma_runs_agree(graph, oracle, capacity, limit, limit, s1, s2, k);
    if s1.len() < s2.len() {
        assert(!stops(s2[k].entries, s2[k].visited.len(), limit));
    } else if s2.len() < s1.len() {
        assert(!stops(s1[k].entries, s1[k].visited.len(), limit));
    }
}

/// A limit only cuts a search short: with a deterministic oracle, a search with a
/// limit visits the first of the nodes that the search without a limit visits, and
/// scans no block that the other does not, so no more blocks.
pub proof fn law_limit_cuts_short<O: BeamSearchOracle>(
    graph: &ClassicGraph,
    oracle: &O,
    start: IndexT,
    capacity: int,
    limit: usize,
    limited: OracleSearch,
    full: OracleSearch,
)
    requires
        oracle.is_deterministic(),
        comes_to(graph, oracle, start, capacity, Some(limit), limited),
        comes_to(graph, oracle, start, capacity, None, full),
    ensures
        limited.visited.is_prefix_of(full.visited),
        limited.scanned.subset_of(full.scanned),
        full.scanned.finite() ==> limited.scanned.len() <= full.scanned.len(),
{
    let s1 = choose|searches: Seq<OracleSearch>|
        {
            &&& #[trigger] is_run(graph, oracle, capacity, Some(limit), searches)
            &&& begins(oracle, start, capacity, searches[0])
            &&& limited == searches.last()
        };
    let s2 = choose|searches: Seq<OracleSearch>|
        {
            &&& #[trigger] is_run(graph, oracle, capacity, None::<usize>, searches)
            &&& begins(oracle, start, capacity, searches[0])
            &&& full == searches.last()
        };
    law_reset_is_like_new(oracle, start, capacity, s1[0], s2[0]);
    let k: int = if s1.len() <= s2.len() {
        s1.len() - 1
    } else {
        s2.len() - 1
    };
    lemma_runs_agree(graph, oracle, capacity, Some(limit), None, s1, s2, k);
    if s2.len() < s1.len() {
        assert(!stops(s1[k].entries, s1[k].visited.len(), Some(limit)));
    }
    lemma_run_grows(graph, oracle, capacity, None, s2, k, s2.len() - 1);
    if full.scanned.finite() {
        lemma_len_subset(limited.scanned, full.scanned);
    }
}

/// The beam stays ordered and within its capacity throughout a run, and never gets
/// shorter.
proof fn lemma_run_beam<O: BeamSearchOracle>(
    graph: &ClassicGraph,
    oracle: &O,
    start: IndexT,
    capacity: int,
    limit: Option<usize>,
    searches: Seq<OracleSearch>,
    k: int,
)
    requires
        0 <= capacity,
        begins(oracle, start, capacity, searches[0]),
        is_run(graph, oracle, capacity, limit, searches),
        0 <= k < searches.len(),
    ensures
        is_sorted(searches[k].entries),
        searches[k].entries.len() <= capacity,
        capacity > 0 ==> searches[k].entries.len() > 0,
        searches[0].entries.len() <= searches[k].entries.len(),
    decreases k,
{
    if k == 0 {
        let search = searches[0];
        let (initial, additional) = choose|
            initial: Distance,
            additional: Seq<(IndexT, Distance)>,
        |
            {
                &&& #[trigger] oracle.init_step(
                    start,
                    Set::<u32>::empty().insert(start),
                    Set::<u32>::empty(),
                    search.seen,
                    search.scanned,
                    initial,
                    additional,
                    search.comparisons,
                )
                &&& search.entries == inserted_all(
                    inserted(Seq::empty(), (start, initial), capacity),
                    additional,
                    capacity,
                )
            };
        lemma_inserted(Seq::empty(), (start, initial), capacity);
        lemma_inserted_all(
            inserted(Seq::empty(), (start, initial), capacity),
            additional,
            capacity,
        );
    } else {
        lemma_run_beam(graph, oracle, start, capacity, limit, searches, k - 1);
        let before = picked(searches[k - 1]);
        let after = searches[k];
        assert(searches[k - 1 + 1] == after);
        lemma_first_unvisited(searches[k - 1].entries);
        assert forall|i: int, j: int| 0 <= i < j < before.entries.len() implies #[trigger] before.entries[i].distance.place()
            <= #[trigger] before.entries[j].distance.place() by {
            assert(searches[k - 1].entries[i].distance.place()
                <= searches[k - 1].entries[j].distance.place());
        }
        let found = choose|found: Seq<(IndexT, Distance)>|
            {
                &&& #[trigger] oracle.neighbors_step(
                    graph.neighborhood(before.visited.last()),
                    None,
                    before.seen,
                    before.scanned,
                    after.seen,
                    after.scanned,
                    found,
                    after.comparisons - before.comparisons,
                )
                &&& after.entries == inserted_all(before.entries, found, capacity)
            };
        lemma_inserted_all(before.entries, found, capacity);
    }
}

/// A search ends with a beam ordered by distance, no longer than its capacity, and
/// with something in it.
pub proof fn law_beam_is_ordered<O: BeamSearchOracle>(
    graph: &ClassicGraph,
    oracle: &O,
    start: IndexT,
    capacity: int,
    limit: Option<usize>,
    end: OracleSearch,
)
    requires
        0 <= capacity,
        comes_to(graph, oracle, start, capacity, limit, end),
    ensures
        is_sorted(end.entries),
        end.entries.len() <= capacity,
        capacity > 0 ==> end.entries.len() > 0,
{
    let searches = choose|searches: Seq<OracleSearch>|
        {
            &&& #[trigger] is_run(graph, oracle, capacity, limit, searches)
            &&& begins(oracle, start, capacity, searches[0])
            &&& end == searches.last()
        };
    lemma_run_beam(graph, oracle, start, capacity, limit, searches, searches.len() - 1);
}

/// A search with a limit visits no more nodes than that.
pub proof fn law_limit_is_kept<O: BeamSearchOracle>(
    graph: &ClassicGraph,
    oracle: &O,
    start: IndexT,
    capacity: int,
    limit: usize,
    end: OracleSearch,
)
    requires
        comes_to(graph, oracle, start, capacity, Some(limit), end),
    ensures
        end.visited.len() <= limit,
{
    let searches = choose|searches: Seq<OracleSearch>|
        {
            &&& #[trigger] is_run(graph, oracle, capacity, Some(limit), searches)
            &&& begins(oracle, start, capacity, searches[0])
            &&& end == searches.last()
        };
    lemma_run_visits(graph, oracle, capacity, Some(limit), searches, searches.len() - 1);
}

/// A search without a limit ends only when all candidates in the beam have been
/// visited.
pub proof fn law_search_is_exhaustive<O: BeamSearchOracle>(
    graph: &ClassicGraph,
    oracle: &O,
    start: IndexT,
    capacity: int,
    end: OracleSearch,
)
    requires
        comes_to(graph, oracle, start, capacity, None, end),
    ensures
        forall|k: int| 0 <= k < end.entries.len() ==> (#[trigger] end.entries[k]).visited,
{
    lemma_first_unvisited(end.entries);
}

/// After a search without a limit, every neighbor of every result has been seen:
/// nothing next to the results was passed over unseen.
pub proof fn law_results_are_surrounded<O: BeamSearchOracle>(
    graph: &ClassicGraph,
    state: &OracleBeamState<O>,
    start: IndexT,
    k: int,
    l: int,
)
    requires
        state.sound_for(graph),
        closed(graph, state@, state.oracle.valid(), state@.visited.len() as int),
        comes_to(graph, &state.oracle, start, state.beam.capacity as int, None, state@),
        0 <= k < state@.entries.len(),
        0 <= l < graph.neighborhood(state@.entries[k].id).len(),
    ensures
        ({
            let neighbor = graph.neighborhood(state@.entries[k].id)[l];
            neighbor < state.oracle.valid() ==> state@.seen.contains(neighbor)
        }),
{
    law_search_is_exhaustive(graph, &state.oracle, start, state.beam.capacity as int, state@);
    let id = state@.entries[k].id;
    assert(state@.visited.contains(id));
    let j = state@.visited.index_of(id);
    assert(state@.visited[j] == id);
    let neighbor = graph.neighborhood(state@.visited[j])[l];
}

/// A search that scans blocks scans the block of its start, so at least one.
pub proof fn law_start_block_is_scanned<
    'a,
    const B: usize,
    F: Fn(VectorFactors, u16) -> Distance,
>(
    graph: &ClassicGraph,
    oracle: &RabitqFastScanOracle<'a, B, F>,
    start: IndexT,
    capacity: int,
    limit: Option<usize>,
    end: OracleSearch,
)
    requires
        comes_to(graph, oracle, start, capacity, limit, end),
    ensures
        end.scanned.contains((start / 32) as u32),
        end.scanned.finite(),
        end.scanned.len() >= 1,
{
    let searches = choose|searches: Seq<OracleSearch>|
        {
            &&& #[trigger] is_run(graph, oracle, capacity, limit, searches)
            &&& begins(oracle, start, capacity, searches[0])
            &&& end == searches.last()
        };
    lemma_run_grows(graph, oracle, capacity, limit, searches, 0, searches.len() - 1);
    let block = (start / 32) as u32;
    assert(searches[0].scanned == Set::<u32>::empty().insert(block));
    lemma_len_subset(Set::<u32>::empty().insert(block), end.scanned);
}

/// A search that scans blocks returns at least as many vectors as the block of its
/// start holds, as far as the beam has room: all of them are candidates.
pub proof fn law_block_of_start_is_returned<
    'a,
    const B: usize,
    F: Fn(VectorFactors, u16) -> Distance,
>(
    graph: &ClassicGraph,
    oracle: &RabitqFastScanOracle<'a, B, F>,
    start: IndexT,
    capacity: int,
    limit: Option<usize>,
    end: OracleSearch,
)
    requires
        0 <= capacity,
        comes_to(graph, oracle, start, capacity, limit, end),
    ensures
        ({
            let held = filled(start as int / 32, oracle.fastscan.n as int);
            end.entries.len() >= (if held < capacity {
                held
            } else {
                capacity
            })
        }),
{
    let searches = choose|searches: Seq<OracleSearch>|
        {
            &&& #[trigger] is_run(graph, oracle, capacity, limit, searches)
            &&& begins(oracle, start, capacity, searches[0])
            &&& end == searches.last()
        };
    lemma_run_beam(graph, oracle, start, capacity, limit, searches, searches.len() - 1);
    let search = searches[0];
    let only = Set::<u32>::empty().insert(start);
    let (initial, additional) = choose|initial: Distance, additional: Seq<(IndexT, Distance)>|
        {
            &&& #[trigger] oracle.init_step(
                start,
                only,
                Set::<u32>::empty(),
                search.seen,
                search.scanned,
                initial,
                additional,
                search.comparisons,
            )
            &&& search.entries == inserted_all(
                inserted(Seq::empty(), (start, initial), capacity),
                additional,
                capacity,
            )
        };
    let out = choose|out: Seq<(usize, Distance)>|
        {
            &&& #[trigger] oracle.block_distances(start as int / 32, out)
            &&& initial == out[start as int % 32].1
            &&& admitted(
                out,
                Some(oracle.fastscan.n),
                Some(start as usize),
                None,
                only,
                32,
            ) == (additional, search.seen)
        };
    lemma_admitted_count(out, start, oracle.fastscan.n, 32);
    lemma_inserted(Seq::empty(), (start, initial), capacity);
    lemma_inserted_all(inserted(Seq::empty(), (start, initial), capacity), additional, capacity);
}

/// Without padding, all vectors of a block are below the number of vectors.
proof fn lemma_no_padding(
    out: Seq<(usize, Distance)>,
    block: int,
    n: usize,
    cutoff: Option<Distance>,
    seen: Set<u32>,
    m: int,
)
    requires
        0 <= m <= 32,
        0 <= block,
        32 * block + 32 <= n,
        out.len() == 32,
        forall|lane: int| 0 <= lane < 32 ==> (#[trigger] out[lane]).0 == 32 * block + lane,
    ensures
        admitted(out, None, None, cutoff, seen, m) == admitted(
            out,
            Some(n),
            None,
            cutoff,
            seen,
            m,
        ),
    decreases m,
{
    if m > 0 {
        lemma_no_padding(out, block, n, cutoff, seen, m - 1);
        assert(out[m - 1].0 == 32 * block + (m - 1));
    }
}

/// As `lemma_no_padding`, for several blocks.
proof fn lemma_no_padding_all(
    outs: Seq<Seq<(usize, Distance)>>,
    blocks: Seq<u32>,
    n: usize,
    cutoff: Option<Distance>,
    seen: Set<u32>,
    m: int,
)
    requires
        0 <= m <= outs.len(),
        outs.len() == blocks.len(),
        forall|i: int| 0 <= i < blocks.len() ==> 32 * (#[trigger] blocks[i]) + 32 <= n,
        forall|i: int| 0 <= i < outs.len() ==> (#[trigger] outs[i]).len() == 32,
        forall|i: int, lane: int|
            0 <= i < outs.len() && 0 <= lane < 32 ==> (#[trigger] outs[i][lane]).0 == 32 * blocks[i]
                + lane,
    ensures
        admitted_all(outs, None, cutoff, seen, m) == admitted_all(outs, Some(n), cutoff, seen, m),
    decreases m,
{
    if m > 0 {
        lemma_no_padding_all(outs, blocks, n, cutoff, seen, m - 1);
        let now = admitted_all(outs, None, cutoff, seen, m - 1).1;
        lemma_no_padding(outs[m - 1], blocks[m - 1] as int, n, cutoff, now, 32);
    }
}

/// The blocks that a range touches are the blocks of its numbers.
proof fn lemma_blocks_of_range(blocks: Seq<u32>, start: IndexT, end: IndexT, scanned: Set<u32>)
    requires
        start < end,
    ensures
        are_blocks_between(blocks, start as int / 32, (end - 1) / 32, scanned) == are_blocks_of(
            blocks,
            numbers(start, end),
            scanned,
        ),
{
    let all = numbers(start, end);
    assert forall|b: u32|
        #![trigger scanned.contains(b)]
        (start as int / 32 <= b <= (end - 1) / 32) == (exists|k: int|
            0 <= k < all.len() && #[trigger] all[k] / 32 == b) by {
        if start as int / 32 <= b <= (end - 1) / 32 {
            let v: int = if 32 * b < start {
                start as int
            } else {
                32 * b
            };
            assert(all[v - start] / 32 == b);
        }
    }
}

/// Scanning without a limit is scanning up to the number of vectors, where no vector
/// of the blocks is padding.
proof fn lemma_scan_without_padding<'a, const B: usize, F: Fn(VectorFactors, u16) -> Distance>(
    oracle: &RabitqFastScanOracle<'a, B, F>,
    blocks: Seq<u32>,
    cutoff: Option<Distance>,
    seen: Set<u32>,
    scanned: Set<u32>,
    after: (Set<u32>, Set<u32>, Seq<(IndexT, Distance)>, int),
)
    requires
        forall|i: int|
            0 <= i < blocks.len() ==> 32 * (#[trigger] blocks[i]) + 32 <= oracle.fastscan.n,
    ensures
        oracle.scan_step(
            blocks,
            None,
            cutoff,
            seen,
            scanned,
            after.0,
            after.1,
            after.2,
            after.3,
        ) == oracle.scan_step(
            blocks,
            Some(oracle.fastscan.n),
            cutoff,
            seen,
            scanned,
            after.0,
            after.1,
            after.2,
            after.3,
        ),
{
    let n = oracle.fastscan.n;
    let cut = Some(cutoff_or_infinity(cutoff));
    assert forall|outs: Seq<Seq<(usize, Distance)>>|
        outs.len() == blocks.len() && (forall|i: int|
            0 <= i < outs.len() ==> oracle.block_distances(
                blocks[i] as int,
                #[trigger] outs[i],
            )) implies #[trigger] admitted_all(outs, None, cut, seen, outs.len() as int)
        == admitted_all(outs, Some(n), cut, seen, outs.len() as int) by {
        assert forall|i: int, lane: int| 0 <= i < outs.len() && 0 <= lane < 32 implies (
        #[trigger] outs[i][lane]).0 == 32 * blocks[i] + lane by {
            assert(oracle.block_distances(blocks[i] as int, outs[i]));
        }
        lemma_no_padding_all(outs, blocks, n, cut, seen, outs.len() as int);
    }
    assert forall|outs: Seq<Seq<(usize, Distance)>>|
        outs.len() == blocks.len() && (forall|i: int|
            0 <= i < outs.len() ==> oracle.block_distances(
                blocks[i] as int,
                #[trigger] outs[i],
            )) implies #[trigger] admitted_all(outs, Some(n), cut, seen, outs.len() as int)
        == admitted_all(outs, None, cut, seen, outs.len() as int) by {
        assert(admitted_all(outs, None, cut, seen, outs.len() as int) == admitted_all(
            outs,
            Some(n),
            cut,
            seen,
            outs.len() as int,
        ));
    }
}

/// For the oracle that scans blocks, where no vector in the blocks is padding, to
/// process a range is to process its numbers as neighbors: what can come of one can
/// come of the other. Of an empty range nothing comes.
pub proof fn law_range_is_its_numbers<
    'a,
    const B: usize,
    F: Fn(VectorFactors, u16) -> Distance,
>(
    oracle: &RabitqFastScanOracle<'a, B, F>,
    start: IndexT,
    end: IndexT,
    cutoff: Option<Distance>,
    seen: Set<u32>,
    scanned: Set<u32>,
    after: (Set<u32>, Set<u32>, Seq<(IndexT, Distance)>, int),
)
    requires
        oracle.fastscan.n == 32 * oracle.fastscan.n_blocks,
        end <= oracle.fastscan.n,
    ensures
        oracle.range_step(
            start,
            end,
            cutoff,
            seen,
            scanned,
            after.0,
            after.1,
            after.2,
            after.3,
        ) == oracle.neighbors_step(
            numbers(start, end),
            cutoff,
            seen,
            scanned,
            after.0,
            after.1,
            after.2,
            after.3,
        ),
        start >= end ==> oracle.range_step(
            start,
            end,
            cutoff,
            seen,
            scanned,
            after.0,
            after.1,
            after.2,
            after.3,
        ) == (after == (seen, scanned, Seq::<(IndexT, Distance)>::empty(), 0int)),
{
    let neighbors = numbers(start, end);
    let n = oracle.fastscan.n;
    if start >= end {
        let none = Seq::<u32>::empty();
        assert(are_blocks_of(none, neighbors, scanned));
        assert forall|blocks: Seq<u32>| #[trigger] are_blocks_of(
            blocks,
            neighbors,
            scanned,
        ) implies blocks == none by {
            if blocks.len() > 0 {
                assert(blocks.contains(blocks[0]));
            }
            assert(blocks =~= none);
        }
        assert(scanned.union(none.to_set()) =~= scanned);
        let outs = Seq::<Seq<(usize, Distance)>>::empty();
        assert(admitted_all(outs, Some(n), Some(cutoff_or_infinity(cutoff)), seen, 0) == (
            Seq::<(IndexT, Distance)>::empty(),
            seen,
        ));
        assert(outs.len() == 0);
        assert(oracle.neighbors_step(
            neighbors,
            cutoff,
            seen,
            scanned,
            after.0,
            after.1,
            after.2,
            after.3,
        ) == oracle.scan_step(
            none,
            Some(n),
            cutoff,
            seen,
            scanned,
            after.0,
            after.1,
            after.2,
            after.3,
        ));
    } else {
        assert forall|blocks: Seq<u32>| #[trigger] are_blocks_of(
            blocks,
            neighbors,
            scanned,
        ) implies are_blocks_between(blocks, start as int / 32, (end - 1) / 32, scanned)
            && oracle.scan_step(
            blocks,
            None,
            cutoff,
            seen,
            scanned,
            after.0,
            after.1,
            after.2,
            after.3,
        ) == oracle.scan_step(
            blocks,
            Some(n),
            cutoff,
            seen,
            scanned,
            after.0,
            after.1,
            after.2,
            after.3,
        ) by {
            lemma_blocks_of_range(blocks, start, end, scanned);
            assert forall|i: int| 0 <= i < blocks.len() implies 32 * (#[trigger] blocks[i]) + 32
                <= n by {
                assert(blocks.contains(blocks[i]));
            }
            lemma_scan_without_padding(oracle, blocks, cutoff, seen, scanned, after);
        }
        assert forall|blocks: Seq<u32>| #[trigger] are_blocks_between(
            blocks,
            start as int / 32,
            (end - 1) / 32,
            scanned,
        ) implies are_blocks_of(blocks, neighbors, scanned) by {
            lemma_blocks_of_range(blocks, start, end, scanned);
        }
    }
}

/// With tables quantized to the highest level, the scan results of a block are what
/// the reference scan of the block's codes gives: for each vector the sum of the
/// table entries that its nibbles select, with nothing wrapped around.
pub proof fn law_raw_is_reference_scan<
    'a,
    const B: usize,
    F: Fn(VectorFactors, u16) -> Distance,
>(oracle: &RabitqFastScanOracle<'a, B, F>, block: int, lane: int)
    requires
        B >= 4,
        oracle.fastscan.wf(),
        oracle.luts@.len() == (B as nat / 4) * 16,
        forall|i: int|
            0 <= i < oracle.luts@.len() ==> #[trigger] oracle.luts@[i] <= highest_level(
                B as int / 4,
            ),
        0 <= block < oracle.fastscan.n_blocks,
        0 <= lane < 32,
    ensures
        ({
            let size = B as int / 8 * 32;
            let codes = oracle.fastscan.packed_codes@.subrange(
                block * size,
                (block + 1) * size,
            );
            let sum = scan_sum(codes, oracle.luts@, B as int / 8, lane, 2 * (B as int / 8));
            &&& codes.len() == size
            &&& sum <= u16::MAX
            &&& oracle.raw_ip(32 * block + lane) == sum
            &&& sum == scan_sum(
                oracle.fastscan.packed_codes@,
                oracle.luts@,
                B as int / 8,
                32 * block + lane,
                2 * (B as int / 8),
            )
        }),
{
    let cols = B as int / 8;
    let packed = oracle.fastscan.packed_codes@;
    let size = cols * 32;
    assert(0 <= block * size && block * size + size <= packed.len() && (block + 1) * size == block
        * size + size && block * size == block * cols * 32) by (nonlinear_arith)
        requires
            0 <= block,
            0 <= cols,
            size == cols * 32,
            block + 1 <= oracle.fastscan.n_blocks,
            packed.len() == oracle.fastscan.n_blocks * (cols * 32),
    ;
    let codes = packed.subrange(block * size, (block + 1) * size);
    lemma_block_scan(packed, codes, oracle.luts@, cols, block, lane, 2 * cols);
    law_quantized_scans_fit(codes, oracle.luts@, cols, B as int / 4, lane, 2 * cols);
    lemma_scan_sum_grows(codes, oracle.luts@, cols, lane, 0, 2 * cols);
}

/// Where a block has been scanned, all its vectors but padding have been considered.
pub proof fn law_scanned_vectors_are_seen<
    'a,
    const B: usize,
    F: Fn(VectorFactors, u16) -> Distance,
>(state: &OracleBeamState<RabitqFastScanOracle<'a, B, F>>, v: u32)
    requires
        state.sound(),
        state@.scanned.contains((v / 32) as u32),
        v < state.oracle.fastscan.n,
    ensures
        state@.seen.contains(v),
{
}

/// The oracle that scans blocks computes 32 distances for each block scanned.
pub proof fn law_blocks_cost_distances<
    'a,
    const B: usize,
    F: Fn(VectorFactors, u16) -> Distance,
>(state: &OracleBeamState<RabitqFastScanOracle<'a, B, F>>)
    requires
        state.sound(),
    ensures
        state@.comparisons == 32 * state@.scanned.len(),
{
}

/// The sum of the table entries that the nibbles of a vector select.
pub open spec fn nibble_sum<const B: usize>(
    fastscan: &RabitqFastScan<B>,
    luts: Seq<u8>,
    v: int,
    n: int,
) -> int
    decreases n,
{
    if n <= 0 {
        0
    } else {
        nibble_sum(fastscan, luts, v, n - 1) + luts[(n - 1) * 16 + code_nibble(
            fastscan.binary_codes@,
            B as int / 64,
            v,
            n - 1,
        )]
    }
}

/// The oracle that scans blocks goes by the nibbles that the oracle for single
/// vectors reads: its scan result is the sum, modulo `2^16`, of the table entries
/// that those nibbles select.
pub proof fn law_oracles_read_same_nibbles<
    'a,
    const B: usize,
    F: Fn(VectorFactors, u16) -> Distance,
>(oracle: &RabitqFastScanOracle<'a, B, F>, v: int)
    requires
        oracle.fastscan.consistent(),
        0 <= v < 32 * oracle.fastscan.n_blocks,
    ensures
        oracle.raw_ip(v) == nibble_sum(oracle.fastscan, oracle.luts@, v, B as int / 4) % 65536,
{
    lemma_scan_is_nibble_sum(oracle.fastscan, oracle.luts@, v, 2 * (B as int / 8));
}

/// What a packed code holds are the nibbles of the vectors.
proof fn lemma_scan_is_nibble_sum<const B: usize>(
    fastscan: &RabitqFastScan<B>,
    luts: Seq<u8>,
    v: int,
    n: int,
)
    requires
        fastscan.consistent(),
        0 <= v < 32 * fastscan.n_blocks,
        0 <= n <= 2 * (B as int / 8),
    ensures
        scan_sum(fastscan.packed_codes@, luts, B as int / 8, v, n) == nibble_sum(
            fastscan,
            luts,
            v,
            n,
        ),
    decreases n,
{
    if n > 0 {
        lemma_scan_is_nibble_sum(fastscan, luts, v, n - 1);
        let k = n - 1;
        lemma_code_nibble(fastscan.binary_codes@, B as int / 64, v, k);
        assert(packed_nibble(fastscan.packed_codes@, B as int / 8, v, k) == code_nibble(
            fastscan.binary_codes@,
            B as int / 64,
            v,
            k,
        ));
    }
}

/// A beam has room for its width and for as many candidates as are to be returned, and
/// no more than one of the two asks for.
pub proof fn law_beam_has_room(beam_width: usize, rerank_n: Option<usize>)
    ensures
        beam_length(beam_width, rerank_n) >= beam_width,
        rerank_n matches Some(n) ==> beam_length(beam_width, rerank_n) >= n,
        beam_length(beam_width, rerank_n) == beam_width || rerank_n == Some(
            beam_length(beam_width, rerank_n),
        ),
{
}

/// To ask for fewer results than the beam is wide does not narrow the search: with a
/// deterministic oracle it goes the same way, and returns the first of the results that
/// it returns otherwise.
pub proof fn law_fewer_results_are_the_first<O: BeamSearchOracle>(
    graph: &ClassicGraph,
    oracle: &O,
    start: IndexT,
    beam_width: usize,
    limit: Option<usize>,
    n: usize,
    one: OracleSearch,
    other: OracleSearch,
)
    requires
        oracle.is_deterministic(),
        n <= beam_width,
        comes_to(graph, oracle, start, beam_length(beam_width, Some(n)) as int, limit, one),
        comes_to(graph, oracle, start, beam_length(beam_width, None) as int, limit, other),
    ensures
        one == other,
        first_ids(one.entries, n as nat).is_prefix_of(first_ids(other.entries, beam_width as nat)),
        first_ids(one.entries, n as nat).len() == (if first_ids(
            other.entries,
            beam_width as nat,
        ).len() < n {
            first_ids(other.entries, beam_width as nat).len()
        } else {
            n as nat
        }),
{
    law_search_is_deterministic(
        graph,
        oracle,
        start,
        beam_width as int,
        limit,
        one,
        other,
    );
    let few = first_ids(one.entries, n as nat);
    let all = first_ids(other.entries, beam_width as nat);
    law_results_are_first_entries(one.entries, n as nat);
    law_results_are_first_entries(other.entries, beam_width as nat);
    assert(few =~= all.subrange(0, few.len() as int));
}

/// Whether vector `i` has a distance and, unless that is no number or infinite, its
/// place among the entries.
pub open spec fn is_accounted_for<O: BeamSearchOracle>(
    oracle: &O,
    entries: Seq<Entry>,
    capacity: int,
    i: u32,
) -> bool {
    exists|distance: Distance|
        {
            &&& #[trigger] oracle.is_distance(i as int, distance)
            &&& below_cutoff(distance, None) ==> has_its_place(entries, capacity, (i, distance))
        }
}

/// Whether all seen vectors are accounted for, and the entries are seen vectors with
/// their distances.
spec fn all_accounted_for<O: BeamSearchOracle>(
    oracle: &O,
    search: OracleSearch,
    capacity: int,
) -> bool {
    &&& forall|i: u32| #[trigger]
        search.seen.contains(i) ==> is_accounted_for(oracle, search.entries, capacity, i)
    &&& forall|k: int|
        0 <= k < search.entries.len() ==> {
            &&& search.seen.contains((#[trigger] search.entries[k]).id)
            &&& oracle.is_distance(search.entries[k].id as int, search.entries[k].distance)
        }
}

/// Putting in what has been found leaves accounted for what was, and accounts for what
/// is found.
proof fn lemma_accounted_after<O: BeamSearchOracle>(
    oracle: &O,
    entries: Seq<Entry>,
    candidates: Seq<(IndexT, Distance)>,
    capacity: int,
    i: u32,
)
    requires
        is_sorted(entries),
        0 <= capacity,
        entries.len() <= capacity,
        is_accounted_for(oracle, entries, capacity, i) || exists|distance: Distance|
            {
                &&& #[trigger] oracle.is_distance(i as int, distance)
                &&& below_cutoff(distance, None) ==> candidates.contains((i, distance))
            },
    ensures
        is_accounted_for(oracle, inserted_all(entries, candidates, capacity), capacity, i),
{
    let kept = inserted_all(entries, candidates, capacity);
    law_candidates_compete(entries, candidates, capacity, 0);
    if is_accounted_for(oracle, entries, capacity, i) {
        let d = choose|distance: Distance|
            {
                &&& #[trigger] oracle.is_distance(i as int, distance)
                &&& below_cutoff(distance, None) ==> has_its_place(entries, capacity, (i, distance))
            };
        assert(below_cutoff(d, None) ==> has_its_place(kept, capacity, (i, d)));
        assert(oracle.is_distance(i as int, d));
    } else {
        let d = choose|distance: Distance|
            {
                &&& #[trigger] oracle.is_distance(i as int, distance)
                &&& below_cutoff(distance, None) ==> candidates.contains((i, distance))
            };
        if below_cutoff(d, None) {
            let k = candidates.index_of((i, d));
            assert(has_its_place(kept, capacity, candidates[k]));
        }
        assert(oracle.is_distance(i as int, d));
    }
}

/// When a search begins, all that has been seen is accounted for.
proof fn lemma_beginning_accounted_for<O: ThoroughOracle>(
    oracle: &O,
    start: IndexT,
    capacity: int,
    search: OracleSearch,
)
    requires
        0 <= capacity,
        begins(oracle, start, capacity, search),
    ensures
        all_accounted_for(oracle, search, capacity),
        search.seen.contains(start),
{
    let only = Set::<u32>::empty().insert(start);
    let none = Set::<u32>::empty();
    let (initial, additional) = choose|initial: Distance, additional: Seq<(IndexT, Distance)>|
        {
            &&& #[trigger] oracle.init_step(
                start,
                only,
                none,
                search.seen,
                search.scanned,
                initial,
                additional,
                search.comparisons,
            )
            &&& search.entries == inserted_all(
                inserted(Seq::empty(), (start, initial), capacity),
                additional,
                capacity,
            )
        };
    oracle.lemma_start_is_measured(
        start,
        only,
        none,
        (search.seen, search.scanned, initial, additional, search.comparisons),
    );
    let first = inserted(Seq::empty(), (start, initial), capacity);
    lemma_inserted(Seq::empty(), (start, initial), capacity);
    lemma_place_kept(Seq::empty(), (start, initial), capacity, (start, initial));
    law_candidates_compete(first, additional, capacity, 0);
    assert(only.contains(start));
    assert(search.seen.contains(start));
    assert forall|i: u32| #[trigger] search.seen.contains(i) implies is_accounted_for(
        oracle,
        search.entries,
        capacity,
        i,
    ) by {
        if i == start {
            assert(is_accounted_for(oracle, first, capacity, i)) by {
                assert(oracle.is_distance(i as int, initial));
            }
        } else {
            assert(!only.contains(i));
            let d = choose|distance: Distance| #[trigger]
                oracle.is_distance(i as int, distance) && additional.contains((i, distance));
            assert(oracle.is_distance(i as int, d));
        }
        lemma_accounted_after(oracle, first, additional, capacity, i);
    }
    assert forall|k: int| 0 <= k < search.entries.len() implies {
        &&& search.seen.contains((#[trigger] search.entries[k]).id)
        &&& oracle.is_distance(search.entries[k].id as int, search.entries[k].distance)
    } by {
        let entry = search.entries[k];
        if first.contains(entry) {
            let j = first.index_of(entry);
            assert(first[j] == entry);
            assert(entry.id == start && entry.distance == initial);
        } else {
            let j = additional.index_of((entry.id, entry.distance));
            assert(additional[j] == (entry.id, entry.distance));
        }
    }
}

/// A step leaves all that has been seen accounted for.
proof fn lemma_step_accounted_for<O: ThoroughOracle>(
    graph: &ClassicGraph,
    oracle: &O,
    capacity: int,
    before: OracleSearch,
    after: OracleSearch,
)
    requires
        0 <= capacity,
        is_sorted(before.entries),
        before.entries.len() <= capacity,
        any_unvisited(before.entries),
        all_accounted_for(oracle, before, capacity),
        expands(graph, oracle, capacity, picked(before), picked(before).visited.last(), after),
    ensures
        all_accounted_for(oracle, after, capacity),
        before.seen.subset_of(after.seen),
{
    let mid = picked(before);
    lemma_first_unvisited(before.entries);
    let found = choose|found: Seq<(IndexT, Distance)>|
        {
            &&& #[trigger] oracle.neighbors_step(
                graph.neighborhood(mid.visited.last()),
                None,
                mid.seen,
                mid.scanned,
                after.seen,
                after.scanned,
                found,
                after.comparisons - mid.comparisons,
            )
            &&& after.entries == inserted_all(mid.entries, found, capacity)
        };
    oracle.lemma_new_are_found(
        graph.neighborhood(mid.visited.last()),
        None,
        mid.seen,
        mid.scanned,
        (after.seen, after.scanned, found, after.comparisons - mid.comparisons),
    );
    assert forall|i: int, j: int| 0 <= i < j < mid.entries.len() implies #[trigger] mid.entries[i].distance.place()
        <= #[trigger] mid.entries[j].distance.place() by {
        assert(before.entries[i].distance.place() <= before.entries[j].distance.place());
    }
    law_candidates_compete(mid.entries, found, capacity, 0);
    assert forall|i: u32| #[trigger] after.seen.contains(i) implies is_accounted_for(
        oracle,
        after.entries,
        capacity,
        i,
    ) by {
        if before.seen.contains(i) {
            let d = choose|distance: Distance|
                {
                    &&& #[trigger] oracle.is_distance(i as int, distance)
                    &&& below_cutoff(distance, None) ==> has_its_place(
                        before.entries,
                        capacity,
                        (i, distance),
                    )
                };
            if below_cutoff(d, None) {
                lemma_place_marked(before.entries, capacity, (i, d));
            }
            assert(is_accounted_for(oracle, mid.entries, capacity, i)) by {
                assert(oracle.is_distance(i as int, d));
            }
        } else {
            assert(is_found(oracle, None, found, i));
        }
        lemma_accounted_after(oracle, mid.entries, found, capacity, i);
    }
    assert forall|k: int| 0 <= k < after.entries.len() implies {
        &&& after.seen.contains((#[trigger] after.entries[k]).id)
        &&& oracle.is_distance(after.entries[k].id as int, after.entries[k].distance)
    } by {
        let entry = after.entries[k];
        if mid.entries.contains(entry) {
            let j = mid.entries.index_of(entry);
            assert(mid.entries[j] == entry);
            assert(before.seen.contains(before.entries[j].id));
        } else {
            let j = found.index_of((entry.id, entry.distance));
            assert(found[j] == (entry.id, entry.distance));
        }
    }
}

/// Whether some entry has not been visited.
spec fn any_unvisited(entries: Seq<Entry>) -> bool {
    exists|k: int| 0 <= k < entries.len() && !(#[trigger] entries[k]).visited
}

/// Marking an entry as visited leaves candidates in their places.
proof fn lemma_place_marked(entries: Seq<Entry>, capacity: int, candidate: (u32, Distance))
    requires
        any_unvisited(entries),
        has_its_place(entries, capacity, candidate),
    ensures
        has_its_place(marked(entries), capacity, candidate),
{
    lemma_first_unvisited(entries);
    let changed = marked(entries);
    if exists|j: int|
        0 <= j < entries.len() && (#[trigger] entries[j]).id == candidate.0 && entries[j].distance
            == candidate.1 {
        let j = choose|j: int|
            0 <= j < entries.len() && (#[trigger] entries[j]).id == candidate.0
                && entries[j].distance == candidate.1;
        assert(changed[j].id == candidate.0 && changed[j].distance == candidate.1);
    } else {
        assert forall|j: int| 0 <= j < changed.len() implies (
        #[trigger] changed[j]).distance.place() <= candidate.1.place() by {
            assert(entries[j].distance.place() <= candidate.1.place());
        }
    }
}

/// Throughout a run all that has been seen is accounted for.
proof fn lemma_run_accounted_for<O: ThoroughOracle>(
    graph: &ClassicGraph,
    oracle: &O,
    start: IndexT,
    capacity: int,
    limit: Option<usize>,
    searches: Seq<OracleSearch>,
    k: int,
)
    requires
        0 <= capacity,
        begins(oracle, start, capacity, searches[0]),
        is_run(graph, oracle, capacity, limit, searches),
        0 <= k < searches.len(),
    ensures
        all_accounted_for(oracle, searches[k], capacity),
        searches[k].seen.contains(start),
        searches[0].seen.subset_of(searches[k].seen),
    decreases k,
{
    if k == 0 {
        lemma_beginning_accounted_for(oracle, start, capacity, searches[0]);
    } else {
        lemma_run_accounted_for(graph, oracle, start, capacity, limit, searches, k - 1);
        lemma_run_beam(graph, oracle, start, capacity, limit, searches, k - 1);
        let before = searches[k - 1];
        assert(searches[k - 1 + 1] == searches[k]);
        assert(!stops(before.entries, before.visited.len(), limit));
        law_search_goes_on(before.entries, before.visited.len(), limit);
        lemma_step_accounted_for(graph, oracle, capacity, before, searches[k]);
    }
}

/// A search keeps the nearest of all that it has seen. It has seen its start. Each seen
/// vector whose distance is a number other than infinity is in the beam in the end, or
/// the beam is full and nothing in it is farther. What is in the beam has been seen, and
/// is there with its own distance; and the beam is ordered.
pub proof fn law_search_keeps_nearest<O: ThoroughOracle>(
    graph: &ClassicGraph,
    oracle: &O,
    start: IndexT,
    capacity: int,
    limit: Option<usize>,
    end: OracleSearch,
)
    requires
        0 <= capacity,
        comes_to(graph, oracle, start, capacity, limit, end),
    ensures
        end.seen.contains(start),
        forall|i: u32| #[trigger]
            end.seen.contains(i) ==> is_accounted_for(oracle, end.entries, capacity, i),
        forall|k: int|
            0 <= k < end.entries.len() ==> {
                &&& end.seen.contains((#[trigger] end.entries[k]).id)
                &&& oracle.is_distance(end.entries[k].id as int, end.entries[k].distance)
            },
        is_sorted(end.entries),
        end.entries.len() <= capacity,
{
    let searches = choose|searches: Seq<OracleSearch>|
        {
            &&& #[trigger] is_run(graph, oracle, capacity, limit, searches)
            &&& begins(oracle, start, capacity, searches[0])
            &&& end == searches.last()
        };
    lemma_run_accounted_for(graph, oracle, start, capacity, limit, searches, searches.len() - 1);
    lemma_run_beam(graph, oracle, start, capacity, limit, searches, searches.len() - 1);
}

/// The results of a search are the nearest of all that it has seen, nearest first: a
/// seen vector that is not returned, and whose distance is a number other than
/// infinity, is no closer than any result, and there are then as many results as were
/// asked for.
pub proof fn law_results_are_nearest<O: ThoroughOracle>(
    graph: &ClassicGraph,
    oracle: &O,
    start: IndexT,
    capacity: int,
    limit: Option<usize>,
    end: OracleSearch,
    count: nat,
    i: u32,
)
    requires
        comes_to(graph, oracle, start, capacity, limit, end),
        count <= capacity,
        end.seen.contains(i),
        !first_ids(end.entries, count).contains(i),
    ensures
        exists|distance: Distance|
            {
                &&& #[trigger] oracle.is_distance(i as int, distance)
                &&& below_cutoff(distance, None) ==> {
                    &&& first_ids(end.entries, count).len() == count
                    &&& forall|k: int|
                        0 <= k < count ==> (#[trigger] end.entries[k]).distance.place()
                            <= distance.place()
                }
            },
        forall|k: int, l: int|
            0 <= k < l < first_ids(end.entries, count).len() ==> (
            #[trigger] end.entries[k]).distance.place() <= (
            #[trigger] end.entries[l]).distance.place(),
{
    law_search_keeps_nearest(graph, oracle, start, capacity, limit, end);
    law_results_are_first_entries(end.entries, count);
    let results = first_ids(end.entries, count);
    let d = choose|distance: Distance|
        {
            &&& #[trigger] oracle.is_distance(i as int, distance)
            &&& below_cutoff(distance, None) ==> has_its_place(
                end.entries,
                capacity,
                (i, distance),
            )
        };
    assert(oracle.is_distance(i as int, d));
    if below_cutoff(d, None) {
        if exists|j: int|
            0 <= j < end.entries.len() && (#[trigger] end.entries[j]).id == i
                && end.entries[j].distance == d {
            let j = choose|j: int|
                0 <= j < end.entries.len() && (#[trigger] end.entries[j]).id == i
                    && end.entries[j].distance == d;
            assert(j >= results.len()) by {
                if j < results.len() {
                    assert(results[j] == i);
                }
            }
            assert forall|k: int| 0 <= k < count implies (
            #[trigger] end.entries[k]).distance.place() <= d.place() by {
                assert(end.entries[k].distance.place() <= end.entries[j].distance.place());
            }
        }
    }
}

/// Each visit of a run is to the closest candidate that had not been visited.
pub proof fn law_run_visits_closest<O: BeamSearchOracle>(
    graph: &ClassicGraph,
    oracle: &O,
    start: IndexT,
    capacity: int,
    limit: Option<usize>,
    searches: Seq<OracleSearch>,
    k: int,
) -> (at: int)
    requires
        0 <= capacity,
        begins(oracle, start, capacity, searches[0]),
        is_run(graph, oracle, capacity, limit, searches),
        0 <= k < searches.len() - 1,
    ensures
        0 <= at < searches[k].entries.len(),
        !searches[k].entries[at].visited,
        forall|j: int|
            0 <= j < searches[k].entries.len() && !(#[trigger] searches[k].entries[j]).visited
                ==> searches[k].entries[at].distance.place()
                <= searches[k].entries[j].distance.place(),
        searches[k + 1].visited == searches[k].visited.push(searches[k].entries[at].id),
        limit matches Some(l) ==> searches[k].visited.len() < l,
{
    lemma_run_beam(graph, oracle, start, capacity, limit, searches, k);
    law_next_is_closest(searches[k].entries);
    assert(!stops(searches[k].entries, searches[k].visited.len(), limit));
    first_unvisited(searches[k].entries)
}

/// A search ends only when its limit on visits is reached, or when all candidates in
/// the beam have been visited.
pub proof fn law_search_ends_when_done<O: BeamSearchOracle>(
    graph: &ClassicGraph,
    oracle: &O,
    start: IndexT,
    capacity: int,
    limit: Option<usize>,
    end: OracleSearch,
)
    requires
        comes_to(graph, oracle, start, capacity, limit, end),
    ensures
        limit == Some(end.visited.len() as usize) && end.visited.len() <= usize::MAX || forall|
            k: int,
        |
            0 <= k < end.entries.len() ==> (#[trigger] end.entries[k]).visited,
{
    law_search_goes_on(end.entries, end.visited.len(), limit);
    if limit is Some {
        law_limit_is_kept(graph, oracle, start, capacity, limit->0, end);
    }
}

/// Whether `i` is a neighbor of one of the nodes.
pub open spec fn is_next_to(graph: &ClassicGraph, nodes: Seq<IndexT>, i: u32) -> bool {
    exists|j: int|
        0 <= j < nodes.len() && (#[trigger] graph.neighborhood(nodes[j])).contains(i)
}

/// Whether a neighbor of one of the nodes lies in block `b`.
pub open spec fn touches(graph: &ClassicGraph, nodes: Seq<IndexT>, b: u32) -> bool {
    exists|j: int|
        0 <= j < nodes.len() && lies_in(#[trigger] graph.neighborhood(nodes[j]), b)
}

/// Whether one of the vectors lies in block `b`.
pub open spec fn lies_in(vectors: Seq<IndexT>, b: u32) -> bool {
    exists|k: int| 0 <= k < vectors.len() && #[trigger] vectors[k] / 32 == b
}

/// One node more has its own neighbors.
proof fn lemma_next_to_more(graph: &ClassicGraph, nodes: Seq<IndexT>, node: IndexT)
    ensures
        forall|i: u32| #[trigger]
            is_next_to(graph, nodes.push(node), i) == (is_next_to(graph, nodes, i)
                || graph.neighborhood(node).contains(i)),
        forall|b: u32| #[trigger]
            touches(graph, nodes.push(node), b) == (touches(graph, nodes, b) || lies_in(
                graph.neighborhood(node),
                b,
            )),
{
    let more = nodes.push(node);
    let n = nodes.len() as int;
    assert forall|i: u32| #[trigger]
        is_next_to(graph, more, i) == (is_next_to(graph, nodes, i) || graph.neighborhood(
            node,
        ).contains(i)) by {
        if is_next_to(graph, more, i) {
            let j = choose|j: int|
                0 <= j < more.len() && (#[trigger] graph.neighborhood(more[j])).contains(i);
            if j < n {
                assert(graph.neighborhood(nodes[j]).contains(i));
            }
        }
        if is_next_to(graph, nodes, i) {
            let j = choose|j: int|
                0 <= j < nodes.len() && (#[trigger] graph.neighborhood(nodes[j])).contains(i);
            assert(graph.neighborhood(more[j]).contains(i));
        }
        if graph.neighborhood(node).contains(i) {
            assert(graph.neighborhood(more[n]).contains(i));
        }
    }
    assert forall|b: u32| #[trigger]
        touches(graph, more, b) == (touches(graph, nodes, b) || lies_in(
            graph.neighborhood(node),
            b,
        )) by {
        if touches(graph, more, b) {
            let j = choose|j: int|
                0 <= j < more.len() && lies_in(#[trigger] graph.neighborhood(more[j]), b);
            if j < n {
                assert(lies_in(graph.neighborhood(nodes[j]), b));
            }
        }
        if touches(graph, nodes, b) {
            let j = choose|j: int|
                0 <= j < nodes.len() && lies_in(#[trigger] graph.neighborhood(nodes[j]), b);
            assert(lies_in(graph.neighborhood(more[j]), b));
        }
        if lies_in(graph.neighborhood(node), b) {
            assert(lies_in(graph.neighborhood(more[n]), b));
        }
    }
}

/// What a run with distances one at a time has seen.
proof fn lemma_scalar_run_reaches<
    'a,
    const B: usize,
    F: Fn(VectorFactors, &Vec<u8>) -> Distance,
>(
    graph: &ClassicGraph,
    oracle: &RabitqScalarOracle<'a, B, F>,
    start: IndexT,
    capacity: int,
    limit: Option<usize>,
    searches: Seq<OracleSearch>,
    k: int,
)
    requires
        begins(oracle, start, capacity, searches[0]),
        is_run(graph, oracle, capacity, limit, searches),
        0 <= k < searches.len(),
    ensures
        forall|i: u32| #[trigger]
            searches[k].seen.contains(i) <==> i == start || i < oracle.fastscan.n && is_next_to(
                graph,
                searches[k].visited,
                i,
            ),
        searches[k].seen.finite(),
        searches[k].comparisons == searches[k].seen.len(),
        searches[k].scanned == Set::<u32>::empty(),
    decreases k,
{
    let search = searches[k];
    if k == 0 {
        let only = Set::<u32>::empty().insert(start);
        let (initial, additional) = choose|initial: Distance, additional: Seq<(IndexT, Distance)>|
            {
                &&& #[trigger] oracle.init_step(
                    start,
                    only,
                    Set::<u32>::empty(),
                    search.seen,
                    search.scanned,
                    initial,
                    additional,
                    search.comparisons,
                )
                &&& search.entries == inserted_all(
                    inserted(Seq::empty(), (start, initial), capacity),
                    additional,
                    capacity,
                )
            };
        law_scalar_begins_with_start(
            oracle,
            start,
            only,
            Set::<u32>::empty(),
            (search.seen, search.scanned, initial, additional, search.comparisons),
        );
        assert(only.len() == 1);
    } else {
        lemma_scalar_run_reaches(graph, oracle, start, capacity, limit, searches, k - 1);
        let before = picked(searches[k - 1]);
        assert(searches[k - 1 + 1] == search);
        let node = before.visited.last();
        let found = choose|found: Seq<(IndexT, Distance)>|
            {
                &&& #[trigger] oracle.neighbors_step(
                    graph.neighborhood(node),
                    None,
                    before.seen,
                    before.scanned,
                    search.seen,
                    search.scanned,
                    found,
                    search.comparisons - before.comparisons,
                )
                &&& search.entries == inserted_all(before.entries, found, capacity)
            };
        law_scalar_finds_neighbors(
            oracle,
            graph.neighborhood(node),
            None,
            before.seen,
            before.scanned,
            (search.seen, search.scanned, found, search.comparisons - before.comparisons),
        );
        lemma_next_to_more(graph, searches[k - 1].visited, node);
        assert(search.visited == searches[k - 1].visited.push(node));
    }
}

/// A search with distances one at a time has seen exactly its start and the neighbors of
/// the nodes that it has visited, as far as they are vectors of the index; and has
/// computed one distance for each.
pub proof fn law_scalar_search_sees_neighbors<
    'a,
    const B: usize,
    F: Fn(VectorFactors, &Vec<u8>) -> Distance,
>(
    graph: &ClassicGraph,
    oracle: &RabitqScalarOracle<'a, B, F>,
    start: IndexT,
    capacity: int,
    limit: Option<usize>,
    end: OracleSearch,
)
    requires
        comes_to(graph, oracle, start, capacity, limit, end),
    ensures
        forall|i: u32| #[trigger]
            end.seen.contains(i) <==> i == start || i < oracle.fastscan.n && is_next_to(
                graph,
                end.visited,
                i,
            ),
        end.seen.finite(),
        end.comparisons == end.seen.len(),
        end.scanned == Set::<u32>::empty(),
{
    let searches = choose|searches: Seq<OracleSearch>|
        {
            &&& #[trigger] is_run(graph, oracle, capacity, limit, searches)
            &&& begins(oracle, start, capacity, searches[0])
            &&& end == searches.last()
        };
    lemma_scalar_run_reaches(graph, oracle, start, capacity, limit, searches, searches.len() - 1);
}

/// What a run that scans blocks has scanned and seen.
proof fn lemma_block_run_reaches<'a, const B: usize, F: Fn(VectorFactors, u16) -> Distance>(
    graph: &ClassicGraph,
    oracle: &RabitqFastScanOracle<'a, B, F>,
    start: IndexT,
    capacity: int,
    limit: Option<usize>,
    searches: Seq<OracleSearch>,
    k: int,
)
    requires
        begins(oracle, start, capacity, searches[0]),
        is_run(graph, oracle, capacity, limit, searches),
        0 <= k < searches.len(),
    ensures
        forall|b: u32| #[trigger]
            searches[k].scanned.contains(b) <==> b == start / 32 || touches(
                graph,
                searches[k].visited,
                b,
            ),
        forall|i: u32| #[trigger]
            searches[k].seen.contains(i) <==> i == start || i < oracle.fastscan.n
                && searches[k].scanned.contains((i / 32) as u32),
        searches[k].scanned.finite(),
        searches[k].comparisons == 32 * searches[k].scanned.len(),
    decreases k,
{
    let search = searches[k];
    if k == 0 {
        let only = Set::<u32>::empty().insert(start);
        let none = Set::<u32>::empty();
        let (initial, additional) = choose|initial: Distance, additional: Seq<(IndexT, Distance)>|
            {
                &&& #[trigger] oracle.init_step(
                    start,
                    only,
                    none,
                    search.seen,
                    search.scanned,
                    initial,
                    additional,
                    search.comparisons,
                )
                &&& search.entries == inserted_all(
                    inserted(Seq::empty(), (start, initial), capacity),
                    additional,
                    capacity,
                )
            };
        law_search_begins_with_block(
            oracle,
            start,
            only,
            none,
            (search.seen, search.scanned, initial, additional, search.comparisons),
        );
        assert(search.scanned =~= none.insert((start / 32) as u32));
        assert(none.insert((start / 32) as u32).len() == 1);
        assert forall|i: u32| #[trigger]
            search.seen.contains(i) <==> i == start || i < oracle.fastscan.n
                && search.scanned.contains((i / 32) as u32) by {}
    } else {
        lemma_block_run_reaches(graph, oracle, start, capacity, limit, searches, k - 1);
        let before = picked(searches[k - 1]);
        assert(searches[k - 1 + 1] == search);
        let node = before.visited.last();
        let neighbors = graph.neighborhood(node);
        let found = choose|found: Seq<(IndexT, Distance)>|
            {
                &&& #[trigger] oracle.neighbors_step(
                    neighbors,
                    None,
                    before.seen,
                    before.scanned,
                    search.seen,
                    search.scanned,
                    found,
                    search.comparisons - before.comparisons,
                )
                &&& search.entries == inserted_all(before.entries, found, capacity)
            };
        law_blocks_find_vectors(
            oracle,
            neighbors,
            None,
            before.seen,
            before.scanned,
            (search.seen, search.scanned, found, search.comparisons - before.comparisons),
        );
        lemma_next_to_more(graph, searches[k - 1].visited, node);
        assert(search.visited == searches[k - 1].visited.push(node));
        assert forall|b: u32| #[trigger]
            search.scanned.contains(b) <==> b == start / 32 || touches(
                graph,
                search.visited,
                b,
            ) by {
            assert(search.scanned.contains(b) <==> before.scanned.contains(b) || lies_in(
                neighbors,
                b,
            ));
        }
        assert forall|i: u32| #[trigger]
            search.seen.contains(i) <==> i == start || i < oracle.fastscan.n
                && search.scanned.contains((i / 32) as u32) by {
            let b = (i / 32) as u32;
            assert(search.scanned.contains(b) <==> before.scanned.contains(b) || lies_in(
                neighbors,
                b,
            ));
            assert(lies_in(neighbors, b) == exists|k: int|
                0 <= k < neighbors.len() && #[trigger] neighbors[k] / 32 == i / 32);
        }
    }
}

/// A search that scans blocks has scanned exactly the block of its start and those in
/// which neighbors of the visited nodes lie, and has seen all vectors of the index in
/// them; each block cost 32 distances.
pub proof fn law_block_search_scans_neighbors<
    'a,
    const B: usize,
    F: Fn(VectorFactors, u16) -> Distance,
>(
    graph: &ClassicGraph,
    oracle: &RabitqFastScanOracle<'a, B, F>,
    start: IndexT,
    capacity: int,
    limit: Option<usize>,
    end: OracleSearch,
)
    requires
        comes_to(graph, oracle, start, capacity, limit, end),
    ensures
        forall|b: u32| #[trigger]
            end.scanned.contains(b) <==> b == start / 32 || touches(graph, end.visited, b),
        forall|i: u32| #[trigger]
            end.seen.contains(i) <==> i == start || i < oracle.fastscan.n && end.scanned.contains(
                (i / 32) as u32,
            ),
        end.scanned.finite(),
        end.comparisons == 32 * end.scanned.len(),
{
    let searches = choose|searches: Seq<OracleSearch>|
        {
            &&& #[trigger] is_run(graph, oracle, capacity, limit, searches)
            &&& begins(oracle, start, capacity, searches[0])
            &&& end == searches.last()
        };
    lemma_block_run_reaches(graph, oracle, start, capacity, limit, searches, searches.len() - 1);
}

/// Throughout a run, the entries marked as visited have been visited.
proof fn lemma_run_marks<O: BeamSearchOracle>(
    graph: &ClassicGraph,
    oracle: &O,
    start: IndexT,
    capacity: int,
    limit: Option<usize>,
    searches: Seq<OracleSearch>,
    k: int,
)
    requires
        0 <= capacity,
        begins(oracle, start, capacity, searches[0]),
        is_run(graph, oracle, capacity, limit, searches),
        0 <= k < searches.len(),
    ensures
        forall|j: int|
            0 <= j < searches[k].entries.len() && (#[trigger] searches[k].entries[j]).visited
                ==> searches[k].visited.contains(searches[k].entries[j].id),
    decreases k,
{
    let search = searches[k];
    if k == 0 {
        let (initial, additional) = choose|initial: Distance, additional: Seq<(IndexT, Distance)>|
            {
                &&& #[trigger] oracle.init_step(
                    start,
                    Set::<u32>::empty().insert(start),
                    Set::<u32>::empty(),
                    search.seen,
                    search.scanned,
                    initial,
                    additional,
                    search.comparisons,
                )
                &&& search.entries == inserted_all(
                    inserted(Seq::empty(), (start, initial), capacity),
                    additional,
                    capacity,
                )
            };
        let first = inserted(Seq::empty(), (start, initial), capacity);
        lemma_inserted(Seq::empty(), (start, initial), capacity);
        law_candidates_compete(first, additional, capacity, 0);
        assert forall|j: int| 0 <= j < search.entries.len() implies !(
        #[trigger] search.entries[j]).visited by {
            if first.contains(search.entries[j]) {
                let l = first.index_of(search.entries[j]);
                assert(first[l] == search.entries[j]);
            }
        }
    } else {
        lemma_run_marks(graph, oracle, start, capacity, limit, searches, k - 1);
        lemma_run_beam(graph, oracle, start, capacity, limit, searches, k - 1);
        let earlier = searches[k - 1];
        let before = picked(earlier);
        assert(searches[k - 1 + 1] == search);
        assert(!stops(earlier.entries, earlier.visited.len(), limit));
        lemma_first_unvisited(earlier.entries);
        let at = first_unvisited(earlier.entries);
        let found = choose|found: Seq<(IndexT, Distance)>|
            {
                &&& #[trigger] oracle.neighbors_step(
                    graph.neighborhood(before.visited.last()),
                    None,
                    before.seen,
                    before.scanned,
                    search.seen,
                    search.scanned,
                    found,
                    search.comparisons - before.comparisons,
                )
                &&& search.entries == inserted_all(before.entries, found, capacity)
            };
        assert forall|i: int, j: int| 0 <= i < j < before.entries.len() implies #[trigger] before.entries[i].distance.place()
            <= #[trigger] before.entries[j].distance.place() by {
            assert(earlier.entries[i].distance.place() <= earlier.entries[j].distance.place());
        }
        law_candidates_compete(before.entries, found, capacity, 0);
        assert forall|j: int|
            0 <= j < search.entries.len() && (
            #[trigger] search.entries[j]).visited implies search.visited.contains(
            search.entries[j].id,
        ) by {
            assert(before.entries.contains(search.entries[j]));
            let l = before.entries.index_of(search.entries[j]);
            assert(before.entries[l] == search.entries[j]);
            if l == at {
                assert(search.visited[earlier.visited.len() as int] == search.entries[j].id);
            } else {
                assert(earlier.entries[l].visited);
                let n = earlier.visited.index_of(earlier.entries[l].id);
                assert(search.visited[n] == search.entries[j].id);
            }
        }
    }
}

/// A search without a limit has visited all that is in the beam in the end.
pub proof fn law_all_in_beam_are_visited<O: BeamSearchOracle>(
    graph: &ClassicGraph,
    oracle: &O,
    start: IndexT,
    capacity: int,
    end: OracleSearch,
)
    requires
        0 <= capacity,
        comes_to(graph, oracle, start, capacity, None, end),
    ensures
        forall|k: int|
            0 <= k < end.entries.len() ==> end.visited.contains((#[trigger] end.entries[k]).id),
{
    let searches = choose|searches: Seq<OracleSearch>|
        {
            &&& #[trigger] is_run(graph, oracle, capacity, None::<usize>, searches)
            &&& begins(oracle, start, capacity, searches[0])
            &&& end == searches.last()
        };
    lemma_run_marks(graph, oracle, start, capacity, None, searches, searches.len() - 1);
    law_search_is_exhaustive(graph, oracle, start, capacity, end);
}

/// A step of a search with an oracle picks the closest candidate that has not been
/// visited, unless all have been or the limit on visits is reached; it marks that
/// candidate as visited, and changes nothing else.
pub proof fn law_step_visits_closest<'a, O: BeamSearchOracle>(
    wrapper: &ClassicGraphWithOracle<'a, O>,
    before: &OracleBeamState<O>,
    next: Option<IndexT>,
    after: &OracleBeamState<O>,
)
    requires
        is_sorted(before@.entries),
        wrapper.next_step(before, next, after),
    ensures
        next is None <==> {
            ||| before.limit matches Some(l) && before@.visited.len() >= l
            ||| forall|k: int|
                0 <= k < before@.entries.len() ==> (#[trigger] before@.entries[k]).visited
        },
        next is None ==> after@ == before@,
        next matches Some(node) ==> {
            &&& after@.visited == before@.visited.push(node)
            &&& after@.seen == before@.seen
            &&& after@.scanned == before@.scanned
            &&& after@.comparisons == before@.comparisons
            &&& after@.entries.len() == before@.entries.len()
            &&& exists|at: int|
                {
                    &&& 0 <= at < before@.entries.len()
                    &&& (#[trigger] before@.entries[at]).id == node
                    &&& !before@.entries[at].visited
                    &&& forall|k: int|
                        0 <= k < before@.entries.len() && !(#[trigger] before@.entries[k]).visited
                            ==> before@.entries[at].distance.place()
                            <= before@.entries[k].distance.place()
                    &&& forall|k: int|
                        0 <= k < before@.entries.len() ==> (#[trigger] after@.entries[k]) == (
                        Entry {
                            visited: before@.entries[k].visited || k == at,
                            ..before@.entries[k]
                        })
                }
        },
{
    let entries = before@.entries;
    law_next_is_closest(entries);
    let at = first_unvisited(entries);
    if next is Some {
        assert(after@ == picked(before@));
        assert(entries[at].id == next->0);
        assert(!entries[at].visited);
    }
}

/// The neighbors of a visited node take part in the beam: of what is newly seen, all
/// whose distance is a number other than infinity have their places in the beam; what
/// was in its place stays so; and nothing comes into the beam that was neither there nor
/// newly seen.
pub proof fn law_neighbors_take_part<O: ThoroughOracle>(
    graph: &ClassicGraph,
    oracle: &O,
    capacity: int,
    before: OracleSearch,
    node: IndexT,
    after: OracleSearch,
)
    requires
        0 <= capacity,
        is_sorted(before.entries),
        before.entries.len() <= capacity,
        expands(graph, oracle, capacity, before, node, after),
    ensures
        after.visited == before.visited,
        before.seen.subset_of(after.seen),
        is_sorted(after.entries),
        before.entries.len() <= after.entries.len() <= capacity,
        forall|i: u32| #[trigger]
            after.seen.contains(i) && !before.seen.contains(i) ==> is_accounted_for(
                oracle,
                after.entries,
                capacity,
                i,
            ),
        forall|other: (u32, Distance)| #[trigger]
            has_its_place(before.entries, capacity, other) ==> has_its_place(
                after.entries,
                capacity,
                other,
            ),
        forall|k: int|
            0 <= k < after.entries.len() ==> {
                ||| before.entries.contains(#[trigger] after.entries[k])
                ||| {
                    &&& !after.entries[k].visited
                    &&& after.seen.contains(after.entries[k].id)
                    &&& !before.seen.contains(after.entries[k].id)
                    &&& oracle.is_distance(
                        after.entries[k].id as int,
                        after.entries[k].distance,
                    )
                }
            },
{
    let found = choose|found: Seq<(IndexT, Distance)>|
        {
            &&& #[trigger] oracle.neighbors_step(
                graph.neighborhood(node),
                None,
                before.seen,
                before.scanned,
                after.seen,
                after.scanned,
                found,
                after.comparisons - before.comparisons,
            )
            &&& after.entries == inserted_all(before.entries, found, capacity)
        };
    oracle.lemma_new_are_found(
        graph.neighborhood(node),
        None,
        before.seen,
        before.scanned,
        (after.seen, after.scanned, found, after.comparisons - before.comparisons),
    );
    law_candidates_compete(before.entries, found, capacity, 0);
    assert forall|i: u32| #[trigger]
        after.seen.contains(i) && !before.seen.contains(i) implies is_accounted_for(
        oracle,
        after.entries,
        capacity,
        i,
    ) by {
        assert(is_found(oracle, None, found, i));
        lemma_accounted_after(oracle, before.entries, found, capacity, i);
    }
    assert forall|k: int| 0 <= k < after.entries.len() implies {
        ||| before.entries.contains(#[trigger] after.entries[k])
        ||| {
            &&& !after.entries[k].visited
            &&& after.seen.contains(after.entries[k].id)
            &&& !before.seen.contains(after.entries[k].id)
            &&& oracle.is_distance(after.entries[k].id as int, after.entries[k].distance)
        }
    } by {
        let entry = after.entries[k];
        if !before.entries.contains(entry) {
            let j = found.index_of((entry.id, entry.distance));
            assert(found[j] == (entry.id, entry.distance));
        }
    }
}

/// The results of a state: the ids of the first entries of its beam, as many as are to
/// be returned, or as the beam is wide where no number is given.
pub proof fn law_state_returns_first_entries<'a, O: BeamSearchOracle>(
    wrapper: &ClassicGraphWithOracle<'a, O>,
    state: &OracleBeamState<O>,
)
    ensures
        ({
            let count = match state.rerank_n {
                Some(n) => n,
                None => state.beam_width,
            };
            let results = wrapper.results(state);
            &&& state.result_count() == count
            &&& results.len() <= count
            &&& results.len() < count ==> results.len() == state.beam.entries@.len()
            &&& results.len() <= state.beam.entries@.len()
            &&& forall|k: int|
                0 <= k < results.len() ==> #[trigger] results[k] == state.beam.entries@[k].id
        }),
{
    law_results_are_first_entries(state.beam.entries@, state.result_count());
}

/// As `law_state_returns_first_entries`, for searches with an oracle for comparisons.
pub proof fn law_classic_state_returns_first_entries<D: DistanceOracle>(
    graph: &ClassicGraph,
    state: &ClassicBeamState<D>,
)
    ensures
        ({
            let count = match state.rerank_n {
                Some(n) => n,
                None => state.beam_width,
            };
            let results = graph.results(state);
            &&& results.len() <= count
            &&& results.len() < count ==> results.len() == state.beam.entries@.len()
            &&& results.len() <= state.beam.entries@.len()
            &&& forall|k: int|
                0 <= k < results.len() ==> #[trigger] results[k] == state.beam.entries@[k].id
        }),
{
    let count = match state.rerank_n {
        Some(n) => n as nat,
        None => state.beam_width as nat,
    };
    law_results_are_first_entries(state.beam.entries@, count);
}

/// How many results a search is asked for: the given number, or as many as the beam is
/// wide; and the beam has room for them.
pub proof fn law_beam_holds_what_is_asked_for(beam_width: usize, rerank_n: Option<usize>)
    ensures
        asked_for(beam_width, rerank_n) == (match rerank_n {
            Some(n) => n,
            None => beam_width,
        }),
        asked_for(beam_width, rerank_n) <= beam_length(beam_width, rerank_n),
{
}

/// What a node leads to goes into the beam in the order in which the oracle finds it,
/// behind what was there where distances are equal: `gone_in` are the candidates found,
/// and where in the line each entry comes from.
pub proof fn law_neighbors_go_in_order<O: BeamSearchOracle>(
    graph: &ClassicGraph,
    oracle: &O,
    capacity: int,
    before: OracleSearch,
    node: IndexT,
    after: OracleSearch,
) -> (gone_in: (Seq<(IndexT, Distance)>, Seq<int>))
    requires
        0 <= capacity,
        is_sorted(before.entries),
        before.entries.len() <= capacity,
        expands(graph, oracle, capacity, before, node, after),
    ensures
        oracle.neighbors_step(
            graph.neighborhood(node),
            None,
            before.seen,
            before.scanned,
            after.seen,
            after.scanned,
            gone_in.0,
            after.comparisons - before.comparisons,
        ),
        is_taken_from(after.entries, in_line(before.entries, gone_in.0), gone_in.1),
        forall|k: int|
            0 <= k < gone_in.0.len() ==> has_its_place(
                after.entries,
                capacity,
                #[trigger] gone_in.0[k],
            ),
{
    let found = choose|found: Seq<(IndexT, Distance)>|
        {
            &&& #[trigger] oracle.neighbors_step(
                graph.neighborhood(node),
                None,
                before.seen,
                before.scanned,
                after.seen,
                after.scanned,
                found,
                after.comparisons - before.comparisons,
            )
            &&& after.entries == inserted_all(before.entries, found, capacity)
        };
    law_candidates_compete(before.entries, found, capacity, 0);
    let origin = law_beam_is_fair(before.entries, found, capacity);
    (found, origin)
}

/// A search begins with its start in the beam, and behind it, where distances are equal,
/// what comes with it in the order in which the oracle gives it: `gone_in` are the start
/// and those with their distances, and where in the line each entry comes from.
pub proof fn law_search_begins_in_order<O: BeamSearchOracle>(
    oracle: &O,
    start: IndexT,
    capacity: int,
    search: OracleSearch,
) -> (gone_in: (Distance, Seq<(IndexT, Distance)>, Seq<int>))
    requires
        0 <= capacity,
        begins(oracle, start, capacity, search),
    ensures
        oracle.init_step(
            start,
            Set::<u32>::empty().insert(start),
            Set::<u32>::empty(),
            search.seen,
            search.scanned,
            gone_in.0,
            gone_in.1,
            search.comparisons,
        ),
        is_taken_from(
            search.entries,
            in_line(Seq::empty(), seq![(start, gone_in.0)] + gone_in.1),
            gone_in.2,
        ),
        has_its_place(search.entries, capacity, (start, gone_in.0)),
        forall|k: int|
            0 <= k < gone_in.1.len() ==> has_its_place(
                search.entries,
                capacity,
                #[trigger] gone_in.1[k],
            ),
        search.entries.len() == (if 1 + gone_in.1.len() < capacity {
            1 + gone_in.1.len() as int
        } else {
            capacity
        }),
        search.visited.len() == 0,
{
    let (initial, additional) = choose|initial: Distance, additional: Seq<(IndexT, Distance)>|
        {
            &&& #[trigger] oracle.init_step(
                start,
                Set::<u32>::empty().insert(start),
                Set::<u32>::empty(),
                search.seen,
                search.scanned,
                initial,
                additional,
                search.comparisons,
            )
            &&& search.entries == inserted_all(
                inserted(Seq::empty(), (start, initial), capacity),
                additional,
                capacity,
            )
        };
    let all = seq![(start, initial)] + additional;
    lemma_first_goes_first((start, initial), additional, capacity);
    law_candidates_compete(Seq::empty(), all, capacity, 0);
    assert(has_its_place(search.entries, capacity, all[0]));
    assert forall|k: int| 0 <= k < additional.len() implies has_its_place(
        search.entries,
        capacity,
        #[trigger] additional[k],
    ) by {
        assert(all[k + 1] == additional[k]);
        assert(has_its_place(search.entries, capacity, all[k + 1]));
    }
    let origin = law_beam_is_fair(Seq::empty(), all, capacity);
    (initial, additional, origin)
}

/// To put in a candidate and then others is to put in all of them in this order.
proof fn lemma_first_goes_first(
    first: (IndexT, Distance),
    others: Seq<(IndexT, Distance)>,
    capacity: int,
)
    ensures
        inserted_all(inserted(Seq::empty(), first, capacity), others, capacity) == inserted_all(
            Seq::empty(),
            seq![first] + others,
            capacity,
        ),
    decreases others.len(),
{
    let all = seq![first] + others;
    if others.len() == 0 {
        assert(all =~= seq![first]);
        assert(all.drop_last() =~= Seq::<(IndexT, Distance)>::empty());
        assert(all.last() == first);
        reveal_with_fuel(inserted_all, 2);
    } else {
        lemma_first_goes_first(first, others.drop_last(), capacity);
        assert(all.drop_last() =~= seq![first] + others.drop_last());
        assert(all.last() == others.last());
    }
}

/// Whether no candidate is in the beam twice, no node has been visited twice, all of
/// them have been seen, and what is not marked as visited has not been visited.
spec fn has_no_repeats(search: OracleSearch) -> bool {
    &&& forall|i: int, j: int|
        0 <= i < j < search.entries.len() ==> (#[trigger] search.entries[i]).id != (
        #[trigger] search.entries[j]).id
    &&& forall|k: int|
        0 <= k < search.entries.len() ==> {
            &&& search.seen.contains((#[trigger] search.entries[k]).id)
            &&& !search.entries[k].visited ==> !search.visited.contains(search.entries[k].id)
        }
    &&& search.visited.no_duplicates()
    &&& forall|j: int|
        0 <= j < search.visited.len() ==> search.seen.contains(#[trigger] search.visited[j])
}

/// What is taken from a line without repeats has none.
proof fn lemma_taken_without_repeats(kept: Seq<Entry>, line: Seq<Entry>, origin: Seq<int>)
    requires
        is_taken_from(kept, line, origin),
        forall|i: int, j: int|
            0 <= i < j < line.len() ==> (#[trigger] line[i]).id != (#[trigger] line[j]).id,
    ensures
        forall|i: int, j: int|
            0 <= i < j < kept.len() ==> (#[trigger] kept[i]).id != (#[trigger] kept[j]).id,
{
    assert forall|i: int, j: int| 0 <= i < j < kept.len() implies (#[trigger] kept[i]).id != (
    #[trigger] kept[j]).id by {
        let (a, b) = (origin[i], origin[j]);
        assert(kept[i] == line[a] && kept[j] == line[b]);
        assert(a != b);
        if a < b {
            assert(line[a].id != line[b].id);
        } else {
            assert(line[b].id != line[a].id);
        }
    }
}

/// A search begins without repeats.
proof fn lemma_begins_without_repeats<O: ThoroughOracle>(
    oracle: &O,
    start: IndexT,
    capacity: int,
    search: OracleSearch,
)
    requires
        0 <= capacity,
        begins(oracle, start, capacity, search),
    ensures
        has_no_repeats(search),
{
    let only = Set::<u32>::empty().insert(start);
    let (initial, additional, origin) = law_search_begins_in_order(
        oracle,
        start,
        capacity,
        search,
    );
    oracle.lemma_start_is_measured(
        start,
        only,
        Set::<u32>::empty(),
        (search.seen, search.scanned, initial, additional, search.comparisons),
    );
    let all = seq![(start, initial)] + additional;
    let line = in_line(Seq::empty(), all);
    assert(only.contains(start));
    assert(search.seen.contains(start));
    assert forall|i: int, j: int| 0 <= i < j < line.len() implies (#[trigger] line[i]).id != (
    #[trigger] line[j]).id by {
        assert(line[j].id == additional[j - 1].0);
        if i > 0 {
            assert(line[i].id == additional[i - 1].0);
        } else {
            assert(!only.contains(additional[j - 1].0));
        }
    }
    lemma_taken_without_repeats(search.entries, line, origin);
    assert forall|k: int| 0 <= k < search.entries.len() implies search.seen.contains(
        (#[trigger] search.entries[k]).id,
    ) by {
        let o = origin[k];
        assert(search.entries[k] == line[o]);
        if o > 0 {
            assert(line[o].id == additional[o - 1].0);
        }
    }
}

/// A step brings no repeats.
proof fn lemma_step_without_repeats<O: ThoroughOracle>(
    graph: &ClassicGraph,
    oracle: &O,
    capacity: int,
    before: OracleSearch,
    after: OracleSearch,
)
    requires
        0 <= capacity,
        is_sorted(before.entries),
        before.entries.len() <= capacity,
        any_unvisited(before.entries),
        has_no_repeats(before),
        expands(graph, oracle, capacity, picked(before), picked(before).visited.last(), after),
    ensures
        has_no_repeats(after),
{
    let mid = picked(before);
    let node = mid.visited.last();
    lemma_first_unvisited(before.entries);
    let at = first_unvisited(before.entries);
    assert(before.seen.contains(before.entries[at].id));
    assert(has_no_repeats(mid)) by {
        assert forall|i: int, j: int| 0 <= i < j < mid.entries.len() implies (
        #[trigger] mid.entries[i]).id != (#[trigger] mid.entries[j]).id by {
            assert(before.entries[i].id != before.entries[j].id);
        }
        assert forall|k: int| 0 <= k < mid.entries.len() implies {
            &&& mid.seen.contains((#[trigger] mid.entries[k]).id)
            &&& !mid.entries[k].visited ==> !mid.visited.contains(mid.entries[k].id)
        } by {
            assert(before.seen.contains(before.entries[k].id));
            if k != at && mid.visited.contains(mid.entries[k].id) {
                let j = mid.visited.index_of(mid.entries[k].id);
                if k < at {
                    assert(before.entries[k].id != before.entries[at].id);
                } else {
                    assert(before.entries[at].id != before.entries[k].id);
                }
                assert(before.visited[j] == mid.entries[k].id);
            }
        }
    }
    assert forall|i: int, j: int| 0 <= i < j < mid.entries.len() implies #[trigger] mid.entries[i].distance.place()
        <= #[trigger] mid.entries[j].distance.place() by {
        assert(before.entries[i].distance.place() <= before.entries[j].distance.place());
    }
    let (found, origin) = law_neighbors_go_in_order(graph, oracle, capacity, mid, node, after);
    oracle.lemma_new_are_found(
        graph.neighborhood(node),
        None,
        mid.seen,
        mid.scanned,
        (after.seen, after.scanned, found, after.comparisons - mid.comparisons),
    );
    let line = in_line(mid.entries, found);
    let n = mid.entries.len() as int;
    assert forall|i: int, j: int| 0 <= i < j < line.len() implies (#[trigger] line[i]).id != (
    #[trigger] line[j]).id by {
        if j < n {
            assert(mid.entries[i].id != mid.entries[j].id);
        } else {
            assert(line[j].id == found[j - n].0);
            if i < n {
                assert(mid.seen.contains(mid.entries[i].id));
            } else {
                assert(line[i].id == found[i - n].0);
            }
        }
    }
    lemma_taken_without_repeats(after.entries, line, origin);
    assert forall|k: int| 0 <= k < after.entries.len() implies {
        &&& after.seen.contains((#[trigger] after.entries[k]).id)
        &&& !after.entries[k].visited ==> !after.visited.contains(after.entries[k].id)
    } by {
        let o = origin[k];
        assert(after.entries[k] == line[o]);
        if o < n {
            assert(line[o] == mid.entries[o]);
        } else {
            assert(line[o].id == found[o - n].0);
            if after.visited.contains(after.entries[k].id) {
                let j = after.visited.index_of(after.entries[k].id);
                assert(mid.seen.contains(mid.visited[j]));
            }
        }
    }
}

proof fn lemma_run_without_repeats<O: ThoroughOracle>(
    graph: &ClassicGraph,
    oracle: &O,
    start: IndexT,
    capacity: int,
    limit: Option<usize>,
    searches: Seq<OracleSearch>,
    k: int,
)
    requires
        0 <= capacity,
        begins(oracle, start, capacity, searches[0]),
        is_run(graph, oracle, capacity, limit, searches),
        0 <= k < searches.len(),
    ensures
        has_no_repeats(searches[k]),
    decreases k,
{
    if k == 0 {
        lemma_begins_without_repeats(oracle, start, capacity, searches[0]);
    } else {
        lemma_run_without_repeats(graph, oracle, start, capacity, limit, searches, k - 1);
        lemma_run_beam(graph, oracle, start, capacity, limit, searches, k - 1);
        let before = searches[k - 1];
        assert(searches[k - 1 + 1] == searches[k]);
        assert(!stops(before.entries, before.visited.len(), limit));
        law_search_goes_on(before.entries, before.visited.len(), limit);
        lemma_step_without_repeats(graph, oracle, capacity, before, searches[k]);
    }
}

/// A search visits no node twice, keeps no candidate twice, and returns none twice; and
/// visits only what it has seen.
pub proof fn law_nothing_is_visited_twice<O: ThoroughOracle>(
    graph: &ClassicGraph,
    oracle: &O,
    start: IndexT,
    capacity: int,
    limit: Option<usize>,
    end: OracleSearch,
    count: nat,
)
    requires
        0 <= capacity,
        comes_to(graph, oracle, start, capacity, limit, end),
    ensures
        end.visited.no_duplicates(),
        first_ids(end.entries, count).no_duplicates(),
        forall|j: int|
            0 <= j < end.visited.len() ==> end.seen.contains(#[trigger] end.visited[j]),
        forall|i: int, j: int|
            0 <= i < j < end.entries.len() ==> (#[trigger] end.entries[i]).id != (
            #[trigger] end.entries[j]).id,
{
    let searches = choose|searches: Seq<OracleSearch>|
        {
            &&& #[trigger] is_run(graph, oracle, capacity, limit, searches)
            &&& begins(oracle, start, capacity, searches[0])
            &&& end == searches.last()
        };
    lemma_run_without_repeats(graph, oracle, start, capacity, limit, searches, searches.len() - 1);
    law_results_are_first_entries(end.entries, count);
    let results = first_ids(end.entries, count);
    assert forall|i: int, j: int|
        0 <= i < results.len() && 0 <= j < results.len() && i != j implies results[i]
        != results[j] by {
        if i < j {
            assert(end.entries[i].id != end.entries[j].id);
        } else {
            assert(end.entries[j].id != end.entries[i].id);
        }
    }
}

} // verus!
