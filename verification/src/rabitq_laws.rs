//! How searches with the oracles for quantized vectors relate to one another.

use vstd::prelude::*;

use crate::beam_search::{first_ids, law_results_are_first_entries};
use crate::beam_search_oracle::{below_cutoff, BeamSearchOracle};
use crate::classic_graph::{ClassicGraph, IndexT};
use crate::distance::Distance;
use crate::fast_scan_oracle::RabitqFastScanOracle;
use crate::oracle_search::{beam_length, comes_to, OracleBeamState, OracleSearch};
use crate::rabitq_fast_scan::VectorFactors;
use crate::rabitq_search::{asked_for, block_search_gives, scalar_search_gives};
use crate::scalar_oracle::RabitqScalarOracle;
use crate::search_laws::{
    is_next_to, law_all_in_beam_are_visited, law_beam_is_ordered, law_block_search_scans_neighbors,
    law_fewer_results_are_the_first, law_limit_cuts_short, law_results_are_nearest,
    law_scalar_search_sees_neighbors, law_search_is_deterministic, law_search_keeps_nearest,
    law_start_block_is_scanned, lies_in, touches,
};

verus! {

/// Searching with the oracle that scans blocks is deterministic: where equal scan
/// results have equal estimates, two searches with the same arguments return the same
/// results in the same order, and scan as many blocks.
pub proof fn law_block_search_is_deterministic<
    'a,
    const B: usize,
    F: Fn(VectorFactors, u16) -> Distance,
>(
    graph: &ClassicGraph,
    oracle: &RabitqFastScanOracle<'a, B, F>,
    start: IndexT,
    beam_width: usize,
    limit: Option<usize>,
    rerank_n: Option<usize>,
    one: (Seq<IndexT>, int),
    other: (Seq<IndexT>, int),
)
    requires
        oracle.estimates_once(),
        block_search_gives(graph, oracle, start, beam_width, limit, rerank_n, one.0, one.1),
        block_search_gives(graph, oracle, start, beam_width, limit, rerank_n, other.0, other.1),
    ensures
        one == other,
{
    let capacity = beam_length(beam_width, rerank_n) as int;
    let count = asked_for(beam_width, rerank_n);
    let e1 = choose|end: OracleSearch|
        {
            &&& #[trigger] comes_to(graph, oracle, start, capacity, limit, end)
            &&& one.0 == first_ids(end.entries, count)
            &&& one.1 == end.scanned.len()
        };
    let e2 = choose|end: OracleSearch|
        {
            &&& #[trigger] comes_to(graph, oracle, start, capacity, limit, end)
            &&& other.0 == first_ids(end.entries, count)
            &&& other.1 == end.scanned.len()
        };
    law_search_is_deterministic(graph, oracle, start, capacity, limit, e1, e2);
}

/// Searching with the oracle that computes one distance at a time is deterministic:
/// where equal codes have equal estimates, two searches with the same arguments return
/// the same results in the same order, and compute as many distances.
pub proof fn law_scalar_search_is_deterministic<
    'a,
    const B: usize,
    F: Fn(VectorFactors, &Vec<u8>) -> Distance,
>(
    graph: &ClassicGraph,
    oracle: &RabitqScalarOracle<'a, B, F>,
    start: IndexT,
    beam_width: usize,
    limit: Option<usize>,
    rerank_n: Option<usize>,
    one: (Seq<IndexT>, int),
    other: (Seq<IndexT>, int),
)
    requires
        oracle.estimates_once(),
        scalar_search_gives(graph, oracle, start, beam_width, limit, rerank_n, one.0, one.1),
        scalar_search_gives(graph, oracle, start, beam_width, limit, rerank_n, other.0, other.1),
    ensures
        one == other,
{
    let capacity = beam_length(beam_width, rerank_n) as int;
    let count = asked_for(beam_width, rerank_n);
    let e1 = choose|end: OracleSearch|
        {
            &&& #[trigger] comes_to(graph, oracle, start, capacity, limit, end)
            &&& one.0 == first_ids(end.entries, count)
            &&& one.1 == end.comparisons
            &&& one.1 == end.seen.len()
        };
    let e2 = choose|end: OracleSearch|
        {
            &&& #[trigger] comes_to(graph, oracle, start, capacity, limit, end)
            &&& other.0 == first_ids(end.entries, count)
            &&& other.1 == end.comparisons
            &&& other.1 == end.seen.len()
        };
    law_search_is_deterministic(graph, oracle, start, capacity, limit, e1, e2);
}

/// A limit on visits can only lower the number of blocks scanned: where equal scan
/// results have equal estimates, a search with a limit scans no more blocks than the
/// same search without one. It still returns something, where anything is asked for.
pub proof fn law_limited_block_search_scans_no_more<
    'a,
    const B: usize,
    F: Fn(VectorFactors, u16) -> Distance,
>(
    graph: &ClassicGraph,
    oracle: &RabitqFastScanOracle<'a, B, F>,
    start: IndexT,
    beam_width: usize,
    limit: usize,
    rerank_n: Option<usize>,
    limited: (Seq<IndexT>, int),
    full: (Seq<IndexT>, int),
)
    requires
        oracle.estimates_once(),
        block_search_gives(
            graph,
            oracle,
            start,
            beam_width,
            Some(limit),
            rerank_n,
            limited.0,
            limited.1,
        ),
        block_search_gives(graph, oracle, start, beam_width, None, rerank_n, full.0, full.1),
    ensures
        limited.1 <= full.1,
        asked_for(beam_width, rerank_n) > 0 ==> limited.0.len() > 0,
{
    let capacity = beam_length(beam_width, rerank_n) as int;
    let count = asked_for(beam_width, rerank_n);
    let e1 = choose|end: OracleSearch|
        {
            &&& #[trigger] comes_to(graph, oracle, start, capacity, Some(limit), end)
            &&& limited.0 == first_ids(end.entries, count)
            &&& limited.1 == end.scanned.len()
        };
    let e2 = choose|end: OracleSearch|
        {
            &&& #[trigger] comes_to(graph, oracle, start, capacity, None, end)
            &&& full.0 == first_ids(end.entries, count)
            &&& full.1 == end.scanned.len()
        };
    law_start_block_is_scanned(graph, oracle, start, capacity, None, e2);
    law_limit_cuts_short(graph, oracle, start, capacity, limit, e1, e2);
    law_beam_is_ordered(graph, oracle, start, capacity, Some(limit), e1);
}

/// A search that is handed the oracle that scans blocks agrees with the search that
/// makes it: where equal scan results have equal estimates, it returns the same
/// results and scans as many blocks; it has computed 32 distances for each of them.
pub proof fn law_search_with_oracle_agrees<
    'a,
    const B: usize,
    F: Fn(VectorFactors, u16) -> Distance,
>(
    graph: &ClassicGraph,
    start: IndexT,
    beam_width: usize,
    limit: Option<usize>,
    rerank_n: Option<usize>,
    made: (Seq<IndexT>, int),
    results: Seq<IndexT>,
    state: &OracleBeamState<RabitqFastScanOracle<'a, B, F>>,
)
    requires
        state.oracle.estimates_once(),
        block_search_gives(
            graph,
            &state.oracle,
            start,
            beam_width,
            limit,
            rerank_n,
            made.0,
            made.1,
        ),
        state.sound(),
        comes_to(
            graph,
            &state.oracle,
            start,
            beam_length(beam_width, rerank_n) as int,
            limit,
            state@,
        ),
        results == first_ids(state@.entries, asked_for(beam_width, rerank_n)),
    ensures
        results == made.0,
        state@.scanned.len() == made.1,
        state@.comparisons == 32 * made.1,
        results.len() <= asked_for(beam_width, rerank_n),
{
    let blocks = state@.scanned.len() as int;
    assert(block_search_gives(
        graph,
        &state.oracle,
        start,
        beam_width,
        limit,
        rerank_n,
        results,
        blocks,
    ));
    law_block_search_is_deterministic(
        graph,
        &state.oracle,
        start,
        beam_width,
        limit,
        rerank_n,
        made,
        (results, blocks),
    );
}

/// With the oracle that scans blocks: to ask for fewer results than the beam is
/// wide does not narrow the search. Where equal scan results have equal estimates, it
/// returns the first of the results that it returns otherwise, at the same cost.
pub proof fn law_fewer_block_results_are_the_first<
    'a,
    const B: usize,
    F: Fn(VectorFactors, u16) -> Distance,
>(
    graph: &ClassicGraph,
    oracle: &RabitqFastScanOracle<'a, B, F>,
    start: IndexT,
    beam_width: usize,
    limit: Option<usize>,
    n: usize,
    few: (Seq<IndexT>, int),
    all: (Seq<IndexT>, int),
)
    requires
        oracle.estimates_once(),
        n <= beam_width,
        block_search_gives(graph, oracle, start, beam_width, limit, Some(n), few.0, few.1),
        block_search_gives(graph, oracle, start, beam_width, limit, None, all.0, all.1),
    ensures
        few.0 == all.0.take(
            if n < all.0.len() {
                n as int
            } else {
                all.0.len() as int
            },
        ),
        few.1 == all.1,
{
    let e1 = choose|end: OracleSearch|
        {
            &&& #[trigger] comes_to(
                graph,
                oracle,
                start,
                beam_length(beam_width, Some(n)) as int,
                limit,
                end,
            )
            &&& few.0 == first_ids(end.entries, asked_for(beam_width, Some(n)))
            &&& few.1 == end.scanned.len()
        };
    let e2 = choose|end: OracleSearch|
        {
            &&& #[trigger] comes_to(
                graph,
                oracle,
                start,
                beam_length(beam_width, None::<usize>) as int,
                limit,
                end,
            )
            &&& all.0 == first_ids(end.entries, asked_for(beam_width, None::<usize>))
            &&& all.1 == end.scanned.len()
        };
    law_fewer_results_are_the_first(graph, oracle, start, beam_width, limit, n, e1, e2);
}

/// The results of a search with the oracle that scans blocks are ordered by
/// distance, nearest first, all different, and no more than were asked for: `distances`
/// are those of the results.
pub proof fn law_block_results_are_ordered<
    'a,
    const B: usize,
    F: Fn(VectorFactors, u16) -> Distance,
>(
    graph: &ClassicGraph,
    oracle: &RabitqFastScanOracle<'a, B, F>,
    start: IndexT,
    beam_width: usize,
    limit: Option<usize>,
    rerank_n: Option<usize>,
    found: (Seq<IndexT>, int),
) -> (distances: Seq<Distance>)
    requires
        block_search_gives(graph, oracle, start, beam_width, limit, rerank_n, found.0, found.1),
    ensures
        distances.len() == found.0.len(),
        forall|k: int|
            0 <= k < distances.len() ==> oracle.estimates(
                found.0[k] as int,
                #[trigger] distances[k],
            ),
        forall|k: int, l: int|
            0 <= k < l < distances.len() ==> !(#[trigger] distances[l]).less(
                #[trigger] distances[k],
            ),
        found.0.len() <= (match rerank_n {
            Some(n) => n,
            None => beam_width,
        }),
{
    let end = choose|end: OracleSearch|
        {
            &&& #[trigger] comes_to(
                graph,
                oracle,
                start,
                beam_length(beam_width, rerank_n) as int,
                limit,
                end,
            )
            &&& found.0 == first_ids(end.entries, asked_for(beam_width, rerank_n))
            &&& found.1 == end.scanned.len()
        };
    let capacity = beam_length(beam_width, rerank_n) as int;
    law_search_keeps_nearest(graph, oracle, start, capacity, limit, end);
    law_results_are_first_entries(end.entries, asked_for(beam_width, rerank_n));
    let distances = Seq::new(found.0.len(), |k: int| end.entries[k].distance);
    assert forall|k: int| 0 <= k < distances.len() implies oracle.estimates(
        found.0[k] as int,
        #[trigger] distances[k],
    ) by {
        assert(oracle.is_distance(end.entries[k].id as int, end.entries[k].distance));
    }
    assert forall|k: int, l: int| 0 <= k < l < distances.len() implies !(
    #[trigger] distances[l]).less(#[trigger] distances[k]) by {
        assert(end.entries[k].distance.place() <= end.entries[l].distance.place());
    }
    distances
}

/// Whether a vector at the given distance loses to the results: as many as were asked
/// for are returned, and none of them is farther.
pub open spec fn loses_to_block_results<
    'a,
    const B: usize,
    F: Fn(VectorFactors, u16) -> Distance,
>(
    oracle: &RabitqFastScanOracle<'a, B, F>,
    results: Seq<IndexT>,
    count: nat,
    distance: Distance,
) -> bool {
    &&& results.len() == count
    &&& forall|k: int, d: Distance|
        0 <= k < results.len() && #[trigger] oracle.estimates(results[k] as int, d) ==> d.place()
            <= distance.place()
}

/// A seen vector is a result, or loses to the results.
proof fn lemma_block_result_or_loses<
    'a,
    const B: usize,
    F: Fn(VectorFactors, u16) -> Distance,
>(
    graph: &ClassicGraph,
    oracle: &RabitqFastScanOracle<'a, B, F>,
    start: IndexT,
    beam_width: usize,
    limit: Option<usize>,
    rerank_n: Option<usize>,
    end: OracleSearch,
    v: u32,
    distance: Distance,
)
    requires
        oracle.estimates_once(),
        comes_to(graph, oracle, start, beam_length(beam_width, rerank_n) as int, limit, end),
        end.seen.contains(v),
        oracle.estimates(v as int, distance),
        below_cutoff(distance, None),
    ensures
        ({
            let count = asked_for(beam_width, rerank_n);
            let results = first_ids(end.entries, count);
            results.contains(v) || loses_to_block_results(oracle, results, count, distance)
        }),
{
    let count = asked_for(beam_width, rerank_n);
    let results = first_ids(end.entries, count);
    let capacity = beam_length(beam_width, rerank_n) as int;
    if !results.contains(v) {
        law_results_are_nearest(graph, oracle, start, capacity, limit, end, count, v);
        law_search_keeps_nearest(graph, oracle, start, capacity, limit, end);
        law_results_are_first_entries(end.entries, count);
        let d = choose|d: Distance|
            {
                &&& #[trigger] oracle.is_distance(v as int, d)
                &&& below_cutoff(d, None) ==> {
                    &&& results.len() == count
                    &&& forall|k: int|
                        0 <= k < count ==> (#[trigger] end.entries[k]).distance.place()
                            <= d.place()
                }
            };
        assert(oracle.estimates(v as int, d));
        oracle.lemma_estimates_agree(v as int, d, distance);
        assert forall|k: int, e: Distance|
            0 <= k < results.len() && #[trigger] oracle.estimates(
                results[k] as int,
                e,
            ) implies e.place() <= distance.place() by {
            let own = end.entries[k].distance;
            assert(oracle.is_distance(end.entries[k].id as int, own));
            assert(oracle.estimates(results[k] as int, own));
            oracle.lemma_estimates_agree(results[k] as int, own, e);
        }
    }
}

/// A search that scans blocks returns the nearest vectors of the block of its start:
/// each of them whose distance is a number other than infinity is a result, or loses to
/// the results.
pub proof fn law_block_of_start_competes<
    'a,
    const B: usize,
    F: Fn(VectorFactors, u16) -> Distance,
>(
    graph: &ClassicGraph,
    oracle: &RabitqFastScanOracle<'a, B, F>,
    start: IndexT,
    beam_width: usize,
    limit: Option<usize>,
    rerank_n: Option<usize>,
    found: (Seq<IndexT>, int),
    v: u32,
    distance: Distance,
)
    requires
        oracle.estimates_once(),
        block_search_gives(graph, oracle, start, beam_width, limit, rerank_n, found.0, found.1),
        v == start || v < oracle.fastscan.n && v / 32 == start / 32,
        oracle.estimates(v as int, distance),
        below_cutoff(distance, None),
    ensures
        found.0.contains(v) || loses_to_block_results(
            oracle,
            found.0,
            asked_for(beam_width, rerank_n),
            distance,
        ),
{
    let end = choose|end: OracleSearch|
        {
            &&& #[trigger] comes_to(
                graph,
                oracle,
                start,
                beam_length(beam_width, rerank_n) as int,
                limit,
                end,
            )
            &&& found.0 == first_ids(end.entries, asked_for(beam_width, rerank_n))
            &&& found.1 == end.scanned.len()
        };
    let capacity = beam_length(beam_width, rerank_n) as int;
    law_block_search_scans_neighbors(graph, oracle, start, capacity, limit, end);
    assert(end.scanned.contains((start / 32) as u32));
    lemma_block_result_or_loses(
        graph,
        oracle,
        start,
        beam_width,
        limit,
        rerank_n,
        end,
        v,
        distance,
    );
}

/// A search without a limit leaves nothing better next to its results: each vector of a
/// block in which a neighbor of a result lies, if its distance is a number other than
/// infinity, is a result, or loses to the results.
pub proof fn law_block_results_are_locally_best<
    'a,
    const B: usize,
    F: Fn(VectorFactors, u16) -> Distance,
>(
    graph: &ClassicGraph,
    oracle: &RabitqFastScanOracle<'a, B, F>,
    start: IndexT,
    beam_width: usize,
    rerank_n: Option<usize>,
    found: (Seq<IndexT>, int),
    k: int,
    v: u32,
    distance: Distance,
)
    requires
        oracle.estimates_once(),
        block_search_gives(graph, oracle, start, beam_width, None, rerank_n, found.0, found.1),
        0 <= k < found.0.len(),
        lies_in(graph.neighborhood(found.0[k]), (v / 32) as u32),
        v < oracle.fastscan.n,
        oracle.estimates(v as int, distance),
        below_cutoff(distance, None),
    ensures
        found.0.contains(v) || loses_to_block_results(
            oracle,
            found.0,
            asked_for(beam_width, rerank_n),
            distance,
        ),
{
    let end = choose|end: OracleSearch|
        {
            &&& #[trigger] comes_to(
                graph,
                oracle,
                start,
                beam_length(beam_width, rerank_n) as int,
                None::<usize>,
                end,
            )
            &&& found.0 == first_ids(end.entries, asked_for(beam_width, rerank_n))
            &&& found.1 == end.scanned.len()
        };
    let capacity = beam_length(beam_width, rerank_n) as int;
    law_block_search_scans_neighbors(graph, oracle, start, capacity, None, end);
    law_all_in_beam_are_visited(graph, oracle, start, capacity, end);
    law_results_are_first_entries(end.entries, asked_for(beam_width, rerank_n));
    let j = end.visited.index_of(end.entries[k].id);
    assert(lies_in(graph.neighborhood(end.visited[j]), (v / 32) as u32));
    assert(touches(graph, end.visited, (v / 32) as u32));
    assert(end.scanned.contains((v / 32) as u32));
    lemma_block_result_or_loses(
        graph,
        oracle,
        start,
        beam_width,
        None,
        rerank_n,
        end,
        v,
        distance,
    );
}

/// With the oracle that computes one distance at a time: to ask for fewer results than the beam is
/// wide does not narrow the search. Where equal codes have equal estimates, it
/// returns the first of the results that it returns otherwise, at the same cost.
pub proof fn law_fewer_scalar_results_are_the_first<
    'a,
    const B: usize,
    F: Fn(VectorFactors, &Vec<u8>) -> Distance,
>(
    graph: &ClassicGraph,
    oracle: &RabitqScalarOracle<'a, B, F>,
    start: IndexT,
    beam_width: usize,
    limit: Option<usize>,
    n: usize,
    few: (Seq<IndexT>, int),
    all: (Seq<IndexT>, int),
)
    requires
        oracle.estimates_once(),
        n <= beam_width,
        scalar_search_gives(graph, oracle, start, beam_width, limit, Some(n), few.0, few.1),
        scalar_search_gives(graph, oracle, start, beam_width, limit, None, all.0, all.1),
    ensures
        few.0 == all.0.take(
            if n < all.0.len() {
                n as int
            } else {
                all.0.len() as int
            },
        ),
        few.1 == all.1,
{
    let e1 = choose|end: OracleSearch|
        {
            &&& #[trigger] comes_to(
                graph,
                oracle,
                start,
                beam_length(beam_width, Some(n)) as int,
                limit,
                end,
            )
            &&& few.0 == first_ids(end.entries, asked_for(beam_width, Some(n)))
            &&& few.1 == end.comparisons
            &&& few.1 == end.seen.len()
        };
    let e2 = choose|end: OracleSearch|
        {
            &&& #[trigger] comes_to(
                graph,
                oracle,
                start,
                beam_length(beam_width, None::<usize>) as int,
                limit,
                end,
            )
            &&& all.0 == first_ids(end.entries, asked_for(beam_width, None::<usize>))
            &&& all.1 == end.comparisons
            &&& all.1 == end.seen.len()
        };
    law_fewer_results_are_the_first(graph, oracle, start, beam_width, limit, n, e1, e2);
}

/// The results of a search with the oracle that computes one distance at a time are ordered by
/// distance, nearest first, all different, and no more than were asked for: `distances`
/// are those of the results.
pub proof fn law_scalar_results_are_ordered<
    'a,
    const B: usize,
    F: Fn(VectorFactors, &Vec<u8>) -> Distance,
>(
    graph: &ClassicGraph,
    oracle: &RabitqScalarOracle<'a, B, F>,
    start: IndexT,
    beam_width: usize,
    limit: Option<usize>,
    rerank_n: Option<usize>,
    found: (Seq<IndexT>, int),
) -> (distances: Seq<Distance>)
    requires
        scalar_search_gives(graph, oracle, start, beam_width, limit, rerank_n, found.0, found.1),
    ensures
        distances.len() == found.0.len(),
        forall|k: int|
            0 <= k < distances.len() ==> oracle.estimates(
                found.0[k] as int,
                #[trigger] distances[k],
            ),
        forall|k: int, l: int|
            0 <= k < l < distances.len() ==> !(#[trigger] distances[l]).less(
                #[trigger] distances[k],
            ),
        found.0.len() <= (match rerank_n {
            Some(n) => n,
            None => beam_width,
        }),
{
    let end = choose|end: OracleSearch|
        {
            &&& #[trigger] comes_to(
                graph,
                oracle,
                start,
                beam_length(beam_width, rerank_n) as int,
                limit,
                end,
            )
            &&& found.0 == first_ids(end.entries, asked_for(beam_width, rerank_n))
            &&& found.1 == end.comparisons
            &&& found.1 == end.seen.len()
        };
    let capacity = beam_length(beam_width, rerank_n) as int;
    law_search_keeps_nearest(graph, oracle, start, capacity, limit, end);
    law_results_are_first_entries(end.entries, asked_for(beam_width, rerank_n));
    let distances = Seq::new(found.0.len(), |k: int| end.entries[k].distance);
    assert forall|k: int| 0 <= k < distances.len() implies oracle.estimates(
        found.0[k] as int,
        #[trigger] distances[k],
    ) by {
        assert(oracle.is_distance(end.entries[k].id as int, end.entries[k].distance));
    }
    assert forall|k: int, l: int| 0 <= k < l < distances.len() implies !(
    #[trigger] distances[l]).less(#[trigger] distances[k]) by {
        assert(end.entries[k].distance.place() <= end.entries[l].distance.place());
    }
    distances
}

/// Whether a vector at the given distance loses to the results: as many as were asked
/// for are returned, and none of them is farther.
pub open spec fn loses_to_scalar_results<
    'a,
    const B: usize,
    F: Fn(VectorFactors, &Vec<u8>) -> Distance,
>(
    oracle: &RabitqScalarOracle<'a, B, F>,
    results: Seq<IndexT>,
    count: nat,
    distance: Distance,
) -> bool {
    &&& results.len() == count
    &&& forall|k: int, d: Distance|
        0 <= k < results.len() && #[trigger] oracle.estimates(results[k] as int, d) ==> d.place()
            <= distance.place()
}

/// A seen vector is a result, or loses to the results.
proof fn lemma_scalar_result_or_loses<
    'a,
    const B: usize,
    F: Fn(VectorFactors, &Vec<u8>) -> Distance,
>(
    graph: &ClassicGraph,
    oracle: &RabitqScalarOracle<'a, B, F>,
    start: IndexT,
    beam_width: usize,
    limit: Option<usize>,
    rerank_n: Option<usize>,
    end: OracleSearch,
    v: u32,
    distance: Distance,
)
    requires
        oracle.estimates_once(),
        comes_to(graph, oracle, start, beam_length(beam_width, rerank_n) as int, limit, end),
        end.seen.contains(v),
        oracle.estimates(v as int, distance),
        below_cutoff(distance, None),
    ensures
        ({
            let count = asked_for(beam_width, rerank_n);
            let results = first_ids(end.entries, count);
            results.contains(v) || loses_to_scalar_results(oracle, results, count, distance)
        }),
{
    let count = asked_for(beam_width, rerank_n);
    let results = first_ids(end.entries, count);
    let capacity = beam_length(beam_width, rerank_n) as int;
    if !results.contains(v) {
        law_results_are_nearest(graph, oracle, start, capacity, limit, end, count, v);
        law_search_keeps_nearest(graph, oracle, start, capacity, limit, end);
        law_results_are_first_entries(end.entries, count);
        let d = choose|d: Distance|
            {
                &&& #[trigger] oracle.is_distance(v as int, d)
                &&& below_cutoff(d, None) ==> {
                    &&& results.len() == count
                    &&& forall|k: int|
                        0 <= k < count ==> (#[trigger] end.entries[k]).distance.place()
                            <= d.place()
                }
            };
        assert(oracle.estimates(v as int, d));
        oracle.lemma_estimates_agree(v as int, d, distance);
        assert forall|k: int, e: Distance|
            0 <= k < results.len() && #[trigger] oracle.estimates(
                results[k] as int,
                e,
            ) implies e.place() <= distance.place() by {
            let own = end.entries[k].distance;
            assert(oracle.is_distance(end.entries[k].id as int, own));
            assert(oracle.estimates(results[k] as int, own));
            oracle.lemma_estimates_agree(results[k] as int, own, e);
        }
    }
}

/// A search without a limit leaves nothing better next to its results: the start, and
/// each neighbor of a result that is a vector of the index, if its distance is a number
/// other than infinity, is a result, or loses to the results.
pub proof fn law_scalar_results_are_locally_best<
    'a,
    const B: usize,
    F: Fn(VectorFactors, &Vec<u8>) -> Distance,
>(
    graph: &ClassicGraph,
    oracle: &RabitqScalarOracle<'a, B, F>,
    start: IndexT,
    beam_width: usize,
    rerank_n: Option<usize>,
    found: (Seq<IndexT>, int),
    v: u32,
    distance: Distance,
)
    requires
        oracle.estimates_once(),
        scalar_search_gives(graph, oracle, start, beam_width, None, rerank_n, found.0, found.1),
        v == start || v < oracle.fastscan.n && is_next_to(graph, found.0, v),
        oracle.estimates(v as int, distance),
        below_cutoff(distance, None),
    ensures
        found.0.contains(v) || loses_to_scalar_results(
            oracle,
            found.0,
            asked_for(beam_width, rerank_n),
            distance,
        ),
{
    let end = choose|end: OracleSearch|
        {
            &&& #[trigger] comes_to(
                graph,
                oracle,
                start,
                beam_length(beam_width, rerank_n) as int,
                None::<usize>,
                end,
            )
            &&& found.0 == first_ids(end.entries, asked_for(beam_width, rerank_n))
            &&& found.1 == end.comparisons
            &&& found.1 == end.seen.len()
        };
    let capacity = beam_length(beam_width, rerank_n) as int;
    law_scalar_search_sees_neighbors(graph, oracle, start, capacity, None, end);
    law_all_in_beam_are_visited(graph, oracle, start, capacity, end);
    law_results_are_first_entries(end.entries, asked_for(beam_width, rerank_n));
    if v != start {
        let k = choose|k: int|
            0 <= k < found.0.len() && (#[trigger] graph.neighborhood(found.0[k])).contains(v);
        let j = end.visited.index_of(end.entries[k].id);
        assert(graph.neighborhood(end.visited[j]).contains(v));
        assert(is_next_to(graph, end.visited, v));
    }
    assert(end.seen.contains(v));
    lemma_scalar_result_or_loses(
        graph,
        oracle,
        start,
        beam_width,
        None,
        rerank_n,
        end,
        v,
        distance,
    );
}

/// A search that is handed the oracle that computes one distance at a time agrees with
/// the search that makes it: where equal codes have equal estimates, it returns the same
/// results, and has computed as many distances as it has seen vectors.
pub proof fn law_scalar_search_with_oracle_agrees<
    'a,
    const B: usize,
    F: Fn(VectorFactors, &Vec<u8>) -> Distance,
>(
    graph: &ClassicGraph,
    start: IndexT,
    beam_width: usize,
    limit: Option<usize>,
    rerank_n: Option<usize>,
    made: (Seq<IndexT>, int),
    results: Seq<IndexT>,
    state: &OracleBeamState<RabitqScalarOracle<'a, B, F>>,
)
    requires
        state.oracle.estimates_once(),
        scalar_search_gives(
            graph,
            &state.oracle,
            start,
            beam_width,
            limit,
            rerank_n,
            made.0,
            made.1,
        ),
        comes_to(
            graph,
            &state.oracle,
            start,
            beam_length(beam_width, rerank_n) as int,
            limit,
            state@,
        ),
        results == first_ids(state@.entries, asked_for(beam_width, rerank_n)),
    ensures
        results == made.0,
        state@.comparisons == made.1,
        state@.seen.len() == made.1,
        results.len() <= asked_for(beam_width, rerank_n),
{
    let cost = state@.comparisons;
    let capacity = beam_length(beam_width, rerank_n) as int;
    law_scalar_search_sees_neighbors(graph, &state.oracle, start, capacity, limit, state@);
    assert(scalar_search_gives(
        graph,
        &state.oracle,
        start,
        beam_width,
        limit,
        rerank_n,
        results,
        cost,
    ));
    law_scalar_search_is_deterministic(
        graph,
        &state.oracle,
        start,
        beam_width,
        limit,
        rerank_n,
        made,
        (results, cost),
    );
}

} // verus!
