//! Beam search with the oracles for quantized vectors.

use vstd::prelude::*;

use crate::beam_search::first_ids;
use crate::beam_search_oracle::grows_below;
use crate::classic_graph::{ClassicGraph, IndexT};
use crate::distance::Distance;
use crate::fast_scan_oracle::RabitqFastScanOracle;
use crate::oracle_search::{
    beam_length, beam_search_with_oracle, beam_search_with_state, begins, comes_to, is_answer,
    OracleBeamState, OracleSearch,
};
use crate::rabitq_fast_scan::{RabitqFastScan, VectorFactors};
use crate::scalar_oracle::RabitqScalarOracle;
use crate::search_laws::law_start_block_is_scanned;
use crate::seen_set::lemma_len_below;

verus! {

/// How many results are asked for.
pub open spec fn asked_for(beam_width: usize, rerank_n: Option<usize>) -> nat {
    match rerank_n {
        Some(n) => n as nat,
        None => beam_width as nat,
    }
}

/// Whether the vectors of an index are nodes of a graph, and all neighbors lie in
/// the blocks of the index.
pub open spec fn covers_blocks<const B: usize>(
    fastscan: &RabitqFastScan<B>,
    graph: &ClassicGraph,
) -> bool {
    &&& graph.wf()
    &&& fastscan.n <= graph.n
    &&& forall|i: IndexT, k: int|
        i < graph.n && 0 <= k < graph.neighborhood(i).len() ==> (#[trigger] graph.neighborhood(
            i,
        )[k]) / 32 < fastscan.n_blocks
}

/// Whether the vectors of an index are nodes of a graph, and all neighbors that are
/// vectors of the index lie in its blocks.
pub open spec fn covers_vectors<const B: usize>(
    fastscan: &RabitqFastScan<B>,
    graph: &ClassicGraph,
) -> bool {
    &&& graph.wf()
    &&& fastscan.n <= graph.n
    &&& forall|i: IndexT, k: int|
        i < graph.n && 0 <= k < graph.neighborhood(i).len() && (#[trigger] graph.neighborhood(
            i,
        )[k]) < fastscan.n ==> graph.neighborhood(i)[k] < 32 * fastscan.n_blocks
}

/// Whether a search with the oracle that scans blocks can return these results after
/// scanning so many blocks.
pub open spec fn block_search_gives<'a, const B: usize, F: Fn(VectorFactors, u16) -> Distance>(
    graph: &ClassicGraph,
    oracle: &RabitqFastScanOracle<'a, B, F>,
    start: IndexT,
    beam_width: usize,
    limit: Option<usize>,
    rerank_n: Option<usize>,
    results: Seq<IndexT>,
    blocks: int,
) -> bool {
    exists|end: OracleSearch|
        {
            &&& #[trigger] comes_to(
                graph,
                oracle,
                start,
                beam_length(beam_width, rerank_n) as int,
                limit,
                end,
            )
            &&& results == first_ids(end.entries, asked_for(beam_width, rerank_n))
            &&& blocks == end.scanned.len()
        }
}

/// Whether a search with the oracle that computes one distance at a time can return
/// these results after so many distances.
pub open spec fn scalar_search_gives<
    'a,
    const B: usize,
    F: Fn(VectorFactors, &Vec<u8>) -> Distance,
>(
    graph: &ClassicGraph,
    oracle: &RabitqScalarOracle<'a, B, F>,
    start: IndexT,
    beam_width: usize,
    limit: Option<usize>,
    rerank_n: Option<usize>,
    results: Seq<IndexT>,
    comparisons: int,
) -> bool {
    exists|end: OracleSearch|
        {
            &&& #[trigger] comes_to(
                graph,
                oracle,
                start,
                beam_length(beam_width, rerank_n) as int,
                limit,
                end,
            )
            &&& results == first_ids(end.entries, asked_for(beam_width, rerank_n))
            &&& comparisons == end.comparisons
            &&& comparisons == end.seen.len()
        }
}

impl<'a, const B: usize, F: Fn(VectorFactors, u16) -> Distance> OracleBeamState<
    RabitqFastScanOracle<'a, B, F>,
> {
    /// A search with the oracle that scans blocks.
    pub fn new_fastscan(
        fastscan: &'a RabitqFastScan<B>,
        luts: Vec<u8>,
        estimate: F,
        start: IndexT,
        beam_width: usize,
        limit: Option<usize>,
        rerank_n: Option<usize>,
    ) -> (state: OracleBeamState<RabitqFastScanOracle<'a, B, F>>)
        requires
            (RabitqFastScanOracle { fastscan, luts, estimate }).sound(),
            start / 32 < fastscan.n_blocks,
        ensures
            state.sound(),
            state.oracle == (RabitqFastScanOracle { fastscan, luts, estimate }),
            state.oracle.explained(),
            state.beam_width == beam_width,
            state.limit == limit,
            state.rerank_n == rerank_n,
            state.max_valid_idx == fastscan.n,
            state.beam.capacity == beam_length(beam_width, rerank_n),
            state.beam.capacity >= beam_width,
            rerank_n matches Some(n) ==> state.beam.capacity >= n,
            state.beam.capacity == beam_width || rerank_n == Some(state.beam.capacity),
            state.beam_snapshots@ == Seq::<Vec<IndexT>>::empty(),
            begins(&state.oracle, start, state.beam.capacity as int, state@),
            grows_below(Set::<u32>::empty().insert(start), state@.seen, fastscan.n as int),
    {
        let oracle = fastscan.make_oracle(luts, estimate);
        OracleBeamState::new(oracle, start, beam_width, limit, rerank_n)
    }
}

impl<'a, const B: usize, F: Fn(VectorFactors, &Vec<u8>) -> Distance> OracleBeamState<
    RabitqScalarOracle<'a, B, F>,
> {
    /// A search with the oracle that computes one distance at a time.
    pub fn new_scalar(
        fastscan: &'a RabitqFastScan<B>,
        estimate: F,
        start: IndexT,
        beam_width: usize,
        limit: Option<usize>,
        rerank_n: Option<usize>,
    ) -> (state: OracleBeamState<RabitqScalarOracle<'a, B, F>>)
        requires
            (RabitqScalarOracle { fastscan, estimate }).sound(),
            start < 32 * fastscan.n_blocks,
        ensures
            state.sound(),
            state.oracle == (RabitqScalarOracle { fastscan, estimate }),
            state.oracle.explained(),
            state.beam_width == beam_width,
            state.limit == limit,
            state.rerank_n == rerank_n,
            state.max_valid_idx == fastscan.n,
            state.beam.capacity == beam_length(beam_width, rerank_n),
            state.beam.capacity >= beam_width,
            rerank_n matches Some(n) ==> state.beam.capacity >= n,
            state.beam.capacity == beam_width || rerank_n == Some(state.beam.capacity),
            state.beam_snapshots@ == Seq::<Vec<IndexT>>::empty(),
            begins(&state.oracle, start, state.beam.capacity as int, state@),
            grows_below(Set::<u32>::empty().insert(start), state@.seen, fastscan.n as int),
    {
        let oracle = RabitqScalarOracle::new(fastscan, estimate);
        OracleBeamState::new(oracle, start, beam_width, limit, rerank_n)
    }
}

/// Searches a graph with the oracle that scans blocks, and returns the results with
/// the number of blocks scanned.
pub fn beam_search_rabitq<const B: usize, F: Fn(VectorFactors, u16) -> Distance>(
    graph: &ClassicGraph,
    fastscan: &RabitqFastScan<B>,
    luts: Vec<u8>,
    estimate: F,
    start: IndexT,
    beam_width: usize,
    limit: Option<usize>,
    rerank_n: Option<usize>,
) -> (found: (Vec<IndexT>, usize))
    requires
        (RabitqFastScanOracle { fastscan, luts, estimate }).sound(),
        covers_blocks(fastscan, graph),
        start / 32 < fastscan.n_blocks,
        start < graph.n,
    ensures
        block_search_gives(
            graph,
            &(RabitqFastScanOracle { fastscan, luts, estimate }),
            start,
            beam_width,
            limit,
            rerank_n,
            found.0@,
            found.1 as int,
        ),
        is_answer(
            graph,
            found.0@,
            asked_for(beam_width, rerank_n),
            beam_length(beam_width, rerank_n) as nat,
        ),
        1 <= found.1 <= fastscan.n_blocks,
        (RabitqFastScanOracle { fastscan, luts, estimate }).explained(),
{
    let oracle = fastscan.make_oracle(luts, estimate);
    let (results, state) = beam_search_with_oracle(
        graph,
        oracle,
        start,
        beam_width,
        limit,
        rerank_n,
    );
    proof {
        state.scanned_blocks.lemma_finite();
        lemma_len_below(state@.scanned, fastscan.n_blocks as int);
        law_start_block_is_scanned(
            graph,
            &state.oracle,
            start,
            state.beam.capacity as int,
            limit,
            state@,
        );
    }
    let num_scanned = state.num_scanned_blocks();
    (results, num_scanned)
}

/// As `beam_search_rabitq`, with a state that has been in use before.
pub fn beam_search_rabitq_with_state<'a, const B: usize, F: Fn(VectorFactors, u16) -> Distance>(
    graph: &ClassicGraph,
    fastscan: &'a RabitqFastScan<B>,
    luts: Vec<u8>,
    estimate: F,
    start: IndexT,
    state: &mut OracleBeamState<RabitqFastScanOracle<'a, B, F>>,
) -> (found: (Vec<IndexT>, usize))
    requires
        old(state).seen.wf(),
        old(state).scanned_blocks.wf(),
        (RabitqFastScanOracle { fastscan, luts, estimate }).sound(),
        covers_blocks(fastscan, graph),
        start / 32 < fastscan.n_blocks,
        start < graph.n,
    ensures
        comes_to(
            graph,
            &(RabitqFastScanOracle { fastscan, luts, estimate }),
            start,
            old(state).beam.capacity as int,
            old(state).limit,
            final(state)@,
        ),
        found.0@ == first_ids(final(state)@.entries, old(state).result_count()),
        found.1 == final(state)@.scanned.len(),
        is_answer(
            graph,
            found.0@,
            old(state).result_count(),
            old(state).beam.capacity as nat,
        ),
        found.1 <= fastscan.n_blocks,
        final(state).sound_for(graph),
        final(state).oracle == (RabitqFastScanOracle { fastscan, luts, estimate }),
        final(state).oracle.explained(),
        final(state).beam_width == old(state).beam_width,
        final(state).limit == old(state).limit,
        final(state).rerank_n == old(state).rerank_n,
        final(state).max_valid_idx == old(state).max_valid_idx,
        final(state).beam.capacity == old(state).beam.capacity,
        final(state).beam_snapshots == old(state).beam_snapshots,
{
    let oracle = RabitqFastScanOracle::new(fastscan, luts, estimate);
    let results = beam_search_with_state(graph, oracle, start, state);
    proof {
        state.scanned_blocks.lemma_finite();
        lemma_len_below(state.scanned_blocks@, fastscan.n_blocks as int);
    }
    let num_scanned = state.num_scanned_blocks();
    (results, num_scanned)
}

/// Searches a graph with the oracle that computes one distance at a time, and
/// returns the results with the number of distances computed.
pub fn beam_search_rabitq_scalar<const B: usize, F: Fn(VectorFactors, &Vec<u8>) -> Distance>(
    graph: &ClassicGraph,
    fastscan: &RabitqFastScan<B>,
    estimate: F,
    start: IndexT,
    beam_width: usize,
    limit: Option<usize>,
    rerank_n: Option<usize>,
) -> (found: (Vec<IndexT>, usize))
    requires
        (RabitqScalarOracle { fastscan, estimate }).sound(),
        covers_vectors(fastscan, graph),
        start < 32 * fastscan.n_blocks,
        start < graph.n,
    ensures
        scalar_search_gives(
            graph,
            &(RabitqScalarOracle { fastscan, estimate }),
            start,
            beam_width,
            limit,
            rerank_n,
            found.0@,
            found.1 as int,
        ),
        is_answer(
            graph,
            found.0@,
            asked_for(beam_width, rerank_n),
            beam_length(beam_width, rerank_n) as nat,
        ),
        (RabitqScalarOracle { fastscan, estimate }).explained(),
{
    let oracle = RabitqScalarOracle::new(fastscan, estimate);
    let (results, state) = beam_search_with_oracle(
        graph,
        oracle,
        start,
        beam_width,
        limit,
        rerank_n,
    );
    let num_comparisons = state.num_distance_comparisons();
    (results, num_comparisons)
}

/// As `beam_search_rabitq_scalar`, with a state that has been in use before.
pub fn beam_search_rabitq_scalar_with_state<
    'a,
    const B: usize,
    F: Fn(VectorFactors, &Vec<u8>) -> Distance,
>(
    graph: &ClassicGraph,
    fastscan: &'a RabitqFastScan<B>,
    estimate: F,
    start: IndexT,
    state: &mut OracleBeamState<RabitqScalarOracle<'a, B, F>>,
) -> (found: (Vec<IndexT>, usize))
    requires
        old(state).seen.wf(),
        old(state).scanned_blocks.wf(),
        (RabitqScalarOracle { fastscan, estimate }).sound(),
        covers_vectors(fastscan, graph),
        start < 32 * fastscan.n_blocks,
        start < graph.n,
    ensures
        comes_to(
            graph,
            &(RabitqScalarOracle { fastscan, estimate }),
            start,
            old(state).beam.capacity as int,
            old(state).limit,
            final(state)@,
        ),
        found.0@ == first_ids(final(state)@.entries, old(state).result_count()),
        found.1 == final(state)@.comparisons,
        found.1 == final(state)@.seen.len(),
        is_answer(
            graph,
            found.0@,
            old(state).result_count(),
            old(state).beam.capacity as nat,
        ),
        final(state).sound_for(graph),
        final(state).oracle == (RabitqScalarOracle { fastscan, estimate }),
        final(state).oracle.explained(),
        final(state).beam_width == old(state).beam_width,
        final(state).limit == old(state).limit,
        final(state).rerank_n == old(state).rerank_n,
        final(state).max_valid_idx == old(state).max_valid_idx,
        final(state).beam.capacity == old(state).beam.capacity,
        final(state).beam_snapshots == old(state).beam_snapshots,
{
    let oracle = RabitqScalarOracle::new(fastscan, estimate);
    let results = beam_search_with_state(graph, oracle, start, state);
    let num_comparisons = state.num_distance_comparisons();
    (results, num_comparisons)
}

} // verus!
