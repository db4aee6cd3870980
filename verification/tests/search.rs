use std::collections::hash_map::DefaultHasher;
use std::collections::HashSet;
use std::hash::{Hash, Hasher};

use rabitq::beam_search::BeamSearchable;
use rabitq::beam_search_oracle::BeamSearchOracle;
use rabitq::classic_graph::{ClassicGraph, IndexT};
use rabitq::classic_search::{absorb_batch, ClassicBeamState};
use rabitq::distance::Distance;
use rabitq::distance_oracle::DistanceOracle;
use rabitq::fast_scan_oracle::{unscanned_blocks, RabitqFastScanOracle};
use rabitq::named::Named;
use rabitq::oracle_search::{
    beam_search_with_oracle, ClassicGraphWithOracle, OracleBeamState,
};
use rabitq::rabitq_fast_scan::{
    max_quant_level, quantized_tables, RabitqFastScan, VectorDataset, VectorFactors,
};
use rabitq::rabitq_fast_scan_kernels::{fast_scan_reference, lut_step};
use rabitq::rabitq_search::{
    beam_search_rabitq, beam_search_rabitq_scalar, beam_search_rabitq_scalar_with_state,
    beam_search_rabitq_with_state,
};
use rabitq::scalar_oracle::RabitqScalarOracle;
use rabitq::seen_set::SeenSet;

const TEST_DIM: usize = 128;

/// Creates a random dataset with pseudo-random values.
fn make_random_dataset(n: usize, dim: usize, seed: u64) -> Vec<f32> {
    let mut data = vec![0.0f32; n * dim];
    for i in 0..n {
        for d in 0..dim {
            let mut hasher = DefaultHasher::new();
            (seed, i, d).hash(&mut hasher);
            let hash = hasher.finish();
            data[i * dim + d] = ((hash as f64 / u64::MAX as f64) * 2.0 - 1.0) as f32;
        }
    }
    data
}

/// The factors of one vector.
fn factors_of(vector: &[f32]) -> VectorFactors {
    let dim = vector.len() as f32;
    let mut norm_sq = 0.0f32;
    let mut ip = 0.0f32;
    for &val in vector {
        norm_sq += val * val;
        let bit = if val > 0.0 { 1.0f32 } else { 0.0f32 };
        ip += val * (bit - 0.5);
    }
    let ip = if ip.abs() < 1e-10 { f32::INFINITY } else { ip };
    let error = if ip.is_finite() {
        let ratio = (norm_sq * (dim * 0.25)) / (ip * ip);
        if ratio > 1.0 && dim > 1.0 {
            norm_sq.sqrt() * 1.9 * ((ratio - 1.0) / (dim - 1.0)).sqrt()
        } else {
            0.0
        }
    } else {
        0.0
    };
    VectorFactors {
        f_add: norm_sq.to_bits(),
        f_rescale: (-2.0 * norm_sq / ip).to_bits(),
        f_error: (2.0 * error).to_bits(),
    }
}

fn index_of<const B: usize>(data: &[f32], n: usize) -> RabitqFastScan<B> {
    let factors: Vec<VectorFactors> = data.chunks_exact(B).map(factors_of).collect();
    let bits: Vec<u32> = data.iter().map(|x| x.to_bits()).collect();
    let dataset = VectorDataset::new(bits, n, B);
    RabitqFastScan::<B>::from_f32_dataset(&dataset, factors)
}

/// Lookup tables of single-precision sums.
fn float_tables(query: &[f32]) -> Vec<f32> {
    let m = query.len() / 4;
    let mut tables = vec![0.0f32; m * 16];
    for c in 0..m {
        for j in 1..16 {
            let (before, pos) = lut_step(j);
            tables[16 * c + j] = tables[16 * c + before] + query[4 * c + pos];
        }
    }
    tables
}

/// Quantized lookup tables, with what it takes to undo the quantization.
fn tables_of<const B: usize>(query: &[f32]) -> (Vec<u8>, f32, f32) {
    let tables = float_tables(query);
    let m = B / 4;
    let min = tables.iter().cloned().fold(f32::INFINITY, f32::min);
    let max = tables.iter().cloned().fold(f32::NEG_INFINITY, f32::max);
    let range = max - min;
    let highest = max_quant_level::<B>();
    let (delta, scale) = if range > 1e-10 {
        (range / highest as f32, highest as f32 / range)
    } else {
        (0.0, 1.0)
    };
    let levels: Vec<i32> = tables
        .iter()
        .map(|&value| ((value - min) * scale).round() as i32)
        .collect();
    let luts = quantized_tables::<B>(&levels);
    (luts, delta, min * m as f32)
}

fn estimated(factors: VectorFactors, query: &[f32], ip: f32) -> Distance {
    let g_add: f32 = query.iter().map(|x| x * x).sum();
    let sum_q: f32 = query.iter().sum();
    let estimate = f32::from_bits(factors.f_add)
        + g_add
        + f32::from_bits(factors.f_rescale) * (ip + -0.5 * sum_q);
    Distance::from_bits(estimate.to_bits())
}

fn block_estimate<'q>(
    query: &'q [f32],
    delta: f32,
    sum_vl: f32,
) -> impl Fn(VectorFactors, u16) -> Distance + Clone + 'q {
    move |factors: VectorFactors, raw: u16| estimated(factors, query, delta * raw as f32 + sum_vl)
}

fn nibble_estimate<'q>(
    query: &'q [f32],
) -> impl Fn(VectorFactors, &Vec<u8>) -> Distance + Clone + 'q {
    let tables = float_tables(query);
    move |factors: VectorFactors, nibbles: &Vec<u8>| {
        let mut ip = 0.0f32;
        for (k, &nibble) in nibbles.iter().enumerate() {
            ip += tables[16 * k + nibble as usize];
        }
        estimated(factors, query, ip)
    }
}

/// Searches with the oracle that scans blocks.
fn search_blocks(
    graph: &ClassicGraph,
    fastscan: &RabitqFastScan<TEST_DIM>,
    query: &[f32],
    start: IndexT,
    beam_width: usize,
    limit: Option<usize>,
    rerank_n: Option<usize>,
) -> (Vec<IndexT>, usize) {
    let (luts, delta, sum_vl) = tables_of::<TEST_DIM>(query);
    let estimate = block_estimate(query, delta, sum_vl);
    beam_search_rabitq(graph, fastscan, luts, estimate, start, beam_width, limit, rerank_n)
}

/// Creates a simple graph where each node connects to a few nearby nodes.
fn make_simple_graph(n: usize, max_degree: usize) -> ClassicGraph {
    let mut graph = ClassicGraph::new(n as IndexT, max_degree);
    for i in 0..n {
        for j in 1..=max_degree.min(n - 1) {
            let neighbor = (i + j) % n;
            if neighbor != i && graph.degree(i as IndexT) < max_degree {
                graph.add_edge(i as IndexT, neighbor as IndexT);
            }
        }
    }
    graph
}

#[test]
fn test_beam_search_rabitq_basic() {
    // Two blocks.
    let n = 64;
    let fastscan = index_of::<TEST_DIM>(&make_random_dataset(n, TEST_DIM, 42), n);
    let graph = make_simple_graph(n, 4);
    let query: Vec<f32> = (0..TEST_DIM)
        .map(|d| if d % 2 == 0 { 1.0 } else { -1.0 })
        .collect();

    let (results, num_scanned) = search_blocks(&graph, &fastscan, &query, 0, 10, None, None);

    assert!(!results.is_empty(), "Results should not be empty");
    assert!(results.len() <= 10, "Should not exceed beam width");
    assert!(num_scanned > 0, "Should have scanned at least one block");
    for &idx in &results {
        assert!(
            (idx as usize) < n,
            "Result index {} should be less than n={}",
            idx,
            n
        );
    }
}

#[test]
fn test_beam_search_rabitq_with_limit() {
    let n = 64;
    let fastscan = index_of::<TEST_DIM>(&make_random_dataset(n, TEST_DIM, 123), n);
    let graph = make_simple_graph(n, 4);
    let query: Vec<f32> = (0..TEST_DIM).map(|d| (d as f32) * 0.01).collect();

    let (results, num_scanned_limited) =
        search_blocks(&graph, &fastscan, &query, 0, 10, Some(5), None);
    let (_results_full, num_scanned_full) =
        search_blocks(&graph, &fastscan, &query, 0, 10, None, None);

    assert!(!results.is_empty());
    assert!(
        num_scanned_limited <= num_scanned_full,
        "Limited search should scan fewer blocks"
    );
}

#[test]
fn test_beam_search_rabitq_deterministic() {
    let n = 64;
    let fastscan = index_of::<TEST_DIM>(&make_random_dataset(n, TEST_DIM, 456), n);
    let graph = make_simple_graph(n, 4);
    let query: Vec<f32> = (0..TEST_DIM).map(|d| (d as f32) / 100.0).collect();

    let (results1, blocks1) = search_blocks(&graph, &fastscan, &query, 0, 10, None, None);
    let (results2, blocks2) = search_blocks(&graph, &fastscan, &query, 0, 10, None, None);

    assert_eq!(results1, results2, "Results should be deterministic");
    assert_eq!(blocks1, blocks2, "Block counts should be deterministic");
}

#[test]
fn test_beam_search_rabitq_block_efficiency() {
    // Four blocks.
    let n = 128;
    let fastscan = index_of::<TEST_DIM>(&make_random_dataset(n, TEST_DIM, 789), n);

    // All neighbors are in the same block.
    let mut graph = ClassicGraph::new(n as IndexT, 8);
    for i in 1..=8 {
        graph.add_edge(0, i as IndexT);
    }
    for i in 2..=9 {
        if i < n {
            graph.add_edge(1, i as IndexT);
        }
    }
    let query: Vec<f32> = vec![1.0; TEST_DIM];

    let (results, num_scanned) = search_blocks(&graph, &fastscan, &query, 0, 10, Some(3), None);

    assert!(
        num_scanned <= 2,
        "Should scan at most 2 blocks when neighbors are clustered, got {}",
        num_scanned
    );
    assert!(!results.is_empty());
}

#[test]
fn test_beam_search_rabitq_adds_all_block_distances() {
    // Exactly one block.
    let n = 32;
    let fastscan = index_of::<TEST_DIM>(&make_random_dataset(n, TEST_DIM, 111), n);
    let mut graph = ClassicGraph::new(n as IndexT, 2);
    graph.add_edge(0, 1);
    graph.add_edge(1, 0);
    let query: Vec<f32> = vec![0.5; TEST_DIM];

    let (results, num_scanned) = search_blocks(&graph, &fastscan, &query, 0, 32, None, None);

    assert_eq!(num_scanned, 1, "Should only scan 1 block");
    assert_eq!(
        results.len(),
        32,
        "Should return all 32 nodes from the single block"
    );
}

#[test]
fn test_beam_search_rabitq_different_start_nodes() {
    let n = 64;
    let fastscan = index_of::<TEST_DIM>(&make_random_dataset(n, TEST_DIM, 222), n);
    let graph = make_simple_graph(n, 4);
    let query: Vec<f32> = vec![1.0; TEST_DIM];

    let (results_0, _) = search_blocks(&graph, &fastscan, &query, 0, 10, None, None);
    let (results_32, _) = search_blocks(&graph, &fastscan, &query, 32, 10, None, None);

    assert!(!results_0.is_empty());
    assert!(!results_32.is_empty());
}

#[test]
fn test_scalar_oracle_matches_fastscan() {
    const DIM: usize = 128;
    let n = 64;
    let fastscan = index_of::<DIM>(&make_random_dataset(n, DIM, 42), n);
    let query: Vec<f32> = (0..DIM).map(|d| (d as f64 * 0.1).sin() as f32).collect();

    let (luts, delta, sum_vl) = tables_of::<DIM>(&query);
    let fastscan_oracle = fastscan.make_oracle(luts, block_estimate(&query, delta, sum_vl));
    let scalar_oracle = RabitqScalarOracle::<DIM, _>::new(&fastscan, nibble_estimate(&query));

    for block_idx in 0..fastscan.num_blocks() {
        let fastscan_distances = fastscan_oracle.compute_block_distances(block_idx);

        for &(idx, distance) in &fastscan_distances {
            if idx >= n {
                continue;
            }
            let fastscan_dist = f32::from_bits(distance.to_bits());
            let scalar_dist = f32::from_bits(scalar_oracle.compute_distance(idx).to_bits());

            // Quantization makes for some tolerance.
            let diff = (fastscan_dist - scalar_dist).abs();
            let relative_diff = if fastscan_dist.abs() > 1e-6 {
                diff / fastscan_dist.abs()
            } else {
                diff
            };

            assert!(
                relative_diff < 0.01 || diff < 0.1,
                "Distance mismatch at idx {}: fastscan={}, scalar={}, diff={}",
                idx,
                fastscan_dist,
                scalar_dist,
                diff
            );
        }
    }
}

#[test]
fn test_scalar_beam_search_basic() {
    const DIM: usize = 128;
    let n = 64;
    let fastscan = index_of::<DIM>(&make_random_dataset(n, DIM, 123), n);
    let graph = make_simple_graph(n, 4);
    let query: Vec<f32> = (0..DIM).map(|d| (d as f32) * 0.01).collect();

    let (scalar_results, _) = beam_search_rabitq_scalar(
        &graph,
        &fastscan,
        nibble_estimate(&query),
        0,
        10,
        None,
        None,
    );
    let (fastscan_results, _) = search_blocks(&graph, &fastscan, &query, 0, 10, None, None);

    assert!(
        !scalar_results.is_empty(),
        "Scalar search returned no results"
    );
    assert!(
        !fastscan_results.is_empty(),
        "FastScan search returned no results"
    );

    // There is significant overlap in the top results.
    let scalar_set: HashSet<_> = scalar_results.iter().take(5).collect();
    let fastscan_set: HashSet<_> = fastscan_results.iter().take(5).collect();
    let overlap = scalar_set.intersection(&fastscan_set).count();
    assert!(
        overlap >= 2,
        "Too little overlap between scalar and fastscan results: {} out of 5",
        overlap
    );
}

/// An index of 80 vectors whose distances are given by the first factor, in three
/// blocks.
fn ranked_index(order: &dyn Fn(usize) -> u32) -> RabitqFastScan<64> {
    let n = 80;
    let factors: Vec<VectorFactors> = (0..n)
        .map(|i| VectorFactors {
            f_add: order(i),
            f_rescale: 0,
            f_error: 0,
        })
        .collect();
    let dataset = VectorDataset::new(vec![0x3f80_0000; n * 64], n, 64);
    RabitqFastScan::<64>::from_f32_dataset_padded(&dataset, factors)
}

fn by_factor(factors: VectorFactors, _raw: u16) -> Distance {
    Distance::from_bits(factors.f_add)
}

fn by_factor_of_code(factors: VectorFactors, _nibbles: &Vec<u8>) -> Distance {
    Distance::from_bits(factors.f_add)
}

/// A path from node 0 to the last node.
fn path_graph(n: usize) -> ClassicGraph {
    let mut graph = ClassicGraph::new(n as IndexT, 2);
    for i in 1..n {
        graph.add_edge(i as IndexT - 1, i as IndexT);
    }
    graph
}

#[test]
fn scalar_search_walks_the_path() {
    let fastscan = ranked_index(&|i| 1000 - i as u32);
    let graph = path_graph(80);
    let (results, comparisons) =
        beam_search_rabitq_scalar(&graph, &fastscan, by_factor_of_code, 0, 3, None, None);
    assert_eq!(results, vec![79, 78, 77]);
    assert_eq!(comparisons, 80);
}

#[test]
fn scalar_search_stops_at_the_limit() {
    let fastscan = ranked_index(&|i| 1000 - i as u32);
    let graph = path_graph(80);
    let (results, comparisons) =
        beam_search_rabitq_scalar(&graph, &fastscan, by_factor_of_code, 0, 3, Some(5), None);
    assert_eq!(results, vec![5, 4, 3]);
    assert_eq!(comparisons, 6);
    let (results, comparisons) =
        beam_search_rabitq_scalar(&graph, &fastscan, by_factor_of_code, 7, 3, Some(0), None);
    assert_eq!(results, vec![7]);
    assert_eq!(comparisons, 1);
}

#[test]
fn scalar_search_turns_back_where_it_gets_worse() {
    // A beam of one: the second node is farther than the first, so it is dropped.
    let fastscan = ranked_index(&|i| 1000 + i as u32);
    let graph = path_graph(80);
    let (results, comparisons) =
        beam_search_rabitq_scalar(&graph, &fastscan, by_factor_of_code, 0, 1, None, None);
    assert_eq!(results, vec![0]);
    assert_eq!(comparisons, 2);
}

#[test]
fn reranking_keeps_more_candidates() {
    let fastscan = ranked_index(&|i| 1000 - i as u32);
    let graph = path_graph(80);
    let (results, _) =
        beam_search_rabitq_scalar(&graph, &fastscan, by_factor_of_code, 0, 2, None, Some(4));
    assert_eq!(results, vec![79, 78, 77, 76]);
    let (results, _) =
        beam_search_rabitq_scalar(&graph, &fastscan, by_factor_of_code, 0, 4, None, Some(1));
    assert_eq!(results, vec![79]);
}

#[test]
fn block_search_leaves_padding_out() {
    let fastscan = ranked_index(&|i| 1000 - i as u32);
    assert_eq!(fastscan.num_blocks(), 3);
    let graph = path_graph(80);
    let luts = vec![0u8; 16 * 16];
    let (results, blocks) =
        beam_search_rabitq(&graph, &fastscan, luts, by_factor, 0, 100, None, None);
    assert_eq!(blocks, 3);
    assert_eq!(results, (0..80u32).rev().collect::<Vec<_>>());
}

#[test]
fn limited_block_search_scans_no_more() {
    let fastscan = ranked_index(&|i| 1000 - i as u32);
    let graph = path_graph(80);
    let mut before = 0;
    for limit in 0..100 {
        let (_, blocks) = beam_search_rabitq(
            &graph,
            &fastscan,
            vec![0u8; 256],
            by_factor,
            0,
            2,
            Some(limit),
            None,
        );
        assert!(before <= blocks);
        before = blocks;
    }
    let (_, blocks) =
        beam_search_rabitq(&graph, &fastscan, vec![0u8; 256], by_factor, 0, 2, None, None);
    assert_eq!(before, blocks);
    assert_eq!(blocks, 3);
}

#[test]
fn state_of_a_search() {
    let fastscan = ranked_index(&|i| 1000 - i as u32);
    let graph = path_graph(80);
    let oracle = fastscan.make_oracle(vec![0u8; 256], by_factor);
    let (results, state) = beam_search_with_oracle(&graph, oracle, 0, 2, None, None);
    assert_eq!(results, vec![79, 78]);
    assert_eq!(state.num_scanned_blocks(), 3);
    assert_eq!(state.num_distance_comparisons(), 96);
    assert_eq!(state.max_valid_idx, 80);
    assert!(state.get_beam_snapshots().is_empty());
    // The nodes visited: the closest of each block, then on along the path.
    assert_eq!(state.beam.visited, vec![31, 63, 79, 78]);
    assert_eq!(state.beam.visited_count(), 4);
    // All neighbors of visited nodes have been seen.
    for &node in &state.beam.visited {
        for neighbor in graph.get_neighborhood(node) {
            assert!(state.seen.contains(neighbor));
        }
    }
    // Every vector of a scanned block has been seen, and no padding.
    for v in 0..96u32 {
        assert_eq!(state.seen.contains(&v), v < 80);
    }
    let copy = state.clone();
    assert_eq!(copy.num_scanned_blocks(), 3);
    assert_eq!(copy.beam.get_results(), state.beam.get_results());
}

#[test]
fn states_can_be_used_again() {
    let fastscan = ranked_index(&|i| 1000 - i as u32);
    let graph = path_graph(80);
    let mut state = OracleBeamState::new_fastscan(
        &fastscan,
        vec![0u8; 256],
        by_factor as fn(VectorFactors, u16) -> Distance,
        40,
        2,
        None,
        None,
    );
    assert_eq!(state.num_scanned_blocks(), 1);
    assert_eq!(state.num_distance_comparisons(), 32);
    assert_eq!(state.beam.get_results(), vec![63, 62]);
    for _ in 0..2 {
        let (results, blocks) = beam_search_rabitq_with_state(
            &graph,
            &fastscan,
            vec![0u8; 256],
            by_factor as fn(VectorFactors, u16) -> Distance,
            0,
            &mut state,
        );
        assert_eq!(results, vec![79, 78]);
        assert_eq!(blocks, 3);
        assert_eq!(state.num_distance_comparisons(), 96);
    }

    let mut state = OracleBeamState::new_scalar(
        &fastscan,
        by_factor_of_code as fn(VectorFactors, &Vec<u8>) -> Distance,
        70,
        2,
        None,
        None,
    );
    assert_eq!(state.num_distance_comparisons(), 1);
    for _ in 0..2 {
        let (results, comparisons) = beam_search_rabitq_scalar_with_state(
            &graph,
            &fastscan,
            by_factor_of_code as fn(VectorFactors, &Vec<u8>) -> Distance,
            70,
            &mut state,
        );
        assert_eq!(results, vec![79, 78]);
        assert_eq!(comparisons, 10);
    }
}

#[test]
fn steps_of_a_search() {
    let fastscan = ranked_index(&|i| 1000 - i as u32);
    let graph = path_graph(80);
    let oracle = RabitqScalarOracle::new(&fastscan, by_factor_of_code);
    let wrapper = ClassicGraphWithOracle::new(&graph);
    let mut state = OracleBeamState::new(oracle, 3, 2, Some(2), None);
    assert_eq!(wrapper.next_node(&mut state), Some(3));
    wrapper.expand_node(&mut state, 3);
    assert_eq!(wrapper.get_results(&mut state), vec![4, 3]);
    assert_eq!(wrapper.next_node(&mut state), Some(4));
    wrapper.expand_node(&mut state, 4);
    assert_eq!(wrapper.next_node(&mut state), None);
    assert_eq!(wrapper.get_results(&mut state), vec![5, 4]);
    assert_eq!(wrapper.name(), "ClassicGraph(O)");
    assert_eq!(graph.name(), "ClassicGraph");
    assert_eq!(state.oracle.name(), "RabitqScalarOracle");
}

#[test]
fn fast_scan_oracle_processes_neighbors() {
    let fastscan = ranked_index(&|i| 1000 - i as u32);
    let oracle = RabitqFastScanOracle::new(&fastscan, vec![0u8; 256], by_factor);
    assert_eq!(oracle.name(), "RabitqFastScanOracle");
    assert_eq!(oracle.luts().len(), 256);
    assert_eq!(oracle.fastscan().len(), 80);
    assert_eq!(oracle.max_valid_idx(), 80);
    assert_eq!(oracle.num_blocks(), 3);
    let mut seen = SeenSet::new(80);
    let mut scanned = SeenSet::new(3);
    seen.insert(33);
    let (initial, additional, comparisons) = oracle.initialize(33, &mut seen, &mut scanned);
    assert_eq!(initial, Distance::from_bits(967));
    assert_eq!(comparisons, 32);
    assert_eq!(additional.len(), 31);
    assert_eq!(additional[0], (32, Distance::from_bits(968)));
    assert_eq!(additional[1], (34, Distance::from_bits(966)));
    // The block of 33 has been scanned; those of 70 and 2 follow in ascending order.
    assert_eq!(unscanned_blocks(&[70, 2, 33, 64], &scanned), vec![0, 2]);
    let mut frontier = Vec::new();
    let comparisons = oracle.process_neighbors(
        &[70, 2, 33, 64],
        &mut seen,
        &mut scanned,
        &mut frontier,
        Some(Distance::from_bits(970)),
    );
    assert_eq!(comparisons, 64);
    // Closer than the cutoff: 31 of the first block, and all 16 of the last.
    let ids: Vec<u32> = frontier.iter().map(|&(id, _)| id).collect();
    assert_eq!(ids[0], 31);
    assert_eq!(ids[1..], (64..80u32).collect::<Vec<_>>());
    assert!(seen.contains(&5));
    assert_eq!(seen.len(), 80);
    assert_eq!(scanned.len(), 3);
}

#[test]
fn fast_scan_oracle_processes_ranges() {
    let fastscan = ranked_index(&|i| 1000 - i as u32);
    let oracle = RabitqFastScanOracle::new(&fastscan, vec![0u8; 256], by_factor);
    let mut seen = SeenSet::new(80);
    let mut scanned = SeenSet::new(3);
    let mut frontier = Vec::new();
    assert_eq!(
        oracle.process_range(5..5, &mut seen, &mut scanned, &mut frontier, None),
        0
    );
    assert!(frontier.is_empty());
    // Blocks 1 and 2; padding is not left out.
    let comparisons = oracle.process_range(63..65, &mut seen, &mut scanned, &mut frontier, None);
    assert_eq!(comparisons, 64);
    assert_eq!(frontier.len(), 64);
    assert_eq!(frontier[63], (95, Distance::from_bits(0)));
    // Once more, nothing is left to scan.
    let comparisons = oracle.process_range(63..65, &mut seen, &mut scanned, &mut frontier, None);
    assert_eq!(comparisons, 0);
    assert_eq!(oracle.compute_distance(77), Distance::from_bits(923));
}

#[test]
fn distances_that_are_no_numbers_are_no_candidates() {
    // Infinity and what is no number are not less than infinity.
    let fastscan = ranked_index(&|i| match i {
        40 => 0x7f80_0000,
        41 => 0x7fc0_0000,
        _ => 1,
    });
    let oracle = RabitqFastScanOracle::new(&fastscan, vec![0u8; 256], by_factor);
    let mut seen = SeenSet::new(80);
    let mut scanned = SeenSet::new(3);
    let mut frontier = Vec::new();
    oracle.process_neighbors(&[40], &mut seen, &mut scanned, &mut frontier, None);
    assert_eq!(frontier.len(), 30);
    assert!(seen.contains(&40) && seen.contains(&41));
}

#[test]
fn scalar_oracle_processes_neighbors() {
    let fastscan = ranked_index(&|i| 1000 - i as u32);
    let oracle = RabitqScalarOracle::new(&fastscan, by_factor_of_code);
    assert_eq!(oracle.fastscan().len(), 80);
    assert_eq!(RabitqScalarOracle::max_valid_idx(&oracle), 80);
    assert_eq!(oracle.num_blocks(), 0);
    let mut seen = SeenSet::new(80);
    let mut scanned = SeenSet::new(1);
    let mut frontier = vec![(9u32, Distance::from_bits(9))];
    // 80 is padding, 7 comes twice, and 1 is too far.
    let comparisons = oracle.process_neighbors(
        &[7, 80, 7, 1, 8],
        &mut seen,
        &mut scanned,
        &mut frontier,
        Some(Distance::from_bits(994)),
    );
    assert_eq!(comparisons, 3);
    assert_eq!(
        frontier,
        vec![
            (9, Distance::from_bits(9)),
            (7, Distance::from_bits(993)),
            (8, Distance::from_bits(992))
        ]
    );
    assert!(seen.contains(&1));
    let comparisons = oracle.process_range(6..10, &mut seen, &mut scanned, &mut frontier, None);
    assert_eq!(comparisons, 2);
    assert_eq!(frontier.len(), 5);
    assert_eq!(frontier[3].0, 6);
    assert_eq!(frontier[4].0, 9);
    assert_eq!(
        oracle.process_range(6..6, &mut seen, &mut scanned, &mut frontier, None),
        0
    );
}

#[test]
fn nibbles_of_a_vector() {
    // Components 0, 5 and 63 are positive, all others are not.
    let mut data = vec![0x8000_0000u32; 64];
    data[0] = 0x3f80_0000;
    data[5] = 0x0000_0001;
    data[63] = 0x7f80_0000;
    let dataset = VectorDataset::new(data, 1, 64);
    let fastscan =
        RabitqFastScan::<64>::from_f32_dataset_padded(&dataset, vec![VectorFactors::default()]);
    let oracle = RabitqScalarOracle::new(&fastscan, by_factor_of_code);
    let nibbles = oracle.nibbles(0);
    assert_eq!(nibbles.len(), 16);
    assert_eq!(nibbles[0], 8);
    assert_eq!(nibbles[1], 4);
    assert_eq!(nibbles[15], 1);
    assert_eq!(nibbles[2..15], [0; 13]);
    // The oracle that scans blocks adds the entries that the same nibbles select.
    let luts: Vec<u8> = (0..256).map(|i| (i % 251) as u8).collect();
    let expected: u16 = nibbles
        .iter()
        .enumerate()
        .map(|(k, &nibble)| luts[16 * k + nibble as usize] as u16)
        .sum();
    let oracle = RabitqFastScanOracle::new(&fastscan, luts, by_factor);
    assert_eq!(oracle.compute_block_raw(0)[0], expected);
}

#[test]
fn comparing_blocks() {
    let fastscan = ranked_index(&|i| 1000 - i as u32);
    let oracle = RabitqFastScanOracle::new(&fastscan, vec![0u8; 256], by_factor);
    let block = oracle.compare(1);
    assert_eq!(block.len(), 32);
    assert_eq!(block[0], (32, Distance::from_bits(968)));
    let batch = oracle.compare_batch(&[2, 0]);
    assert_eq!(batch.len(), 64);
    assert_eq!(batch[0], (64, Distance::from_bits(936)));
    assert_eq!(batch[32], (0, Distance::from_bits(1000)));
}

#[test]
fn classic_search_over_blocks() {
    // A graph whose neighbors are blocks.
    let fastscan = ranked_index(&|i| 1000 - i as u32);
    let oracle = RabitqFastScanOracle::new(&fastscan, vec![0u8; 256], by_factor);
    let mut graph = ClassicGraph::new(96, 2);
    graph.add_edge(0, 1);
    graph.add_edge(63, 2);
    let mut state = ClassicBeamState::new(oracle, 0, 2, None, Distance::from_bits(1000), 96);
    graph.beam_search(&mut state);
    // Padding vectors have distance zero; they come from the last block.
    assert_eq!(graph.get_results(&mut state), vec![80, 81]);
    assert_eq!(
        *state.get_beam_snapshots(),
        vec![vec![63, 62], vec![80, 81], vec![80, 81], vec![80, 81]]
    );
    let copy = state.clone();
    assert_eq!(copy.beam.visited, vec![0, 63, 80, 81]);
}

#[test]
fn classic_search_of_width_zero_keeps_the_start() {
    let fastscan = ranked_index(&|i| 1000 - i as u32);
    let oracle = RabitqFastScanOracle::new(&fastscan, vec![0u8; 256], by_factor);
    let graph = ClassicGraph::new(4, 2);
    let mut state = ClassicBeamState::new(oracle, 3, 0, None, Distance::from_bits(5), 4);
    assert_eq!(state.beam.get_results(), vec![3]);
    graph.beam_search(&mut state);
    assert_eq!(state.beam.visited, vec![3]);
    assert!(graph.get_results(&mut state).is_empty());
}

#[test]
fn batches_skip_what_has_been_seen() {
    let mut seen = SeenSet::new(10);
    seen.insert(4);
    seen.insert(5);
    let fastscan = ranked_index(&|i| i as u32);
    let oracle = RabitqFastScanOracle::new(&fastscan, vec![0u8; 256], by_factor);
    let mut state = ClassicBeamState::new(oracle, 0, 9, None, Distance::from_bits(9), 10);
    // 4 has been seen before, 5 is what the batch was made for, 6 is new.
    let batch = vec![
        (4usize, Distance::from_bits(1)),
        (5usize, Distance::from_bits(3)),
        (6usize, Distance::from_bits(2)),
    ];
    absorb_batch(&batch, &vec![5], &mut seen, &mut state.beam);
    assert_eq!(state.beam.get_results(), vec![6, 5, 0]);
    assert!(seen.contains(&6));
}

#[test]
fn beginning_with_other_sets() {
    let fastscan = ranked_index(&|i| 1000 - i as u32);
    let oracle = RabitqFastScanOracle::new(&fastscan, vec![0u8; 256], by_factor);
    // The start has not been seen, another vector of its block has, and blocks have
    // been scanned.
    let mut seen = SeenSet::new(80);
    let mut scanned = SeenSet::new(3);
    seen.insert(70);
    scanned.insert(0);
    scanned.insert(2);
    let (initial, additional, comparisons) = oracle.initialize(66, &mut seen, &mut scanned);
    assert_eq!(initial, Distance::from_bits(934));
    assert_eq!(comparisons, 32);
    let ids: Vec<u32> = additional.iter().map(|&(id, _)| id).collect();
    assert_eq!(ids, [64, 65, 67, 68, 69, 71, 72, 73, 74, 75, 76, 77, 78, 79]);
    assert!(!seen.contains(&66));
    assert_eq!(scanned.len(), 2);

    let oracle = RabitqScalarOracle::new(&fastscan, by_factor_of_code);
    let mut seen = SeenSet::new(80);
    seen.insert(5);
    let (initial, additional, comparisons) = oracle.initialize(66, &mut seen, &mut scanned);
    assert_eq!((initial, comparisons), (Distance::from_bits(934), 1));
    assert!(additional.is_empty());
    assert_eq!((seen.len(), scanned.len()), (1, 2));
}

#[test]
fn processing_with_other_sets() {
    let fastscan = ranked_index(&|i| 1000 - i as u32);
    let oracle = RabitqFastScanOracle::new(&fastscan, vec![0u8; 256], by_factor);
    // Block 0 counts as scanned though its vectors have not been seen, and so does a
    // block beyond the last one.
    let mut seen = SeenSet::new(80);
    let mut scanned = SeenSet::new(3);
    scanned.insert(0);
    scanned.insert(9);
    seen.insert(33);
    let mut frontier = Vec::new();
    let comparisons =
        oracle.process_neighbors(&[3, 40, 300], &mut seen, &mut scanned, &mut frontier, None);
    assert_eq!(comparisons, 32);
    assert_eq!(frontier.len(), 31);
    assert!(!seen.contains(&3));
    // Once more, nothing is left to do.
    let comparisons =
        oracle.process_neighbors(&[3, 40, 300], &mut seen, &mut scanned, &mut frontier, None);
    assert_eq!((comparisons, frontier.len(), seen.len()), (0, 31, 32));

    let oracle = RabitqScalarOracle::new(&fastscan, by_factor_of_code);
    let mut seen = SeenSet::new(80);
    seen.insert(1000);
    let mut frontier = Vec::new();
    let comparisons =
        oracle.process_neighbors(&[1000, 7], &mut seen, &mut scanned, &mut frontier, None);
    assert_eq!((comparisons, frontier.len()), (1, 1));
}

#[test]
fn ranges_without_padding_are_their_numbers() {
    let factors: Vec<VectorFactors> = (0..96)
        .map(|i| VectorFactors { f_add: 500 - i, f_rescale: 0, f_error: 0 })
        .collect();
    let fastscan = RabitqFastScan::<64>::from_binary_codes(vec![0u64; 96], factors);
    let oracle = RabitqFastScanOracle::new(&fastscan, vec![0u8; 256], by_factor);
    for (start, end) in [(0u32, 96u32), (5, 6), (31, 33), (40, 40), (63, 96)] {
        let mut sets = Vec::new();
        for _ in 0..2 {
            let mut seen = SeenSet::new(96);
            let mut scanned = SeenSet::new(3);
            seen.insert(35);
            scanned.insert(0);
            sets.push((seen, scanned, vec![(7u32, Distance::from_bits(1))]));
        }
        let (seen, scanned, frontier) = &mut sets[0];
        let cutoff = Some(Distance::from_bits(460));
        let one = oracle.process_range(start..end, seen, scanned, frontier, cutoff);
        let numbers: Vec<u32> = (start..end).collect();
        let (seen, scanned, frontier) = &mut sets[1];
        let other = oracle.process_neighbors(&numbers, seen, scanned, frontier, cutoff);
        assert_eq!(one, other);
        assert_eq!(sets[0].2, sets[1].2);
        for v in 0..96 {
            assert_eq!(sets[0].0.contains(&v), sets[1].0.contains(&v));
        }
        for block in 0..3 {
            assert_eq!(sets[0].1.contains(&block), sets[1].1.contains(&block));
        }
    }
}

#[test]
fn resetting_is_like_beginning_anew() {
    let fastscan = ranked_index(&|i| 1000 - i as u32);
    let graph = path_graph(80);
    let oracle = fastscan.make_oracle(vec![0u8; 256], by_factor);
    let (_, mut state) = beam_search_with_oracle(&graph, oracle.clone(), 0, 3, Some(9), Some(5));
    state.reset_for_query(oracle.clone(), 40);
    let fresh = OracleBeamState::new(oracle, 40, 3, Some(9), Some(5));
    assert_eq!(state.beam.entries, fresh.beam.entries);
    assert_eq!(state.beam.visited, fresh.beam.visited);
    assert_eq!(state.num_scanned_blocks(), fresh.num_scanned_blocks());
    assert_eq!(state.num_distance_comparisons(), fresh.num_distance_comparisons());
    for v in 0..96 {
        assert_eq!(state.seen.contains(&v), fresh.seen.contains(&v));
    }
    assert_eq!((state.beam_width, state.limit, state.rerank_n), (3, Some(9), Some(5)));
    assert_eq!(state.max_valid_idx, 80);
}

#[test]
fn searches_with_an_oracle_agree_with_those_that_make_one() {
    let fastscan = ranked_index(&|i| 1000 - i as u32);
    let graph = path_graph(80);
    for limit in [None, Some(1), Some(2)] {
        let (ids, blocks) = beam_search_rabitq(
            &graph,
            &fastscan,
            vec![0u8; 256],
            by_factor,
            0,
            4,
            limit,
            Some(6),
        );
        let oracle = fastscan.make_oracle(vec![0u8; 256], by_factor);
        let (results, state) = beam_search_with_oracle(&graph, oracle, 0, 4, limit, Some(6));
        assert_eq!(results, ids);
        assert_eq!(state.num_scanned_blocks(), blocks);
        assert_eq!(state.num_distance_comparisons(), 32 * blocks);
        assert_eq!(results.len(), 6);
    }
}

#[test]
fn copies_of_states_keep_the_snapshots() {
    let fastscan = ranked_index(&|i| 1000 - i as u32);
    let oracle = RabitqFastScanOracle::new(&fastscan, vec![0u8; 256], by_factor);
    let mut graph = ClassicGraph::new(96, 2);
    graph.add_edge(0, 1);
    let mut state = ClassicBeamState::new(oracle.clone(), 0, 2, None, Distance::from_bits(1000), 96);
    graph.beam_search(&mut state);
    assert!(!state.get_beam_snapshots().is_empty());
    assert_eq!(state.clone().get_beam_snapshots(), state.get_beam_snapshots());
    let mut state = OracleBeamState::new(oracle, 0, 2, None, None);
    state.beam_snapshots.push(vec![1, 2]);
    assert_eq!(*state.clone().get_beam_snapshots(), vec![vec![1, 2]]);
}

#[test]
fn raw_results_of_quantized_tables() {
    // Levels out of range are clamped; the raw sums are those of the reference scan.
    let fastscan = index_of::<TEST_DIM>(&make_random_dataset(64, TEST_DIM, 5), 64);
    let levels: Vec<i32> = (0..512).map(|i| (i * 37) % 700 - 200).collect();
    let luts = quantized_tables::<TEST_DIM>(&levels);
    assert_eq!(luts[0], 0);
    assert_eq!(luts[6], 22);
    assert_eq!(luts[13], 255);
    let mut expected = vec![0u16; 64];
    fast_scan_reference::<TEST_DIM>(fastscan.packed_codes(), &luts, &mut expected);
    let oracle = RabitqFastScanOracle::new(&fastscan, luts, by_factor);
    for block in 0..2 {
        let mut of_block = vec![0u16; 32];
        let size = fastscan.block_size_bytes();
        fast_scan_reference::<TEST_DIM>(
            &fastscan.packed_codes()[block * size..(block + 1) * size],
            oracle.luts(),
            &mut of_block,
        );
        assert_eq!(oracle.compute_block_raw(block)[..], of_block[..]);
        assert_eq!(of_block[..], expected[32 * block..32 * block + 32]);
    }
}
