use rabitq::classic_graph::{ClassicGraph, EdgeRange, Graph, MutableGraph, VectorGraph};
use rabitq::graph_format::ReadError;
use rabitq::sorting::insertion_sort;

fn small_graph() -> ClassicGraph {
    let mut graph = ClassicGraph::new(4, 3);
    graph.add_edge(0, 2);
    graph.add_edge(0, 1);
    graph.add_undirected_edge(3, 0);
    graph
}

#[test]
fn edges_are_kept_in_order() {
    let graph = small_graph();
    assert_eq!(graph.size(), 4);
    assert_eq!(graph.max_degree(), 3);
    assert_eq!(graph.get_neighborhood(0), [2, 1, 3]);
    assert!(graph.get_neighborhood(1).is_empty());
    assert_eq!(graph.index(3), [0]);
    assert_eq!(graph.degree(0), 3);
    assert_eq!(graph.neighbors(0), [2, 1, 3]);
}

#[test]
fn neighborhoods_can_be_changed() {
    let mut graph = small_graph();
    graph.set_neighborhood(1, &[9, 8]);
    assert_eq!(graph.get_neighborhood(1), [9, 8]);
    graph.append_neighbors(1, &[7]);
    assert_eq!(graph.get_neighborhood(1), [9, 8, 7]);
    graph.clear_neighborhood(0);
    assert_eq!(graph.degree(0), 0);
    assert_eq!(graph.get_neighborhood(1), [9, 8, 7]);
    assert_eq!(graph.get_neighborhood(3), [0]);
    graph.add_neighbor(0, 3);
    MutableGraph::set_neighborhood(&mut graph, 2, &[]);
    assert_eq!(graph.get_neighborhood(0), [3]);
    assert!(graph.get_neighborhood(2).is_empty());
}

#[test]
fn neighborhoods_can_be_sorted() {
    let mut graph = small_graph();
    graph.sort_neighborhood(0, |a, b| a.cmp(b));
    assert_eq!(graph.get_neighborhood(0), [1, 2, 3]);
    graph.sort_neighborhood(0, |a, b| b.cmp(a));
    assert_eq!(graph.get_neighborhood(0), [3, 2, 1]);
    assert_eq!(graph.get_neighborhood(3), [0]);
}

#[test]
fn sorting_is_stable() {
    let mut items = vec![31, 12, 11, 32, 22, 21];
    insertion_sort(&mut items, |a, b| (a / 10).cmp(&(b / 10)));
    assert_eq!(items, vec![12, 11, 22, 21, 31, 32]);
    let mut none: Vec<u32> = Vec::new();
    insertion_sort(&mut none, |a, b| a.cmp(b));
    assert!(none.is_empty());
}

#[test]
fn footprints() {
    let graph = small_graph();
    assert_eq!(graph.naive_footprint(), 4 * 4 * 4);
    assert_eq!(graph.efficient_footprint(), (4 + 4) * 4);
    assert_eq!(ClassicGraph::new(0, 5).naive_footprint(), 0);
}

#[test]
fn ranges_of_edges() {
    let graph = small_graph();
    let range = graph.get_edge_range(0);
    assert_eq!(range.size(), 3);
    assert_eq!(range.id(), 0);
    assert_eq!(*range.index(2), 3);
    range.prefetch();
    let other = EdgeRange::new(&[5, 6], 9);
    assert_eq!((other.size(), other.id(), *other.index(0)), (2, 9, 5));
}

#[test]
fn graphs_of_vectors() {
    let graph = small_graph().into_vector_graph();
    assert_eq!(graph.neighborhoods, vec![vec![2, 1, 3], vec![], vec![], vec![0]]);
    assert_eq!(graph.neighbors(0), [2, 1, 3]);
    let other = VectorGraph::new(vec![vec![1]]);
    assert_eq!(other.neighbors(0), [1]);
}

#[test]
fn bytes_of_a_graph() {
    let bytes = small_graph().save();
    let words: Vec<u32> = vec![4, 3, 3, 0, 0, 1, 2, 1, 3, 0];
    let expected: Vec<u8> = words.iter().flat_map(|w| w.to_le_bytes()).collect();
    assert_eq!(bytes, expected);
}

#[test]
fn reading_undoes_saving() {
    let graph = small_graph();
    let bytes = graph.save();
    assert!(ClassicGraph::can_read(&bytes));
    let back = match ClassicGraph::read(&bytes) {
        Ok(back) => back,
        Err(_) => panic!("a saved graph is complete"),
    };
    assert_eq!(back.n, 4);
    assert_eq!(back.r, 3);
    assert_eq!(back.edges, graph.edges);
    // Bytes at the end are ignored.
    let mut longer = bytes.clone();
    longer.push(1);
    assert!(ClassicGraph::read(&longer).is_ok());
}

#[test]
fn files_of_graphs_that_end_early() {
    let bytes = small_graph().save();
    for len in 0..bytes.len() {
        assert!(ClassicGraph::can_read(&bytes[..len]));
        match ClassicGraph::read(&bytes[..len]) {
            Ok(_) => panic!("{} bytes are no graph", len),
            Err(error) => assert_eq!(error, ReadError::UnexpectedEof),
        }
    }
}

#[test]
fn files_of_graphs_whose_rows_do_not_fit() {
    // One node with three neighbors and a degree limit of one: the row is too short.
    let words: Vec<u32> = vec![1, 1, 3, 0, 0, 0];
    let bytes: Vec<u8> = words.iter().flat_map(|w| w.to_le_bytes()).collect();
    assert!(!ClassicGraph::can_read(&bytes));
}

#[test]
fn sound_and_unsound_graphs() {
    let mut graph = small_graph();
    assert!(graph.is_sound());
    // A degree beyond the limit.
    graph.edges[0] = 4;
    assert!(!graph.is_sound());
    graph.edges[0] = 3;
    graph.edges.pop();
    assert!(!graph.is_sound());
    assert!(ClassicGraph::new(0, 7).is_sound());
}
