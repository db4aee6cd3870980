//! A directed graph with a limit on the degree, stored in one flat array.
//!
//! Node `i` owns a row of `r + 1` slots: its degree, then room for `r` neighbors.

use std::cmp::Ordering;
use vstd::prelude::*;
use vstd::slice::{slice_subrange, slice_to_vec};

use crate::sorting::{insertion_sort, sorted_by};

verus! {

/// A node of a graph.
pub type IndexT = u32;

/// A graph with `n` nodes, each with at most `r` neighbors.
pub struct ClassicGraph {
    pub edges: Vec<IndexT>,
    pub n: IndexT,
    pub r: usize,
}

/// Rows of the same width do not overlap.
pub proof fn lemma_rows(i: int, j: int, width: int)
    requires
        0 <= i < j,
        0 <= width,
    ensures
        0 <= i * width,
        i * width + width <= j * width,
{
    assert(0 <= i * width && i * width + width <= j * width) by (nonlinear_arith)
        requires
            0 <= i,
            i + 1 <= j,
            0 <= width,
    ;
}

/// Overwrites part of a vector.
pub(crate) fn copy_into(slots: &mut Vec<IndexT>, start: usize, source: &[IndexT])
    requires
        start + source@.len() <= old(slots)@.len(),
    ensures
        final(slots)@.len() == old(slots)@.len(),
        forall|p: int|
            0 <= p < final(slots)@.len() ==> #[trigger] final(slots)@[p] == (if start <= p < start
                + source@.len() {
                source@[p - start]
            } else {
                old(slots)@[p]
            }),
{
    let ghost before = slots@;
    let len = source.len();
    for k in 0..len
        invariant
            len == source@.len(),
            start + len <= before.len(),
            slots@.len() == before.len(),
            slots.len() == before.len(),
            forall|p: int|
                0 <= p < slots@.len() ==> #[trigger] slots@[p] == (if start <= p < start + k {
                    source@[p - start]
                } else {
                    before[p]
                }),
    {
        slots[start + k] = source[k];
    }
}

impl ClassicGraph {
    /// All slots of the graph, row after row.
    pub open spec fn slots(&self) -> Seq<IndexT> {
        self.edges@
    }

    /// First slot of the row of node `i`.
    pub open spec fn row(&self, i: IndexT) -> int {
        i * (self.r + 1)
    }

    /// Whether the slots are `n` rows, and no degree exceeds the limit.
    pub open spec fn wf(&self) -> bool {
        &&& self.r < usize::MAX
        &&& self.slots().len() == self.n * (self.r + 1)
        &&& self.slots().len() <= usize::MAX
        &&& forall|i: IndexT| i < self.n ==> #[trigger] self.slots()[self.row(i)] <= self.r
    }

    /// The neighbors of node `i`, in the order they are stored.
    pub open spec fn neighborhood(&self, i: IndexT) -> Seq<IndexT> {
        self.slots().subrange(
            self.row(i) + 1,
            self.row(i) + 1 + self.slots()[self.row(i)],
        )
    }

    /// Whether the graphs have the same nodes and limit, and the same neighbors
    /// everywhere but at node `i`.
    pub open spec fn same_but(&self, other: &ClassicGraph, i: IndexT) -> bool {
        &&& self.n == other.n
        &&& self.r == other.r
        &&& forall|j: IndexT|
            j < self.n && j != i ==> #[trigger] self.neighborhood(j) == other.neighborhood(j)
    }

    /// A change within one row keeps the rest of the graph.
    proof fn lemma_row_change(&self, other: &ClassicGraph, i: IndexT)
        requires
            self.wf(),
            other.n == self.n,
            other.r == self.r,
            i < self.n,
            other.slots().len() == self.slots().len(),
            forall|p: int|
                0 <= p < self.slots().len() && !(self.row(i) <= p < self.row(i) + self.r + 1)
                    ==> #[trigger] other.slots()[p] == self.slots()[p],
            other.slots()[self.row(i)] <= self.r,
        ensures
            other.wf(),
            other.same_but(self, i),
            0 <= self.row(i),
            self.row(i) + self.r + 1 <= self.slots().len(),
    {
        let width = self.r + 1;
        lemma_rows(i as int, self.n as int, width);
        assert forall|j: IndexT| j < self.n && j != i implies #[trigger] other.slots()[other.row(j)]
            == self.slots()[self.row(j)] && other.neighborhood(j) == self.neighborhood(j) by {
            lemma_rows(j as int, self.n as int, width);
            if j < i {
                lemma_rows(j as int, i as int, width);
            } else {
                lemma_rows(i as int, j as int, width);
            }
            assert(self.slots()[self.row(j)] <= self.r);
            assert(other.neighborhood(j) =~= self.neighborhood(j));
        }
        assert forall|j: IndexT| j < other.n implies #[trigger] other.slots()[other.row(j)]
            <= other.r by {
            if j != i {
                assert(other.slots()[other.row(j)] == self.slots()[self.row(j)]);
            }
        }
        assert forall|j: IndexT| j < other.n && j != i implies #[trigger] other.neighborhood(j)
            == self.neighborhood(j) by {
            assert(other.slots()[other.row(j)] == self.slots()[self.row(j)]);
        }
    }

    /// The row of a node lies within the slots.
    proof fn lemma_row_fits(&self, i: IndexT)
        requires
            self.wf(),
            i < self.n,
        ensures
            0 <= self.row(i),
            self.row(i) + self.r + 1 <= self.slots().len(),
            self.slots()[self.row(i)] <= self.r,
            self.neighborhood(i).len() == self.slots()[self.row(i)],
    {
        lemma_rows(i as int, self.n as int, self.r + 1);
        assert(self.slots()[self.row(i)] <= self.r);
    }

    /// A graph with `n` nodes and no edges.
    pub fn new(n: IndexT, r: usize) -> (graph: ClassicGraph)
        requires
            r < usize::MAX,
            n * (r + 1) <= usize::MAX,
        ensures
            graph.wf(),
            graph.n == n,
            graph.r == r,
            forall|i: IndexT| i < n ==> #[trigger] graph.neighborhood(i) == Seq::<IndexT>::empty(),
    {
        let entries_per_node = r + 1;
        let edges: Vec<IndexT> = vec![0;n as usize * entries_per_node];
        let graph = ClassicGraph { edges, n, r };
        proof {
            assert forall|i: IndexT| i < n implies #[trigger] graph.slots()[graph.row(i)] == 0
                && graph.neighborhood(i) == Seq::<IndexT>::empty() by {
                lemma_rows(i as int, n as int, r + 1);
                assert(graph.neighborhood(i) =~= Seq::<IndexT>::empty());
            }
            assert forall|i: IndexT| i < n implies #[trigger] graph.neighborhood(i) == Seq::<
                IndexT,
            >::empty() by {
                assert(graph.slots()[graph.row(i)] == 0);
            }
        }
        graph
    }

    fn offset(&self, i: IndexT) -> (at: usize)
        requires
            self.r < usize::MAX,
            self.row(i) <= usize::MAX,
        ensures
            at == self.row(i),
    {
        (i as usize) * (self.r + 1)
    }

    fn degree_at(&self, i: IndexT) -> (degree: usize)
        requires
            self.wf(),
            i < self.n,
        ensures
            degree == self.neighborhood(i).len(),
    {
        proof {
            self.lemma_row_fits(i);
        }
        self.edges[self.offset(i)] as usize
    }

    /// Whether the slots are `n` rows, and no degree exceeds the limit.
    pub fn is_sound(&self) -> (sound: bool)
        ensures
            sound == self.wf(),
    {
        assert(self.edges.len() == self.slots().len());
        if self.r == usize::MAX {
            return false;
        }
        let width = self.r + 1;
        assert(self.n as u128 * width as u128 <= u128::MAX) by (nonlinear_arith)
            requires
                0 <= self.n <= 0xffff_ffff,
                0 <= width <= 0xffff_ffff_ffff_ffff,
        ;
        if self.edges.len() as u128 != self.n as u128 * width as u128 {
            return false;
        }
        for i in 0..self.n
            invariant
                width == self.r + 1,
                self.edges@.len() == self.n * width,
                self.edges.len() == self.edges@.len(),
                forall|j: IndexT| j < i ==> #[trigger] self.slots()[self.row(j)] <= self.r,
        {
            proof {
                lemma_rows(i as int, self.n as int, width as int);
            }
            if self.edges[i as usize * width] as usize > self.r {
                assert(self.slots()[self.row(i)] > self.r);
                return false;
            }
        }
        true
    }

    /// The neighbors of a node.
    pub fn get_neighborhood(&self, i: IndexT) -> (neighbors: &[IndexT])
        requires
            self.wf(),
            i < self.n,
        ensures
            neighbors@ == self.neighborhood(i),
    {
        proof {
            self.lemma_row_fits(i);
        }
        let offset = self.offset(i);
        let degree = self.edges[offset] as usize;
        slice_subrange(self.edges.as_slice(), offset + 1, offset + 1 + degree)
    }

    /// The neighbors of a node, in the order they are stored.
    pub fn index(&self, index: IndexT) -> (neighbors: &[IndexT])
        requires
            self.wf(),
            index < self.n,
        ensures
            neighbors@ == self.neighborhood(index),
    {
        self.get_neighborhood(index)
    }

    /// Overwrites the neighbors of a node.
    pub fn set_neighborhood(&mut self, i: IndexT, neighborhood: &[IndexT])
        requires
            old(self).wf(),
            i < old(self).n,
            neighborhood@.len() <= old(self).r,
            neighborhood@.len() <= IndexT::MAX,
        ensures
            final(self).wf(),
            final(self).same_but(old(self), i),
            final(self).neighborhood(i) == neighborhood@,
    {
        proof {
            self.lemma_row_fits(i);
        }
        let offset = self.offset(i);
        let degree = neighborhood.len() as IndexT;
        self.edges[offset] = degree;
        copy_into(&mut self.edges, offset + 1, neighborhood);
        proof {
            old(self).lemma_row_change(self, i);
            assert(self.neighborhood(i) =~= neighborhood@);
        }
    }

    /// Adds a neighbor to a node.
    pub fn add_edge(&mut self, from: IndexT, to: IndexT)
        requires
            old(self).wf(),
            from < old(self).n,
            to < old(self).n,
            old(self).neighborhood(from).len() < old(self).r,
            old(self).neighborhood(from).len() < IndexT::MAX,
        ensures
            final(self).wf(),
            final(self).same_but(old(self), from),
            final(self).neighborhood(from) == old(self).neighborhood(from).push(to),
    {
        proof {
            self.lemma_row_fits(from);
        }
        let offset = self.offset(from);
        let degree = self.edges[offset];
        self.edges[offset + 1 + degree as usize] = to;
        self.edges[offset] = degree + 1;
        proof {
            old(self).lemma_row_change(self, from);
            assert(self.neighborhood(from) =~= old(self).neighborhood(from).push(to));
        }
    }

    /// Adds an edge in both directions.
    pub fn add_undirected_edge(&mut self, a: IndexT, b: IndexT)
        requires
            old(self).wf(),
            a < old(self).n,
            b < old(self).n,
            old(self).neighborhood(a).len() < old(self).r,
            old(self).neighborhood(a).len() < IndexT::MAX,
            old(self).neighborhood(b).len() + (if a == b {
                1int
            } else {
                0
            }) < old(self).r,
            old(self).neighborhood(b).len() + (if a == b {
                1int
            } else {
                0
            }) < IndexT::MAX,
        ensures
            final(self).wf(),
            final(self).n == old(self).n,
            final(self).r == old(self).r,
            forall|j: IndexT|
                j < old(self).n && j != a && j != b ==> #[trigger] final(self).neighborhood(j)
                    == old(self).neighborhood(j),
            a != b ==> final(self).neighborhood(a) == old(self).neighborhood(a).push(b),
            a != b ==> final(self).neighborhood(b) == old(self).neighborhood(b).push(a),
            a == b ==> final(self).neighborhood(a) == old(self).neighborhood(a).push(a).push(a),
    {
        self.add_edge(a, b);
        self.add_edge(b, a);
    }

    /// The number of nodes.
    pub fn size(&self) -> (size: usize)
        ensures
            size == self.n,
    {
        self.n as usize
    }

    /// The limit on the degree.
    pub fn max_degree(&self) -> (r: usize)
        ensures
            r == self.r,
    {
        self.r
    }

    /// The current degree of a node.
    pub fn degree(&self, i: IndexT) -> (degree: usize)
        requires
            self.wf(),
            i < self.n,
        ensures
            degree == self.neighborhood(i).len(),
    {
        self.degree_at(i)
    }

    /// Removes all neighbors of a node.
    pub fn clear_neighborhood(&mut self, i: IndexT)
        requires
            old(self).wf(),
            i < old(self).n,
        ensures
            final(self).wf(),
            final(self).same_but(old(self), i),
            final(self).neighborhood(i) == Seq::<IndexT>::empty(),
    {
        proof {
            self.lemma_row_fits(i);
        }
        let offset = self.offset(i);
        self.edges[offset] = 0;
        proof {
            old(self).lemma_row_change(self, i);
            assert(self.neighborhood(i) =~= Seq::<IndexT>::empty());
        }
    }

    /// Appends neighbors to those of a node.
    pub fn append_neighbors(&mut self, i: IndexT, neighbors: &[IndexT])
        requires
            old(self).wf(),
            i < old(self).n,
            old(self).neighborhood(i).len() + neighbors@.len() <= old(self).r,
            old(self).neighborhood(i).len() + neighbors@.len() <= IndexT::MAX,
        ensures
            final(self).wf(),
            final(self).same_but(old(self), i),
            final(self).neighborhood(i) == old(self).neighborhood(i) + neighbors@,
    {
        proof {
            self.lemma_row_fits(i);
        }
        let offset = self.offset(i);
        let current_degree = self.edges[offset];
        copy_into(&mut self.edges, offset + 1 + current_degree as usize, neighbors);
        assert(neighbors.len() <= IndexT::MAX);
        self.edges[offset] = current_degree + neighbors.len() as IndexT;
        proof {
            old(self).lemma_row_change(self, i);
            assert(self.neighborhood(i) =~= old(self).neighborhood(i) + neighbors@);
        }
    }

    /// Sorts the neighbors of a node by a comparator; equal ones keep their order.
    pub fn sort_neighborhood<F: FnMut(&IndexT, &IndexT) -> Ordering>(
        &mut self,
        i: IndexT,
        comparator: F,
    )
        requires
            old(self).wf(),
            i < old(self).n,
            forall|a: IndexT, b: IndexT| #[trigger] call_requires(comparator, (&a, &b)),
        ensures
            final(self).wf(),
            final(self).same_but(old(self), i),
            sorted_by(old(self).neighborhood(i), final(self).neighborhood(i), comparator),
    {
        let mut sorted = slice_to_vec(self.get_neighborhood(i));
        insertion_sort(&mut sorted, comparator);
        self.replace_neighborhood(i, &sorted);
    }

    /// Overwrites the neighbors of a node with as many others.
    fn replace_neighborhood(&mut self, i: IndexT, neighbors: &Vec<IndexT>)
        requires
            old(self).wf(),
            i < old(self).n,
            neighbors@.len() == old(self).neighborhood(i).len(),
        ensures
            final(self).wf(),
            final(self).same_but(old(self), i),
            final(self).neighborhood(i) == neighbors@,
    {
        proof {
            self.lemma_row_fits(i);
        }
        let offset = self.offset(i);
        copy_into(&mut self.edges, offset + 1, neighbors.as_slice());
        proof {
            old(self).lemma_row_change(self, i);
            assert(self.neighborhood(i) =~= neighbors@);
        }
    }

    /// The memory that the slots take, in bytes.
    pub fn naive_footprint(&self) -> (bytes: usize)
        requires
            self.r < usize::MAX,
            self.n * (self.r + 1) * 4 <= usize::MAX,
        ensures
            bytes == self.n * (self.r + 1) * 4,
    {
        assert(0 <= self.n * (self.r + 1)) by (nonlinear_arith)
            requires
                0 <= self.n,
                0 <= self.r,
        ;
        self.n as usize * (self.r + 1) * 4
    }

    /// The degrees of the first `m` nodes, added up.
    pub open spec fn total_degree(&self, m: int) -> int
        decreases m,
    {
        if m <= 0 {
            0
        } else {
            self.total_degree(m - 1) + self.neighborhood((m - 1) as IndexT).len()
        }
    }

    proof fn lemma_total_degree_grows(&self, k: int, m: int)
        requires
            0 <= k <= m,
        ensures
            0 <= self.total_degree(k) <= self.total_degree(m),
        decreases m,
    {
        if k < m {
            self.lemma_total_degree_grows(k, m - 1);
        } else if k > 0 {
            self.lemma_total_degree_grows(k - 1, k - 1);
        }
    }

    /// The degrees are within the limit, so their sum is within the slots.
    proof fn lemma_total_degree_at_most(&self, m: int)
        requires
            self.wf(),
            0 <= m <= self.n,
        ensures
            m + self.total_degree(m) <= m * (self.r + 1),
        decreases m,
    {
        if m > 0 {
            self.lemma_total_degree_at_most(m - 1);
            self.lemma_row_fits((m - 1) as IndexT);
            assert((m - 1) * (self.r + 1) + (self.r + 1) == m * (self.r + 1)) by (nonlinear_arith);
        } else {
            assert(0 * (self.r + 1) == 0) by (nonlinear_arith);
        }
    }

    /// The memory that the graph would take without room to spare: one entry for
    /// each node and one for each edge, in bytes.
    pub fn efficient_footprint(&self) -> (bytes: usize)
        requires
            self.wf(),
            self.n * (self.r + 1) * 4 <= usize::MAX || (self.n + self.total_degree(self.n as int))
                * 4 <= usize::MAX,
        ensures
            bytes == (self.n + self.total_degree(self.n as int)) * 4,
    {
        let mut total_degree: usize = 0;
        let n = self.n;
        proof {
            self.lemma_total_degree_at_most(n as int);
        }
        for i in 0..n
            invariant
                self.wf(),
                n == self.n,
                (n + self.total_degree(n as int)) * 4 <= usize::MAX,
                total_degree == self.total_degree(i as int),
        {
            proof {
                self.lemma_total_degree_grows(i + 1, n as int);
            }
            total_degree = total_degree + self.degree_at(i);
        }
        (n as usize + total_degree) * 4
    }

    /// The neighbors of a node together with the node itself.
    pub fn get_edge_range(&self, i: IndexT) -> (range: EdgeRange<'_>)
        requires
            self.wf(),
            i < self.n,
        ensures
            range.neighbors() == self.neighborhood(i),
            range.node() == i,
    {
        EdgeRange::new(self.get_neighborhood(i), i)
    }
}

/// The neighbors of a node, in order.
pub struct EdgeRange<'a> {
    neighbors: &'a [IndexT],
    id: IndexT,
}

impl<'a> EdgeRange<'a> {
    /// The neighbors.
    pub closed spec fn neighbors(&self) -> Seq<IndexT> {
        self.neighbors@
    }

    /// The node that they are neighbors of.
    pub closed spec fn node(&self) -> IndexT {
        self.id
    }

    pub fn new(neighbors: &'a [IndexT], id: IndexT) -> (range: Self)
        ensures
            range.neighbors() == neighbors@,
            range.node() == id,
    {
        EdgeRange { neighbors, id }
    }

    /// The number of neighbors.
    pub fn size(&self) -> (size: usize)
        ensures
            size == self.neighbors().len(),
    {
        self.neighbors.len()
    }

    /// The node that they are neighbors of.
    pub fn id(&self) -> (id: IndexT)
        ensures
            id == self.node(),
    {
        self.id
    }

    /// Asks for the neighbors to be brought closer. Nothing to do here.
    pub fn prefetch(&self) {
    }

    /// Neighbor number `index`.
    pub fn index(&self, index: usize) -> (neighbor: &IndexT)
        requires
            index < self.neighbors().len(),
        ensures
            *neighbor == self.neighbors()[index as int],
    {
        &self.neighbors[index]
    }
}

/// A graph that can be read.
pub trait Graph {
    /// The neighbors of node `i`.
    spec fn adjacent(&self, i: IndexT) -> Seq<IndexT>;

    /// Whether `i` is a node of a sound graph.
    spec fn has_node(&self, i: IndexT) -> bool;

    /// The neighbors of a node.
    fn neighbors(&self, i: IndexT) -> (neighbors: &[IndexT])
        requires
            self.has_node(i),
        ensures
            neighbors@ == self.adjacent(i),
    ;
}

impl Graph for ClassicGraph {
    open spec fn adjacent(&self, i: IndexT) -> Seq<IndexT> {
        self.neighborhood(i)
    }

    open spec fn has_node(&self, i: IndexT) -> bool {
        self.wf() && i < self.n
    }

    fn neighbors(&self, i: IndexT) -> (neighbors: &[IndexT]) {
        assert(self.has_node(i));
        let neighbors = self.get_neighborhood(i);
        assert(neighbors@ == self.adjacent(i));
        neighbors
    }
}

/// A graph whose neighborhoods can be changed.
pub trait MutableGraph: Graph + Sized {
    /// Whether `from` has room for `to` among its neighbors.
    spec fn has_room(&self, from: IndexT, to: IndexT) -> bool;

    /// Whether `neighborhood` can become the neighbors of `i`.
    spec fn can_hold(&self, i: IndexT, neighborhood: Seq<IndexT>) -> bool;

    /// Whether the graphs differ at most in the neighbors of `i`.
    spec fn agrees_but(&self, other: &Self, i: IndexT) -> bool;

    /// Adds a neighbor to a node.
    fn add_neighbor(&mut self, from: IndexT, to: IndexT)
        requires
            old(self).has_node(from),
            old(self).has_room(from, to),
        ensures
            final(self).has_node(from),
            final(self).agrees_but(old(self), from),
            final(self).adjacent(from) == old(self).adjacent(from).push(to),
    ;

    /// Overwrites the neighbors of a node.
    fn set_neighborhood(&mut self, i: IndexT, neighborhood: &[IndexT])
        requires
            old(self).has_node(i),
            old(self).can_hold(i, neighborhood@),
        ensures
            final(self).has_node(i),
            final(self).agrees_but(old(self), i),
            final(self).adjacent(i) == neighborhood@,
    ;
}

impl MutableGraph for ClassicGraph {
    open spec fn has_room(&self, from: IndexT, to: IndexT) -> bool {
        &&& to < self.n
        &&& self.neighborhood(from).len() < self.r
        &&& self.neighborhood(from).len() < IndexT::MAX
    }

    open spec fn can_hold(&self, i: IndexT, neighborhood: Seq<IndexT>) -> bool {
        neighborhood.len() <= self.r && neighborhood.len() <= IndexT::MAX
    }

    open spec fn agrees_but(&self, other: &Self, i: IndexT) -> bool {
        self.same_but(other, i)
    }

    fn add_neighbor(&mut self, from: IndexT, to: IndexT) {
        self.add_edge(from, to);
    }

    fn set_neighborhood(&mut self, i: IndexT, neighborhood: &[IndexT]) {
        ClassicGraph::set_neighborhood(self, i, neighborhood);
    }
}

/// A graph that keeps each neighborhood in a vector of its own.
pub struct VectorGraph {
    pub neighborhoods: Vec<Vec<IndexT>>,
}

impl VectorGraph {
    pub fn new(neighborhoods: Vec<Vec<IndexT>>) -> (graph: VectorGraph)
        ensures
            graph.neighborhoods == neighborhoods,
    {
        VectorGraph { neighborhoods }
    }
}

impl Graph for VectorGraph {
    open spec fn adjacent(&self, i: IndexT) -> Seq<IndexT> {
        self.neighborhoods@[i as int]@
    }

    open spec fn has_node(&self, i: IndexT) -> bool {
        i < self.neighborhoods@.len()
    }

    fn neighbors(&self, i: IndexT) -> (neighbors: &[IndexT]) {
        self.neighborhoods[i as usize].as_slice()
    }
}

impl ClassicGraph {
    /// The same graph with a vector for each neighborhood.
    pub fn into_vector_graph(self) -> (vectors: VectorGraph)
        requires
            self.wf(),
        ensures
            vectors.neighborhoods@.len() == self.n,
            forall|i: IndexT| i < self.n ==> #[trigger] vectors.adjacent(i) == self.neighborhood(i),
    {
        let mut neighborhoods: Vec<Vec<IndexT>> = Vec::new();
        let n = self.n;
        for i in 0..n
            invariant
                self.wf(),
                n == self.n,
                neighborhoods@.len() == i,
                forall|j: IndexT|
                    j < i ==> (#[trigger] neighborhoods@[j as int])@ == self.neighborhood(j),
        {
            neighborhoods.push(slice_to_vec(self.get_neighborhood(i)));
        }
        VectorGraph::new(neighborhoods)
    }
}

/// Where a graph keeps what: the row of node `i` begins at slot `i * (r + 1)` with the
/// degree, and the neighbors follow in order.
pub proof fn law_row_holds_neighbors(graph: &ClassicGraph, i: IndexT, j: int)
    requires
        graph.wf(),
        i < graph.n,
        0 <= j < graph.edges@[i * (graph.r + 1)],
    ensures
        graph.neighborhood(i).len() == graph.edges@[i * (graph.r + 1)],
        graph.neighborhood(i)[j] == graph.edges@[i * (graph.r + 1) + 1 + j],
        graph.neighborhood(i).len() <= graph.r,
{
    graph.lemma_row_fits(i);
}

/// The sum of the degrees counts the edges: it is 0 without any, and where the neighbors
/// of a single node change, it changes by as much as their number.
pub proof fn law_total_degree_counts_edges(
    graph: &ClassicGraph,
    other: &ClassicGraph,
    i: IndexT,
    m: int,
)
    requires
        graph.same_but(other, i),
        0 <= m <= graph.n,
    ensures
        other.total_degree(m) - graph.total_degree(m) == (if i < m {
            other.neighborhood(i).len() - graph.neighborhood(i).len()
        } else {
            0
        }),
        (forall|k: IndexT| k < m ==> #[trigger] graph.neighborhood(k).len() == 0)
            ==> graph.total_degree(m) == 0,
    decreases m,
{
    if m > 0 {
        law_total_degree_counts_edges(graph, other, i, m - 1);
        let last = (m - 1) as IndexT;
        assert(last != i ==> graph.neighborhood(last) == other.neighborhood(last));
        assert(graph.neighborhood(last).len() == graph.neighborhood(last).len());
    }
}

/// What the graphs of this module offer to readers and writers: the neighbors of their
/// nodes as they are stored, and room up to the limit on the degree.
pub proof fn law_graphs_offer_neighbors(
    graph: &ClassicGraph,
    vectors: &VectorGraph,
    i: IndexT,
    to: IndexT,
    neighborhood: Seq<IndexT>,
)
    ensures
        graph.adjacent(i) == graph.neighborhood(i),
        graph.has_node(i) == (graph.wf() && i < graph.n),
        graph.has_room(i, to) == (to < graph.n && graph.neighborhood(i).len() < graph.r
            && graph.neighborhood(i).len() < IndexT::MAX),
        graph.can_hold(i, neighborhood) == (neighborhood.len() <= graph.r && neighborhood.len()
            <= IndexT::MAX),
        vectors.adjacent(i) == vectors.neighborhoods@[i as int]@,
        vectors.has_node(i) == (i < vectors.neighborhoods@.len()),
{
}

} // verus!
