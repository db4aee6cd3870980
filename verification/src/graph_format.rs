//! The file format of graphs.
//!
//! A file is a sequence of little-endian 32-bit words: the number of nodes, the
//! limit on the degree, the degree of every node, then the neighbors of every node,
//! node after node.

use vstd::prelude::*;

use crate::classic_graph::{lemma_rows, ClassicGraph, IndexT};
use crate::le_bytes::{
    byte_range, le_byte, le_value, lemma_le_value_of_bytes, lemma_le_value_range,
    lemma_words_bytes_push, push_u32, read_u32, words_bytes,
};

verus! {

/// Why a file could not be read.
#[derive(Clone, Copy, Debug, PartialEq, Eq, Structural)]
pub enum ReadError {
    /// The file ends before the last neighbor.
    UnexpectedEof,
}

/// Word `k` of a file.
pub open spec fn file_word(bytes: Seq<u8>, k: int) -> int {
    le_value(bytes, 4 * k, 4)
}

/// The number of nodes that a file states.
pub open spec fn file_nodes(bytes: Seq<u8>) -> int {
    file_word(bytes, 0)
}

/// The limit on the degree that a file states.
pub open spec fn file_limit(bytes: Seq<u8>) -> int {
    file_word(bytes, 1)
}

/// The degree that a file states for node `i`.
pub open spec fn file_degree(bytes: Seq<u8>, i: int) -> int {
    file_word(bytes, 2 + i)
}

/// The degrees of the first `m` nodes, added up.
pub open spec fn file_degrees(bytes: Seq<u8>, m: int) -> int
    decreases m,
{
    if m <= 0 {
        0
    } else {
        file_degrees(bytes, m - 1) + file_degree(bytes, m - 1)
    }
}

/// The neighbors that a file lists for node `i`.
pub open spec fn file_neighbors(bytes: Seq<u8>, i: int) -> Seq<IndexT> {
    Seq::new(
        file_degree(bytes, i) as nat,
        |j: int| file_word(bytes, 2 + file_nodes(bytes) + file_degrees(bytes, i) + j) as IndexT,
    )
}

/// Whether a file holds everything that it announces.
pub open spec fn is_complete(bytes: Seq<u8>) -> bool {
    &&& bytes.len() >= 8
    &&& bytes.len() >= 8 + 4 * file_nodes(bytes)
    &&& bytes.len() >= 8 + 4 * file_nodes(bytes) + 4 * file_degrees(bytes, file_nodes(bytes))
}

/// Whether the neighbors of every node end within the rows of the graph.
pub open spec fn rows_fit(bytes: Seq<u8>) -> bool {
    &&& file_limit(bytes) < usize::MAX
    &&& file_nodes(bytes) * (file_limit(bytes) + 1) <= usize::MAX
    &&& forall|i: int|
        0 <= i < file_nodes(bytes) ==> i * (file_limit(bytes) + 1) + 1 + #[trigger] file_degree(
            bytes,
            i,
        ) <= file_nodes(bytes) * (file_limit(bytes) + 1)
}

/// The slots of the graph once the first `m` nodes of a file are in place. A node
/// with more neighbors than the limit runs over into the rows after its own, which
/// their own nodes overwrite.
pub open spec fn file_slots(bytes: Seq<u8>, m: int) -> Seq<IndexT>
    decreases m,
{
    let width = file_limit(bytes) + 1;
    if m <= 0 {
        Seq::new((file_nodes(bytes) * width) as nat, |p: int| 0)
    } else {
        let before = file_slots(bytes, m - 1);
        let at = (m - 1) * width;
        let neighbors = file_neighbors(bytes, m - 1);
        Seq::new(
            before.len(),
            |p: int|
                if p == at {
                    neighbors.len() as IndexT
                } else if at < p <= at + neighbors.len() {
                    neighbors[p - at - 1]
                } else {
                    before[p]
                },
        )
    }
}

proof fn lemma_word_of_words(words: Seq<u32>, k: int)
    requires
        0 <= k < words.len(),
    ensures
        file_word(words_bytes(words), k) == words[k],
{
    let bytes = words_bytes(words);
    reveal_with_fuel(byte_range, 5);
    assert forall|j: int| 0 <= j < 4 implies #[trigger] bytes[4 * k + j] == le_byte(
        words[k] as int,
        j,
    ) by {
        assert((4 * k + j) / 4 == k && (4 * k + j) % 4 == j);
    }
    lemma_le_value_of_bytes(bytes, 4 * k, words[k] as int, 4);
}

proof fn lemma_word_range(bytes: Seq<u8>, k: int)
    ensures
        0 <= file_word(bytes, k) <= u32::MAX,
{
    reveal_with_fuel(byte_range, 5);
    lemma_le_value_range(bytes, 4 * k, 4);
}

proof fn lemma_file_degrees_range(bytes: Seq<u8>, k: int, m: int)
    requires
        0 <= k <= m,
    ensures
        0 <= file_degrees(bytes, k) <= file_degrees(bytes, m),
        file_degrees(bytes, m) <= m * 0xffff_ffff,
    decreases m,
{
    if m > 0 {
        lemma_word_range(bytes, 2 + (m - 1));
        if k < m {
            lemma_file_degrees_range(bytes, k, m - 1);
        } else {
            lemma_file_degrees_range(bytes, k - 1, m - 1);
        }
    }
}

/// Word `k` of a file that is long enough.
fn word_at(bytes: &[u8], k: usize) -> (word: u32)
    requires
        4 * k + 4 <= bytes@.len(),
    ensures
        word == file_word(bytes@, k as int),
{
    assert(bytes.len() == bytes@.len());
    match read_u32(bytes, 4 * k) {
        Some(word) => word,
        None => 0,
    }
}

impl ClassicGraph {
    /// The degrees of the nodes.
    pub open spec fn degree_words(&self) -> Seq<u32> {
        Seq::new(self.n as nat, |i: int| self.neighborhood(i as IndexT).len() as u32)
    }

    /// The neighbors of the first `m` nodes, node after node.
    pub open spec fn neighbor_words(&self, m: int) -> Seq<u32>
        decreases m,
    {
        if m <= 0 {
            Seq::empty()
        } else {
            self.neighbor_words(m - 1) + self.neighborhood((m - 1) as IndexT)
        }
    }

    /// The words of the file of this graph.
    pub open spec fn file_words(&self) -> Seq<u32> {
        seq![self.n, self.r as u32] + self.degree_words() + self.neighbor_words(self.n as int)
    }

    /// The bytes of the file of this graph.
    pub fn save(&self) -> (bytes: Vec<u8>)
        requires
            self.wf(),
        ensures
            bytes@ == words_bytes(self.file_words()),
    {
        let n = self.n;
        let mut bytes: Vec<u8> = Vec::new();
        let ghost mut words: Seq<u32> = Seq::empty();
        assert(bytes@ =~= words_bytes(words));
        push_u32(&mut bytes, n);
        proof {
            lemma_words_bytes_push(words, n);
            words = words.push(n);
        }
        push_u32(&mut bytes, self.r as u32);
        proof {
            lemma_words_bytes_push(words, self.r as u32);
            words = words.push(self.r as u32);
            assert(self.degree_words().subrange(0, 0) =~= Seq::<u32>::empty());
        }
        for i in 0..n
            invariant
                self.wf(),
                n == self.n,
                bytes@ == words_bytes(words),
                words =~= seq![n, self.r as u32] + self.degree_words().subrange(0, i as int),
        {
            let degree = self.degree(i) as u32;
            push_u32(&mut bytes, degree);
            proof {
                lemma_words_bytes_push(words, degree);
                words = words.push(degree);
            }
        }
        assert(self.degree_words().subrange(0, n as int) =~= self.degree_words());
        let ghost header = words;
        assert(words =~= header + self.neighbor_words(0));
        for i in 0..n
            invariant
                self.wf(),
                n == self.n,
                bytes@ == words_bytes(words),
                words == header + self.neighbor_words(i as int),
        {
            let neighbors = self.get_neighborhood(i);
            let degree = neighbors.len();
            let ghost before = words;
            assert(before =~= before + neighbors@.subrange(0, 0));
            for j in 0..degree
                invariant
                    degree == neighbors@.len(),
                    bytes@ == words_bytes(words),
                    words == before + neighbors@.subrange(0, j as int),
            {
                push_u32(&mut bytes, neighbors[j]);
                proof {
                    lemma_words_bytes_push(words, neighbors@[j as int]);
                    words = words.push(neighbors@[j as int]);
                    assert(words =~= before + neighbors@.subrange(0, j + 1));
                }
            }
            proof {
                assert(neighbors@.subrange(0, degree as int) =~= neighbors@);
                assert(words =~= header + self.neighbor_words(i + 1));
            }
        }
        assert(header + self.neighbor_words(n as int) =~= self.file_words());
        bytes
    }

    /// Whether `read` takes the file: it is cut short, or the neighbors of all
    /// nodes end within the rows of the graph.
    pub fn can_read(bytes: &[u8]) -> (readable: bool)
        ensures
            readable == (is_complete(bytes@) ==> rows_fit(bytes@)),
    {
        if !holds_all(bytes) {
            return true;
        }
        let n = word_at(bytes, 0);
        let limit = word_at(bytes, 1);
        let width = limit as u128 + 1;
        assert(n * (limit + 1) <= 0xffff_ffff * 0x1_0000_0000) by (nonlinear_arith)
            requires
                0 <= n <= 0xffff_ffff,
                0 <= limit <= 0xffff_ffff,
        ;
        let total = n as u128 * width;
        if limit as u128 >= usize::MAX as u128 || total > usize::MAX as u128 {
            return false;
        }
        for i in 0..n
            invariant
                is_complete(bytes@),
                bytes.len() == bytes@.len(),
                n == file_nodes(bytes@),
                limit == file_limit(bytes@),
                width == limit + 1,
                total == n * width,
                limit < usize::MAX,
                total <= usize::MAX,
                forall|k: int|
                    0 <= k < i ==> k * (file_limit(bytes@) + 1) + 1 + #[trigger] file_degree(
                        bytes@,
                        k,
                    ) <= total,
        {
            proof {
                lemma_rows(i as int, n as int, width as int);
                lemma_file_degrees_range(bytes@, 0, n as int);
            }
            let degree = word_at(bytes, 2 + i as usize);
            if i as u128 * width + 1 + degree as u128 > total {
                assert(file_degree(bytes@, i as int) == degree);
                return false;
            }
        }
        true
    }

    /// Reads a graph from the bytes of its file. Bytes after the last neighbor are
    /// ignored.
    pub fn read(bytes: &[u8]) -> (result: Result<ClassicGraph, ReadError>)
        requires
            is_complete(bytes@) ==> rows_fit(bytes@),
        ensures
            match result {
                Ok(graph) => {
                    &&& is_complete(bytes@)
                    &&& graph.n == file_nodes(bytes@)
                    &&& graph.r == file_limit(bytes@)
                    &&& graph.slots() == file_slots(bytes@, file_nodes(bytes@))
                    &&& (forall|i: int|
                        0 <= i < file_nodes(bytes@) ==> #[trigger] file_degree(bytes@, i)
                            <= file_limit(bytes@)) ==> graph.wf() && forall|i: IndexT|
                        i < graph.n ==> #[trigger] graph.neighborhood(i) == file_neighbors(
                            bytes@,
                            i as int,
                        )
                },
                Err(ReadError::UnexpectedEof) => !is_complete(bytes@),
            },
    {
        if !holds_all(bytes) {
            return Err(ReadError::UnexpectedEof);
        }
        let n = word_at(bytes, 0);
        let limit = word_at(bytes, 1);
        let r = limit as usize;
        let width = r + 1;
        assert(bytes.len() == bytes@.len());
        let mut edges: Vec<IndexT> = vec![0;n as usize * width];
        let mut next: usize = 2 + n as usize;
        let ghost file = bytes@;
        assert(edges@ =~= file_slots(file, 0));
        for i in 0..n
            invariant
                file == bytes@,
                is_complete(file),
                rows_fit(file),
                bytes.len() == file.len(),
                n == file_nodes(file),
                r == file_limit(file),
                width == r + 1,
                n * width <= usize::MAX,
                edges@ == file_slots(file, i as int),
                edges@.len() == n * width,
                next == 2 + n + file_degrees(file, i as int),
        {
            proof {
                lemma_rows(i as int, n as int, width as int);
                lemma_file_degrees_range(file, i + 1, n as int);
                lemma_file_degrees_range(file, i as int, n as int);
                lemma_word_range(file, 2 + i);
            }
            let degree = word_at(bytes, 2 + i as usize);
            assert(degree == file_degree(file, i as int));
            let offset = i as usize * width;
            let ghost before = edges@;
            edges[offset] = degree;
            for j in 0..degree
                invariant
                    file == bytes@,
                    is_complete(file),
                    bytes.len() == file.len(),
                    n == file_nodes(file),
                    i < n,
                    degree == file_degree(file, i as int),
                    next == 2 + n + file_degrees(file, i as int),
                    file_degrees(file, i as int) + degree <= file_degrees(file, n as int),
                    0 <= file_degrees(file, i as int),
                    edges@.len() == before.len(),
                    edges.len() == before.len(),
                    offset + 1 + degree <= before.len(),
                    forall|p: int|
                        0 <= p < before.len() ==> #[trigger] edges@[p] == (if p == offset {
                            degree
                        } else if offset < p <= offset + j {
                            file_neighbors(file, i as int)[p - offset - 1]
                        } else {
                            before[p]
                        }),
            {
                edges[offset + 1 + j as usize] = word_at(bytes, next + j as usize);
            }
            next = next + degree as usize;
            assert(edges@ =~= file_slots(file, i + 1));
        }
        let graph = ClassicGraph { edges, n, r };
        proof {
            if forall|i: int|
                0 <= i < file_nodes(file) ==> #[trigger] file_degree(file, i) <= file_limit(file) {
                lemma_file_graph(file, graph);
            }
        }
        Ok(graph)
    }
}

/// Whether a file holds everything that it announces.
fn holds_all(bytes: &[u8]) -> (complete: bool)
    ensures
        complete == is_complete(bytes@),
{
    let len = bytes.len();
    if len < 8 {
        return false;
    }
    let n = word_at(bytes, 0);
    let words = ((len - 8) / 4) as u64;
    if words < (n as u64) {
        return false;
    }
    let room = words - n as u64;
    let mut total: u64 = 0;
    for i in 0..n
        invariant
            len == bytes@.len(),
            len >= 8 + 4 * n,
            n == file_nodes(bytes@),
            total == file_degrees(bytes@, i as int),
    {
        proof {
            lemma_file_degrees_range(bytes@, i as int, i as int);
        }
        total = total + word_at(bytes, 2 + i as usize) as u64;
    }
    total <= room
}

/// The first `m` nodes of a file whose degrees keep the limit are in their rows,
/// and the rows after them are empty.
proof fn lemma_file_slots(file: Seq<u8>, m: int, i: int)
    requires
        0 <= i < file_nodes(file),
        0 <= m <= file_nodes(file),
        forall|k: int|
            0 <= k < file_nodes(file) ==> #[trigger] file_degree(file, k) <= file_limit(file),
    ensures
        file_slots(file, m).len() == file_nodes(file) * (file_limit(file) + 1),
        i < m ==> {
            let at = i * (file_limit(file) + 1);
            &&& file_slots(file, m)[at] == file_neighbors(file, i).len()
            &&& forall|j: int|
                0 <= j < file_neighbors(file, i).len() ==> #[trigger] file_slots(file, m)[at + 1
                    + j] == file_neighbors(file, i)[j]
        },
    decreases m,
{
    let width = file_limit(file) + 1;
    lemma_word_range(file, 0);
    lemma_word_range(file, 1);
    lemma_word_range(file, 2 + i);
    assert(0 <= file_nodes(file) * width) by (nonlinear_arith)
        requires
            0 <= file_nodes(file),
            0 <= width,
    ;
    if m > 0 {
        lemma_file_slots(file, m - 1, i);
        lemma_rows(i, file_nodes(file), width);
        lemma_word_range(file, 2 + (m - 1));
        assert(file_degree(file, i) <= file_limit(file));
        if i < m - 1 {
            lemma_rows(i, m - 1, width);
            let at = i * width;
            assert forall|j: int|
                0 <= j < file_neighbors(file, i).len() implies #[trigger] file_slots(file, m)[at + 1
                + j] == file_neighbors(file, i)[j] by {
                assert(file_slots(file, m - 1)[at + 1 + j] == file_neighbors(file, i)[j]);
            }
        }
    }
}

/// The graph of a file whose degrees keep the limit is sound and has the neighbors
/// that the file lists.
proof fn lemma_file_graph(file: Seq<u8>, graph: ClassicGraph)
    requires
        rows_fit(file),
        graph.n == file_nodes(file),
        graph.r == file_limit(file),
        graph.slots() == file_slots(file, file_nodes(file)),
        forall|k: int|
            0 <= k < file_nodes(file) ==> #[trigger] file_degree(file, k) <= file_limit(file),
    ensures
        graph.wf(),
        forall|i: IndexT|
            i < graph.n ==> #[trigger] graph.neighborhood(i) == file_neighbors(file, i as int),
{
    let m = file_nodes(file);
    if m > 0 {
        lemma_file_slots(file, m, 0);
    } else {
        assert(0 * (graph.r + 1) == 0) by (nonlinear_arith);
    }
    assert forall|i: IndexT| i < graph.n implies #[trigger] graph.slots()[graph.row(i)] <= graph.r by {
        lemma_file_slots(file, m, i as int);
        assert(file_degree(file, i as int) <= file_limit(file));
        lemma_word_range(file, 2 + i);
    }
    assert forall|i: IndexT| i < graph.n implies #[trigger] graph.neighborhood(i)
        == file_neighbors(file, i as int) by {
        lemma_file_slots(file, m, i as int);
        assert(file_degree(file, i as int) <= file_limit(file));
        lemma_word_range(file, 2 + i);
        lemma_rows(i as int, graph.n as int, graph.r + 1);
        let at = i * (file_limit(file) + 1);
        assert(at == graph.row(i));
        assert forall|j: int| 0 <= j < graph.neighborhood(i).len() implies graph.neighborhood(i)[j]
            == file_neighbors(file, i as int)[j] by {
            assert(file_slots(file, m)[at + 1 + j] == file_neighbors(file, i as int)[j]);
        }
        assert(graph.neighborhood(i) =~= file_neighbors(file, i as int));
    }
}

/// Where the neighbors of node `i` lie among those of the first `m` nodes.
proof fn lemma_neighbor_words(graph: &ClassicGraph, m: int, i: int, j: int)
    requires
        0 <= i < m <= graph.n,
        0 <= j < graph.neighborhood(i as IndexT).len(),
    ensures
        graph.neighbor_words(i).len() + j < graph.neighbor_words(m).len(),
        graph.neighbor_words(m)[graph.neighbor_words(i).len() + j] == graph.neighborhood(
            i as IndexT,
        )[j],
    decreases m,
{
    if i < m - 1 {
        lemma_neighbor_words(graph, m - 1, i, j);
    }
}

/// Reading undoes saving: the file of a graph is complete, and it holds the nodes,
/// the limit and the neighbors of the graph.
pub proof fn law_read_inverts_save(graph: &ClassicGraph)
    requires
        graph.wf(),
        graph.r <= u32::MAX,
    ensures
        ({
            let file = words_bytes(graph.file_words());
            &&& is_complete(file)
            &&& rows_fit(file)
            &&& file_nodes(file) == graph.n
            &&& file_limit(file) == graph.r
            &&& forall|i: int|
                0 <= i < graph.n ==> #[trigger] file_degree(file, i) <= file_limit(file)
            &&& forall|i: IndexT|
                i < graph.n ==> #[trigger] file_neighbors(file, i as int) == graph.neighborhood(i)
        }),
{
    let words = graph.file_words();
    let file = words_bytes(words);
    let n = graph.n as int;
    lemma_word_of_words(words, 0);
    lemma_word_of_words(words, 1);
    assert forall|i: int| 0 <= i < n implies #[trigger] file_degree(file, i)
        == graph.neighborhood(i as IndexT).len() && file_degree(file, i) <= graph.r by {
        lemma_word_of_words(words, 2 + i);
        lemma_rows(i, n, graph.r + 1);
        assert(graph.slots()[graph.row(i as IndexT)] <= graph.r);
        assert(words[2 + i] == graph.degree_words()[i]);
    }
    lemma_saved_degrees(graph, n);
    assert forall|i: IndexT| i < graph.n implies #[trigger] file_neighbors(file, i as int)
        == graph.neighborhood(i) by {
        assert(file_degree(file, i as int) == graph.neighborhood(i).len());
        lemma_saved_degrees(graph, i as int);
        assert forall|j: int| 0 <= j < graph.neighborhood(i).len() implies file_neighbors(
            file,
            i as int,
        )[j] == graph.neighborhood(i)[j] by {
            lemma_neighbor_words(graph, n, i as int, j);
            lemma_word_of_words(words, 2 + n + graph.neighbor_words(i as int).len() + j);
        }
        assert(file_neighbors(file, i as int) =~= graph.neighborhood(i));
    }
    assert forall|i: int| 0 <= i < n implies i * (file_limit(file) + 1) + 1
        + #[trigger] file_degree(file, i) <= n * (file_limit(file) + 1) by {
        lemma_rows(i, n, graph.r + 1);
    }
}

proof fn lemma_saved_degrees(graph: &ClassicGraph, m: int)
    requires
        graph.wf(),
        0 <= m <= graph.n,
        forall|i: int|
            0 <= i < graph.n ==> #[trigger] file_degree(words_bytes(graph.file_words()), i)
                == graph.neighborhood(i as IndexT).len(),
    ensures
        file_degrees(words_bytes(graph.file_words()), m) == graph.neighbor_words(m).len(),
    decreases m,
{
    if m > 0 {
        lemma_saved_degrees(graph, m - 1);
        assert(file_degree(words_bytes(graph.file_words()), m - 1) == graph.neighborhood(
            (m - 1) as IndexT,
        ).len());
    }
}

proof fn lemma_neighbor_words_len(graph: &ClassicGraph, m: int)
    requires
        0 <= m,
    ensures
        graph.neighbor_words(m).len() == graph.total_degree(m),
    decreases m,
{
    if m > 0 {
        lemma_neighbor_words_len(graph, m - 1);
    }
}

/// What the file of a graph holds, and where: the number of nodes, the limit on the
/// degree, the degrees, and then the neighbors, node after node, in four bytes each.
pub proof fn law_graph_file_layout(graph: &ClassicGraph, i: IndexT, j: int)
    requires
        graph.wf(),
        graph.r <= u32::MAX,
        i < graph.n,
        0 <= j < graph.neighborhood(i).len(),
    ensures
        ({
            let file = words_bytes(graph.file_words());
            &&& file.len() == 8 + 4 * graph.n + 4 * graph.total_degree(graph.n as int)
            &&& le_value(file, 0, 4) == graph.n
            &&& le_value(file, 4, 4) == graph.r
            &&& le_value(file, 8 + 4 * i, 4) == graph.neighborhood(i).len()
            &&& le_value(file, 8 + 4 * graph.n + 4 * (graph.total_degree(i as int) + j), 4)
                == graph.neighborhood(i)[j]
        }),
{
    let words = graph.file_words();
    let n = graph.n as int;
    law_read_inverts_save(graph);
    lemma_word_of_words(words, 0);
    lemma_word_of_words(words, 1);
    lemma_word_of_words(words, 2 + i);
    lemma_neighbor_words_len(graph, n);
    lemma_neighbor_words_len(graph, i as int);
    lemma_neighbor_words(graph, n, i as int, j);
    lemma_word_of_words(words, 2 + n + graph.neighbor_words(i as int).len() + j);
    assert(words[2 + i] == graph.degree_words()[i as int]);
    lemma_rows(i as int, n, graph.r + 1);
    assert(graph.slots()[graph.row(i)] <= graph.r);
}

/// The graph file of no nodes, or of nodes without neighbors, still begins with the
/// number of nodes and the limit, and is as long as they and the degrees.
pub proof fn law_graph_file_begins_with_sizes(graph: &ClassicGraph)
    requires
        graph.wf(),
        graph.r <= u32::MAX,
    ensures
        ({
            let file = words_bytes(graph.file_words());
            &&& file.len() == 8 + 4 * graph.n + 4 * graph.total_degree(graph.n as int)
            &&& le_value(file, 0, 4) == graph.n
            &&& le_value(file, 4, 4) == graph.r
        }),
{
    lemma_word_of_words(graph.file_words(), 0);
    lemma_word_of_words(graph.file_words(), 1);
    lemma_neighbor_words_len(graph, graph.n as int);
}

/// What is read from a file, and from where: the same places that a file is written to.
/// A file is complete where it reaches to the end of the neighbors that its degrees
/// announce, and can be read where the neighbors of each node end within the rows of
/// the graph.
pub proof fn law_file_is_read_in_order(bytes: Seq<u8>, i: int, j: int)
    requires
        0 <= i,
        0 <= j < file_degree(bytes, i),
    ensures
        file_nodes(bytes) == le_value(bytes, 0, 4),
        file_limit(bytes) == le_value(bytes, 4, 4),
        file_degree(bytes, i) == le_value(bytes, 8 + 4 * i, 4),
        file_degrees(bytes, 0) == 0,
        file_degrees(bytes, i + 1) == file_degrees(bytes, i) + le_value(bytes, 8 + 4 * i, 4),
        file_neighbors(bytes, i).len() == le_value(bytes, 8 + 4 * i, 4),
        file_neighbors(bytes, i)[j] == le_value(
            bytes,
            8 + 4 * le_value(bytes, 0, 4) + 4 * (file_degrees(bytes, i) + j),
            4,
        ),
{
    reveal_with_fuel(byte_range, 5);
    let k = 2 + file_nodes(bytes) + file_degrees(bytes, i) + j;
    lemma_le_value_range(bytes, 4 * k, 4);
    assert(4 * k == 8 + 4 * le_value(bytes, 0, 4) + 4 * (file_degrees(bytes, i) + j));
}

/// When a file is complete, and when it can be read.
pub proof fn law_file_can_be_read(bytes: Seq<u8>)
    ensures
        is_complete(bytes) == {
            let nodes = le_value(bytes, 0, 4);
            &&& bytes.len() >= 8
            &&& bytes.len() >= 8 + 4 * nodes
            &&& bytes.len() >= 8 + 4 * nodes + 4 * file_degrees(bytes, nodes)
        },
        rows_fit(bytes) == {
            let nodes = le_value(bytes, 0, 4);
            let width = le_value(bytes, 4, 4) + 1;
            &&& width <= usize::MAX
            &&& nodes * width <= usize::MAX
            &&& forall|i: int|
                0 <= i < nodes ==> i * width + 1 + #[trigger] le_value(bytes, 8 + 4 * i, 4) <= nodes
                    * width
        },
{
    let nodes = le_value(bytes, 0, 4);
    let width = le_value(bytes, 4, 4) + 1;
    assert forall|i: int| #[trigger] file_degree(bytes, i) == le_value(bytes, 8 + 4 * i, 4) by {}
    if forall|i: int|
        0 <= i < nodes ==> i * width + 1 + #[trigger] le_value(bytes, 8 + 4 * i, 4) <= nodes
            * width {
        assert forall|i: int| 0 <= i < nodes implies i * width + 1 + #[trigger] file_degree(
            bytes,
            i,
        ) <= nodes * width by {
            assert(file_degree(bytes, i) == le_value(bytes, 8 + 4 * i, 4));
        }
    }
    if rows_fit(bytes) {
        assert forall|i: int| 0 <= i < nodes implies i * width + 1 + #[trigger] le_value(
            bytes,
            8 + 4 * i,
            4,
        ) <= nodes * width by {
            assert(file_degree(bytes, i) == le_value(bytes, 8 + 4 * i, 4));
        }
    }
}

/// Where neighbors run over into later rows, the last node whose neighbors reach a slot
/// determines what it holds; a slot that none reaches holds 0.
pub proof fn law_last_row_wins(bytes: Seq<u8>, m: int, i: int, p: int)
    requires
        -1 <= i < m,
        0 <= p < le_value(bytes, 0, 4) * (le_value(bytes, 4, 4) + 1),
        i >= 0 ==> i * (le_value(bytes, 4, 4) + 1) <= p <= i * (le_value(bytes, 4, 4) + 1)
            + file_degree(bytes, i),
        forall|k: int|
            i < k < m ==> !(k * (le_value(bytes, 4, 4) + 1) <= p <= k * (le_value(bytes, 4, 4) + 1)
                + #[trigger] file_degree(bytes, k)),
    ensures
        file_slots(bytes, m).len() == le_value(bytes, 0, 4) * (le_value(bytes, 4, 4) + 1),
        file_slots(bytes, m)[p] == (if i < 0 {
            0
        } else if p == i * (le_value(bytes, 4, 4) + 1) {
            file_degree(bytes, i)
        } else {
            file_neighbors(bytes, i)[p - i * (le_value(bytes, 4, 4) + 1) - 1] as int
        }),
    decreases m,
{
    lemma_slots_len(bytes, m);
    if m > 0 {
        lemma_word_range(bytes, 2 + (m - 1));
        lemma_slots_len(bytes, m - 1);
        if i < m - 1 {
            assert(!((m - 1) * (le_value(bytes, 4, 4) + 1) <= p <= (m - 1) * (le_value(bytes, 4, 4)
                + 1) + file_degree(bytes, m - 1)));
            law_last_row_wins(bytes, m - 1, i, p);
        }
    }
}

proof fn lemma_slots_len(bytes: Seq<u8>, m: int)
    ensures
        file_slots(bytes, m).len() == file_nodes(bytes) * (file_limit(bytes) + 1),
    decreases m,
{
    if m > 0 {
        lemma_slots_len(bytes, m - 1);
    } else {
        lemma_word_range(bytes, 0);
        lemma_word_range(bytes, 1);
        assert(0 <= file_nodes(bytes) * (file_limit(bytes) + 1)) by (nonlinear_arith)
            requires
                0 <= file_nodes(bytes),
                0 <= file_limit(bytes),
        ;
    }
}

} // verus!
