//! The FastScan layout of packed codes, its lookup tables and the scan itself.
//!
//! Packed codes come in blocks of 32 vectors. A block holds one 32-byte chunk
//! per pair of nibbles; the first 16 bytes of a chunk serve the even nibble, the
//! last 16 the odd one. Within each half the vectors are interleaved
//! (0, 8, 1, 9, ...): the low four bits of a byte belong to a vector of the
//! first half of the block, the high four bits to the vector 16 places later.

use vstd::arithmetic::div_mod::{lemma_fundamental_div_mod, lemma_fundamental_div_mod_converse};
use vstd::prelude::*;

use crate::codes::{
    code_nibble, lemma_code_nibble, lemma_or_nibble, nibble_at, reverse_nibble, word_nibble,
    BLOCK_WIDTH,
};

verus! {

const PERM0: [usize; 16] = [0, 8, 1, 9, 2, 10, 3, 11, 4, 12, 5, 13, 6, 14, 7, 15];

/// The vector (of the first 16 of a block) that byte `j` of a half chunk serves.
pub open spec fn lane_at(j: int) -> int {
    j / 2 + 8 * (j % 2)
}

/// The byte of a half chunk that serves vector `lane` of the first 16.
pub open spec fn slot_of(lane: int) -> int {
    2 * (lane % 8) + lane / 8
}

/// Where the byte with nibble `k` of vector `v` lies, with `cols` chunks per block.
pub open spec fn packed_index(cols: int, v: int, k: int) -> int {
    ((v / 32) * cols + k / 2) * 32 + 16 * (k % 2) + slot_of(v % 16)
}

/// Nibble `k` of vector `v`, read from packed codes with `cols` chunks per block.
pub open spec fn packed_nibble(packed: Seq<u8>, cols: int, v: int, k: int) -> int {
    let byte = packed[packed_index(cols, v, k)] as int;
    if v % 32 < 16 {
        byte % 16
    } else {
        byte / 16
    }
}

/// Whether `packed` is the FastScan layout of the `n_vecs` codes of `words` words
/// each, with `cols` chunks per block.
pub open spec fn is_packing(
    codes: Seq<u64>,
    packed: Seq<u8>,
    words: int,
    cols: int,
    n_vecs: int,
) -> bool {
    &&& codes.len() == n_vecs * words
    &&& packed.len() == n_vecs * cols
    &&& forall|v: int, k: int|
        0 <= v < n_vecs && 0 <= k < 2 * cols ==> #[trigger] packed_nibble(packed, cols, v, k)
            == code_nibble(codes, words, v, k)
}

/// What byte `i` of the packed form of `codes` is.
pub open spec fn layout_byte(codes: Seq<u64>, words: int, cols: int, i: int) -> int {
    let v = 32 * ((i / 32) / cols) + lane_at(i % 16);
    let k = 2 * ((i / 32) % cols) + (i % 32) / 16;
    code_nibble(codes, words, v, k) + 16 * code_nibble(codes, words, v + 16, k)
}

proof fn lemma_join_nibbles(lo: u8, hi: u8)
    requires
        lo < 16,
        hi < 16,
    ensures
        lo | (hi << 4) == lo + 16 * hi,
{
    assert(lo | (hi << 4) == lo + 16 * hi) by (bit_vector)
        requires
            lo < 16,
            hi < 16,
    ;
}

proof fn lemma_split_byte(b: u8)
    ensures
        b >> 4 == b / 16,
        b & 15 == b % 16,
{
    assert(b >> 4 == b / 16) by (bit_vector);
    assert(b & 15 == b % 16) by (bit_vector);
}

/// Appends half a chunk: the nibbles of the 32 vectors of a block, two to a byte.
fn push_half(packed: &mut Vec<u8>, column: &[u8; 32])
    requires
        forall|i: int| 0 <= i < 32 ==> column@[i] < 16,
    ensures
        final(packed)@.len() == old(packed)@.len() + 16,
        forall|i: int| 0 <= i < old(packed)@.len() ==> final(packed)@[i] == old(packed)@[i],
        forall|j: int|
            0 <= j < 16 ==> #[trigger] final(packed)@[old(packed)@.len() + j] == column@[lane_at(j)]
                + 16 * column@[lane_at(j) + 16],
{
    let ghost before = packed@;
    for j in 0..16usize
        invariant
            forall|i: int| 0 <= i < 32 ==> column@[i] < 16,
            packed@.len() == before.len() + j,
            forall|i: int| 0 <= i < before.len() ==> packed@[i] == before[i],
            forall|i: int|
                0 <= i < j ==> #[trigger] packed@[before.len() + i] == column@[lane_at(i)] + 16
                    * column@[lane_at(i) + 16],
    {
        let idx = PERM0[j];
        assert(idx == lane_at(j as int));
        proof {
            lemma_join_nibbles(column@[idx as int], column@[idx + 16]);
        }
        packed.push(column[idx] | (column[idx + 16] << 4));
    }
}

/// Nibble `k` of each of the 32 vectors of a block.
fn gather_nibbles(
    binary_codes: &[u64],
    words: usize,
    n_vecs: usize,
    block: usize,
    k: usize,
) -> (column: [u8; 32])
    requires
        n_vecs * words == binary_codes@.len(),
        32 * block + 32 <= n_vecs,
        k / 16 < words,
    ensures
        forall|l: int|
            0 <= l < 32 ==> #[trigger] column@[l] == code_nibble(
                binary_codes@,
                words as int,
                32 * block + l,
                k as int,
            ),
        forall|l: int| 0 <= l < 32 ==> #[trigger] column@[l] < 16,
{
    let mut column = [0u8;32];
    for lane in 0..32usize
        invariant
            n_vecs * words == binary_codes@.len(),
            32 * block + 32 <= n_vecs,
            k / 16 < words,
            forall|l: int|
                0 <= l < lane ==> #[trigger] column@[l] == code_nibble(
                    binary_codes@,
                    words as int,
                    32 * block + l,
                    k as int,
                ),
            forall|l: int| 0 <= l < lane ==> #[trigger] column@[l] < 16,
    {
        let row = block * 32 + lane;
        proof {
            lemma_row_fits(row as int, n_vecs as int, words as int, binary_codes.len() as int);
            lemma_code_nibble(binary_codes@, words as int, row as int, k as int);
        }
        column[lane] = nibble_at(binary_codes, row * words, k);
    }
    column
}

/// Two halves with the nibbles of a chunk continue the layout.
proof fn lemma_chunk_layout(
    codes: Seq<u64>,
    words: int,
    cols: int,
    block: int,
    col: int,
    before: Seq<u8>,
    between: Seq<u8>,
    after: Seq<u8>,
    c0: Seq<u8>,
    c1: Seq<u8>,
)
    requires
        0 <= block,
        0 <= col < cols,
        before.len() == (block * cols + col) * 32,
        forall|i: int| 0 <= i < before.len() ==> before[i] == layout_byte(codes, words, cols, i),
        between.len() == before.len() + 16,
        forall|i: int| 0 <= i < before.len() ==> between[i] == before[i],
        forall|j: int|
            0 <= j < 16 ==> #[trigger] between[before.len() + j] == c0[lane_at(j)] + 16
                * c0[lane_at(j) + 16],
        after.len() == between.len() + 16,
        forall|i: int| 0 <= i < between.len() ==> after[i] == between[i],
        forall|j: int|
            0 <= j < 16 ==> #[trigger] after[between.len() + j] == c1[lane_at(j)] + 16
                * c1[lane_at(j) + 16],
        forall|l: int|
            0 <= l < 32 ==> #[trigger] c0[l] == code_nibble(codes, words, 32 * block + l, 2 * col),
        forall|l: int|
            0 <= l < 32 ==> #[trigger] c1[l] == code_nibble(
                codes,
                words,
                32 * block + l,
                2 * col + 1,
            ),
    ensures
        after.len() == (block * cols + col + 1) * 32,
        forall|i: int| 0 <= i < after.len() ==> after[i] == layout_byte(codes, words, cols, i),
{
    let at = (block * cols + col) * 32;
    assert forall|i: int| 0 <= i < after.len() implies after[i] == layout_byte(
        codes,
        words,
        cols,
        i,
    ) by {
        if i < at {
            assert(after[i] == between[i] && between[i] == before[i]);
        } else {
            let j = i - at;
            assert(i / 32 == block * cols + col);
            lemma_fundamental_div_mod_converse(i / 32, cols, block, col);
            if j < 16 {
                assert(i % 16 == j && (i % 32) / 16 == 0);
                assert(after[i] == between[before.len() + j]);
            } else {
                assert(i % 16 == j - 16 && (i % 32) / 16 == 1);
                assert(after[i] == after[between.len() + (j - 16)]);
            }
        }
    }
}

/// Packs the binary codes (one bit per dimension, `B / 64` words per vector)
/// into the FastScan layout.
pub fn pack_codes_from_binary<const B: usize>(binary_codes: &[u64]) -> (packed: Vec<u8>)
    requires
        B % 64 == 0,
        B > 0,
        binary_codes@.len() % (B as nat / 64) == 0,
        (binary_codes@.len() / (B as nat / 64)) % 32 == 0,
    ensures
        is_packing(
            binary_codes@,
            packed@,
            B as int / 64,
            B as int / 8,
            binary_codes@.len() as int / (B as int / 64),
        ),
{
    let words = B / 64;
    let cols = B / 8;
    let n_vecs = binary_codes.len() / words;
    let n_blocks = n_vecs / BLOCK_WIDTH;
    let mut packed: Vec<u8> = Vec::new();
    proof {
        lemma_fundamental_div_mod(binary_codes@.len() as int, words as int);
        assert(0 * cols == 0) by (nonlinear_arith);
    }
    for block in 0..n_blocks
        invariant
            words == B / 64,
            cols == 8 * words,
            words > 0,
            n_vecs * words == binary_codes@.len(),
            n_vecs == 32 * n_blocks,
            packed@.len() == block * cols * 32,
            forall|i: int|
                0 <= i < packed@.len() ==> packed@[i] == layout_byte(
                    binary_codes@,
                    words as int,
                    cols as int,
                    i,
                ),
    {
        for col in 0..cols
            invariant
                words == B / 64,
                cols == 8 * words,
                words > 0,
                n_vecs * words == binary_codes@.len(),
                n_vecs == 32 * n_blocks,
                block < n_blocks,
                packed@.len() == (block * cols + col) * 32,
                forall|i: int|
                    0 <= i < packed@.len() ==> packed@[i] == layout_byte(
                        binary_codes@,
                        words as int,
                        cols as int,
                        i,
                    ),
        {
            let c0 = gather_nibbles(binary_codes, words, n_vecs, block, 2 * col);
            let c1 = gather_nibbles(binary_codes, words, n_vecs, block, 2 * col + 1);
            let ghost before = packed@;
            push_half(&mut packed, &c0);
            let ghost between = packed@;
            push_half(&mut packed, &c1);
            proof {
                lemma_chunk_layout(
                    binary_codes@,
                    words as int,
                    cols as int,
                    block as int,
                    col as int,
                    before,
                    between,
                    packed@,
                    c0@,
                    c1@,
                );
            }
        }
        assert((block + 1) * cols == block * cols + cols) by (nonlinear_arith);
    }
    proof {
        assert forall|v: int, k: int|
            0 <= v < n_vecs && 0 <= k < B / 4 implies #[trigger] packed_nibble(
            packed@,
            cols as int,
            v,
            k,
        ) == code_nibble(binary_codes@, words as int, v, k) by {
            lemma_layout_nibble(packed@, binary_codes@, words as int, cols as int, n_blocks as int, v, k);
        }
        assert(n_blocks * cols * 32 == n_vecs * cols) by (nonlinear_arith)
            requires
                n_vecs == 32 * n_blocks,
        ;
    }
    packed
}

proof fn lemma_row_fits(row: int, rows: int, width: int, total: int)
    requires
        0 <= row < rows,
        0 <= width,
        rows * width == total,
    ensures
        0 <= row * width <= row * width + width <= total,
{
    assert(0 <= row * width && row * width + width <= rows * width) by (nonlinear_arith)
        requires
            0 <= row < rows,
            0 <= width,
    ;
}

/// The byte that holds a nibble lies within the codes.
pub proof fn lemma_packed_index(cols: int, n_blocks: int, v: int, k: int)
    requires
        0 <= v < 32 * n_blocks,
        0 <= k < 2 * cols,
    ensures
        0 <= packed_index(cols, v, k) < n_blocks * cols * 32,
        packed_index(cols, v, k) / 32 == (v / 32) * cols + k / 2,
        (packed_index(cols, v, k) / 32) / cols == v / 32,
        (packed_index(cols, v, k) / 32) % cols == k / 2,
        packed_index(cols, v, k) % 16 == slot_of(v % 16),
        (packed_index(cols, v, k) % 32) / 16 == k % 2,
{
    let b = v / 32;
    assert(0 <= slot_of(v % 16) < 16);
    lemma_row_fits(b, n_blocks, cols, n_blocks * cols);
    lemma_fundamental_div_mod_converse(b * cols + k / 2, cols, b, k / 2);
}

/// Codes whose bytes follow the layout hold the nibbles of the binary codes.
proof fn lemma_layout_nibble(
    packed: Seq<u8>,
    codes: Seq<u64>,
    words: int,
    cols: int,
    n_blocks: int,
    v: int,
    k: int,
)
    requires
        packed.len() == n_blocks * cols * 32,
        forall|i: int|
            0 <= i < packed.len() ==> packed[i] == layout_byte(codes, words, cols, i),
        0 <= v < 32 * n_blocks,
        0 <= k < 2 * cols,
    ensures
        packed_nibble(packed, cols, v, k) == code_nibble(codes, words, v, k),
{
    lemma_packed_index(cols, n_blocks, v, k);
    let i = packed_index(cols, v, k);
    let low = 32 * (v / 32) + v % 16;
    assert(lane_at(slot_of(v % 16)) == v % 16);
    assert(packed[i] == layout_byte(codes, words, cols, i));
    lemma_code_nibble(codes, words, low, k);
    lemma_code_nibble(codes, words, low + 16, k);
    assert(2 * (k / 2) + k % 2 == k);
    if v % 32 < 16 {
        assert(v == low);
    } else {
        assert(v == low + 16);
    }
}

const POS: [usize; 16] = [3, 3, 2, 3, 1, 3, 2, 3, 0, 3, 2, 3, 1, 3, 2, 3];

/// What position `pos` of a four-value query chunk weighs in a table index.
pub open spec fn pos_weight(pos: int) -> int {
    if pos == 0 {
        8
    } else if pos == 1 {
        4
    } else if pos == 2 {
        2
    } else {
        1
    }
}

/// Entry `j` of the table for query chunk `c`: the sum of the values whose bit is
/// set in `j`, the first value of the chunk at the highest bit.
pub open spec fn lut_entry(query: Seq<u8>, c: int, j: int) -> int {
    (j / 8 % 2) * query[4 * c] + (j / 4 % 2) * query[4 * c + 1] + (j / 2 % 2) * query[4 * c + 2] + (
    j % 2) * query[4 * c + 3]
}

/// How entry `j` of a lookup table grows from an earlier one: it is entry
/// `step.0` plus the value at position `step.1` of the query chunk, the position
/// that the lowest set bit of `j` stands for.
pub fn lut_step(j: usize) -> (step: (usize, usize))
    requires
        1 <= j < 16,
    ensures
        step.1 < 4,
        step.0 + pos_weight(step.1 as int) == j,
        j as int % pos_weight(step.1 as int) == 0,
        (j as int / pos_weight(step.1 as int)) % 2 == 1,
{
    let pos = POS[j];
    let lowbit: usize = if pos == 0 {
        8
    } else if pos == 1 {
        4
    } else if pos == 2 {
        2
    } else {
        1
    };
    (j - lowbit, pos)
}

/// Fills the lookup tables of a quantized query: 16 entries for each full chunk
/// of four values. The values of a chunk must add up to at most 255.
pub fn pack_lut<const B: usize>(quantized_query: &[u8], lut_output: &mut [u8])
    requires
        quantized_query@.len() == B,
        old(lut_output)@.len() == (B as nat / 4) * 16,
        forall|c: int|
            0 <= c < B / 4 ==> #[trigger] lut_entry(quantized_query@, c, 15) <= 255,
    ensures
        final(lut_output)@.len() == (B as nat / 4) * 16,
        forall|c: int, j: int|
            0 <= c < B / 4 && 0 <= j < 16 ==> #[trigger] final(lut_output)@[16 * c + j]
                == lut_entry(quantized_query@, c, j),
{
    let m = B / 4;
    for c in 0..m
        invariant
            m == B / 4,
            quantized_query@.len() == B,
            lut_output@.len() == m * 16,
            forall|c: int|
                0 <= c < B / 4 ==> #[trigger] lut_entry(quantized_query@, c, 15) <= 255,
            forall|e: int, j: int|
                0 <= e < c && 0 <= j < 16 ==> #[trigger] lut_output@[16 * e + j] == lut_entry(
                    quantized_query@,
                    e,
                    j,
                ),
    {
        assert(lut_entry(quantized_query@, c as int, 15) <= 255);
        assert(lut_output.len() == m * 16);
        lut_output[16 * c] = 0;
        assert(lut_entry(quantized_query@, c as int, 0) == 0) by {
            lemma_bit_times(0, quantized_query@[4 * c] as int);
            lemma_bit_times(0, quantized_query@[4 * c + 1] as int);
            lemma_bit_times(0, quantized_query@[4 * c + 2] as int);
            lemma_bit_times(0, quantized_query@[4 * c + 3] as int);
        }
        assert(lut_output@[16 * c + 0] == 0);
        for j in 1..16usize
            invariant
                m == B / 4,
                c < m,
                quantized_query@.len() == B,
                lut_output@.len() == m * 16,
                lut_output.len() == m * 16,
                lut_entry(quantized_query@, c as int, 15) <= 255,
                forall|e: int, i: int|
                    0 <= e < c && 0 <= i < 16 ==> #[trigger] lut_output@[16 * e + i] == lut_entry(
                        quantized_query@,
                        e,
                        i,
                    ),
                forall|i: int|
                    0 <= i < j ==> #[trigger] lut_output@[16 * c + i] == lut_entry(
                        quantized_query@,
                        c as int,
                        i,
                    ),
        {
            let (prev, pos) = lut_step(j);
            proof {
                lemma_lut_step(quantized_query@, c as int, j as int, prev as int, pos as int);
                assert(lut_output@[16 * c + prev] == lut_entry(quantized_query@, c as int, prev as int));
            }
            lut_output[16 * c + j] = lut_output[16 * c + prev] + quantized_query[4 * c + pos];
        }
    }
}

proof fn lemma_lut_step(query: Seq<u8>, c: int, j: int, prev: int, pos: int)
    requires
        1 <= j < 16,
        0 <= pos < 4,
        prev + pos_weight(pos) == j,
        j % pos_weight(pos) == 0,
        (j / pos_weight(pos)) % 2 == 1,
    ensures
        lut_entry(query, c, j) == lut_entry(query, c, prev) + query[4 * c + pos],
        lut_entry(query, c, j) <= lut_entry(query, c, 15),
{
    lemma_bit_times(j / 8 % 2, query[4 * c] as int);
    lemma_bit_times(j / 4 % 2, query[4 * c + 1] as int);
    lemma_bit_times(j / 2 % 2, query[4 * c + 2] as int);
    lemma_bit_times(j % 2, query[4 * c + 3] as int);
    lemma_bit_times(prev / 8 % 2, query[4 * c] as int);
    lemma_bit_times(prev / 4 % 2, query[4 * c + 1] as int);
    lemma_bit_times(prev / 2 % 2, query[4 * c + 2] as int);
    lemma_bit_times(prev % 2, query[4 * c + 3] as int);
    lemma_bit_times(1, query[4 * c] as int);
    lemma_bit_times(1, query[4 * c + 1] as int);
    lemma_bit_times(1, query[4 * c + 2] as int);
    lemma_bit_times(1, query[4 * c + 3] as int);
    if pos == 0 {
        assert(j == 8 && prev == 0);
    } else if pos == 1 {
        assert(prev == 0 || prev == 8);
    } else if pos == 2 {
        assert(prev % 4 == 0 && prev / 4 == j / 4);
    } else {
        assert(prev % 2 == 0 && prev / 2 == j / 2);
    }
}

proof fn lemma_bit_times(b: int, x: int)
    requires
        b == 0 || b == 1,
        0 <= x,
    ensures
        0 <= b * x <= x,
        b == 0 ==> b * x == 0,
        b == 1 ==> b * x == x,
{
    assert(0 * x == 0 && 1 * x == x) by (nonlinear_arith);
}

/// Nibble `k` of vector `v` of packed codes with `cols` chunks per block.
pub fn packed_nibble_at(packed: &[u8], cols: usize, n_blocks: usize, v: usize, k: usize) -> (r: u8)
    requires
        packed@.len() == n_blocks * cols * 32,
        v < 32 * n_blocks,
        k < 2 * cols,
    ensures
        r == packed_nibble(packed@, cols as int, v as int, k as int),
        r < 16,
{
    proof {
        lemma_packed_index(cols as int, n_blocks as int, v as int, k as int);
        lemma_row_fits(v as int / 32, n_blocks as int, cols as int, n_blocks * cols);
        assert(packed.len() == packed@.len());
        assert(n_blocks * cols * 32 <= usize::MAX);
    }
    let lane = v % 16;
    let slot = 2 * (lane % 8) + lane / 8;
    let byte = packed[((v / 32) * cols + k / 2) * 32 + 16 * (k % 2) + slot];
    proof {
        lemma_split_byte(byte);
    }
    if v % 32 < 16 {
        byte & 15
    } else {
        byte >> 4
    }
}

/// The word whose 16 nibbles are nibbles `16 * w ..` of vector `v` of packed codes.
fn word_of_packed(packed: &[u8], cols: usize, n_blocks: usize, v: usize, w: usize) -> (word: u64)
    requires
        packed@.len() == n_blocks * cols * 32,
        v < 32 * n_blocks,
        16 * w + 16 <= 2 * cols,
    ensures
        forall|t: int|
            0 <= t < 16 ==> #[trigger] word_nibble(word, t) == packed_nibble(
                packed@,
                cols as int,
                v as int,
                16 * w + t,
            ),
{
    let mut word: u64 = 0;
    assert(2 * cols <= usize::MAX) by {
        assert(cols * 32 <= n_blocks * cols * 32) by (nonlinear_arith)
            requires
                n_blocks >= 1,
        ;
        assert(packed.len() == packed@.len());
    }
    assert(word >> 0u64 == 0) by (bit_vector)
        requires
            word == 0,
    ;
    for t in 0..16usize
        invariant
            packed@.len() == n_blocks * cols * 32,
            v < 32 * n_blocks,
            16 * w + 16 <= 2 * cols,
            2 * cols <= usize::MAX,
            t < 16 ==> word >> ((4 * t) as u64) == 0,
            forall|u: int|
                0 <= u < t ==> #[trigger] word_nibble(word, u) == packed_nibble(
                    packed@,
                    cols as int,
                    v as int,
                    16 * w + u,
                ),
    {
        let nibble = packed_nibble_at(packed, cols, n_blocks, v, 16 * w + t);
        let bits = reverse_nibble(nibble);
        let ghost before = word;
        let bit_offset: usize = 4 * t;
        word = word | ((bits as u64) << bit_offset);
        proof {
            lemma_or_nibble(before, nibble, t as int);
        }
    }
    word
}

/// Recovers the binary codes from packed ones. A dimension that is not a multiple
/// of 64 leaves no room for its last nibbles, so unless there is nothing to unpack
/// it may exceed a multiple of 64 by less than one nibble.
pub fn unpack_packed_codes<const B: usize>(packed_codes: &[u8]) -> (codes: Vec<u64>)
    requires
        B >= 8,
        packed_codes@.len() % (B as nat / 8 * 32) == 0,
        packed_codes@.len() == 0 || B % 64 < 4,
    ensures
        is_packing(
            codes@,
            packed_codes@,
            B as int / 64,
            B as int / 8,
            32 * (packed_codes@.len() as int / (B as int / 8 * 32)),
        ),
{
    let mut codes: Vec<u64> = Vec::new();
    let words = B / 64;
    let cols = B / 8;
    if packed_codes.len() == 0 {
        proof {
            lemma_fundamental_div_mod_converse(0, cols * 32, 0, 0);
            assert(0 * words == 0 && 0 * cols == 0) by (nonlinear_arith);
        }
        return codes;
    }
    proof {
        lemma_fundamental_div_mod(packed_codes@.len() as int, cols * 32);
    }
    assert(cols * 32 <= packed_codes@.len()) by {
        if cols * 32 > packed_codes@.len() {
            lemma_fundamental_div_mod_converse(
                packed_codes@.len() as int,
                cols * 32,
                0,
                packed_codes@.len() as int,
            );
        }
    }
    let n_blocks = packed_codes.len() / (cols * 32);
    assert(packed_codes@.len() == n_blocks * cols * 32) by (nonlinear_arith)
        requires
            packed_codes@.len() == (cols * 32) * n_blocks,
    ;
    assert(n_blocks * 32 <= packed_codes.len()) by (nonlinear_arith)
        requires
            packed_codes.len() == (cols * 32) * n_blocks,
            cols >= 1,
    ;
    let n_vecs = n_blocks * 32;
    assert(0 * words == 0) by (nonlinear_arith);
    for v in 0..n_vecs
        invariant
            words == B / 64,
            cols == 8 * words,
            n_vecs == 32 * n_blocks,
            packed_codes@.len() == n_blocks * cols * 32,
            codes@.len() == v * words,
            forall|u: int, k: int|
                0 <= u < v && 0 <= k < 16 * words ==> #[trigger] code_nibble(
                    codes@,
                    words as int,
                    u,
                    k,
                ) == packed_nibble(packed_codes@, cols as int, u, k),
    {
        let ghost before = codes@;
        for w in 0..words
            invariant
                words == B / 64,
                cols == 8 * words,
                n_vecs == 32 * n_blocks,
                v < n_vecs,
                packed_codes@.len() == n_blocks * cols * 32,
                codes@.len() == before.len() + w,
                forall|i: int| 0 <= i < before.len() ==> codes@[i] == before[i],
                forall|x: int, t: int|
                    0 <= x < w && 0 <= t < 16 ==> #[trigger] word_nibble(
                        codes@[before.len() + x],
                        t,
                    ) == packed_nibble(packed_codes@, cols as int, v as int, 16 * x + t),
        {
            let word = word_of_packed(packed_codes, cols, n_blocks, v, w);
            codes.push(word);
        }
        proof {
            assert forall|u: int, k: int|
                0 <= u < v + 1 && 0 <= k < 16 * words implies #[trigger] code_nibble(
                codes@,
                words as int,
                u,
                k,
            ) == packed_nibble(packed_codes@, cols as int, u, k) by {
                lemma_code_nibble(codes@, words as int, u, k);
                if u < v {
                    lemma_code_nibble(before, words as int, u, k);
                    lemma_row_fits(u, v as int, words as int, v * words);
                    assert(code_nibble(before, words as int, u, k) == packed_nibble(
                        packed_codes@,
                        cols as int,
                        u,
                        k,
                    ));
                } else {
                    assert(word_nibble(codes@[before.len() + k / 16], k % 16) == packed_nibble(
                        packed_codes@,
                        cols as int,
                        v as int,
                        16 * (k / 16) + k % 16,
                    ));
                }
            }
            assert((v + 1) * words == v * words + words) by (nonlinear_arith);
        }
    }
    proof {
        assert(n_vecs * cols == n_blocks * cols * 32) by (nonlinear_arith)
            requires
                n_vecs == 32 * n_blocks,
        ;
        assert forall|v: int, k: int|
            0 <= v < n_vecs && 0 <= k < 2 * cols implies #[trigger] packed_nibble(
            packed_codes@,
            cols as int,
            v,
            k,
        ) == code_nibble(codes@, words as int, v, k) by {
            assert(code_nibble(codes@, words as int, v, k) == packed_nibble(
                packed_codes@,
                cols as int,
                v,
                k,
            ));
        }
    }
    codes
}

/// What a scan adds up for vector `v` over its first `n` nibbles.
pub open spec fn scan_sum(packed: Seq<u8>, luts: Seq<u8>, cols: int, v: int, n: int) -> int
    decreases n,
{
    if n <= 0 {
        0
    } else {
        scan_sum(packed, luts, cols, v, n - 1) + luts[16 * (n - 1) + packed_nibble(
            packed,
            cols,
            v,
            n - 1,
        )]
    }
}

/// A scan only adds: more nibbles never make the sum smaller, and each adds at most
/// 255.
pub proof fn lemma_scan_sum_grows(
    packed: Seq<u8>,
    luts: Seq<u8>,
    cols: int,
    v: int,
    n: int,
    m: int,
)
    requires
        0 <= n <= m,
    ensures
        0 <= scan_sum(packed, luts, cols, v, n) <= scan_sum(packed, luts, cols, v, m),
        scan_sum(packed, luts, cols, v, m) <= scan_sum(packed, luts, cols, v, n) + 255 * (m - n),
    decreases m,
{
    if n < m {
        lemma_scan_sum_grows(packed, luts, cols, v, n, m - 1);
    } else if n > 0 {
        lemma_scan_sum_grows(packed, luts, cols, v, n - 1, n - 1);
    }
}

/// Scalar scan of packed codes: each result is the sum of the table entries that
/// the nibbles of its vector select. The sums must fit 16 bits, as they always do with
/// fewer than 258 tables.
pub fn fast_scan_reference<const B: usize>(packed_codes: &[u8], luts: &[u8], results: &mut [u16])
    requires
        B >= 8,
        packed_codes@.len() % (B as nat / 8 * 32) == 0,
        old(results)@.len() == packed_codes@.len() / (B as nat / 8 * 32) * 32,
        luts@.len() == (B as nat / 4) * 16,
        B < 1032 || forall|v: int|
            0 <= v < old(results)@.len() ==> #[trigger] scan_sum(
                packed_codes@,
                luts@,
                B as int / 8,
                v,
                2 * (B as int / 8),
            ) <= u16::MAX,
    ensures
        final(results)@.len() == old(results)@.len(),
        forall|v: int|
            0 <= v < final(results)@.len() ==> #[trigger] final(results)@[v] == scan_sum(
                packed_codes@,
                luts@,
                B as int / 8,
                v,
                2 * (B as int / 8),
            ),
{
    let cols = B / 8;
    let n_vecs = results.len();
    let n_blocks = n_vecs / BLOCK_WIDTH;
    proof {
        lemma_fundamental_div_mod(packed_codes@.len() as int, cols * 32);
        let q = packed_codes@.len() as int / (cols * 32);
        assert((cols * 32) * q == q * cols * 32) by (nonlinear_arith);
        assert(n_blocks == q);
        assert forall|u: int| 0 <= u < n_vecs implies #[trigger] scan_sum(
            packed_codes@,
            luts@,
            cols as int,
            u,
            2 * cols as int,
        ) <= u16::MAX by {
            lemma_scan_sum_grows(packed_codes@, luts@, cols as int, u, 0, 2 * cols as int);
        }
    }
    for v in 0..n_vecs
        invariant
            cols == B / 8,
            n_vecs == results@.len(),
            n_vecs == 32 * n_blocks,
            packed_codes@.len() == n_blocks * cols * 32,
            luts@.len() == (B as nat / 4) * 16,
            luts.len() == luts@.len(),
            forall|u: int|
                0 <= u < n_vecs ==> #[trigger] scan_sum(
                    packed_codes@,
                    luts@,
                    cols as int,
                    u,
                    2 * cols as int,
                ) <= u16::MAX,
            forall|u: int|
                0 <= u < v ==> #[trigger] results@[u] == scan_sum(
                    packed_codes@,
                    luts@,
                    cols as int,
                    u,
                    2 * cols as int,
                ),
    {
        let mut sum: u16 = 0;
        assert(scan_sum(packed_codes@, luts@, cols as int, v as int, 2 * cols as int) <= u16::MAX);
        for k in 0..2 * cols
            invariant
                cols == B / 8,
                v < n_vecs,
                n_vecs == 32 * n_blocks,
                packed_codes@.len() == n_blocks * cols * 32,
                luts@.len() == (B as nat / 4) * 16,
                luts.len() == luts@.len(),
                scan_sum(packed_codes@, luts@, cols as int, v as int, 2 * cols as int) <= u16::MAX,
                sum == scan_sum(packed_codes@, luts@, cols as int, v as int, k as int),
        {
            let nibble = packed_nibble_at(packed_codes, cols, n_blocks, v, k);
            proof {
                lemma_scan_sum_grows(
                    packed_codes@,
                    luts@,
                    cols as int,
                    v as int,
                    k + 1,
                    2 * cols as int,
                );
            }
            sum = sum + luts[16 * k + nibble as usize] as u16;
        }
        results[v] = sum;
    }
}

/// The scan of `fast_scan_reference`.
pub fn fast_scan_scalar<const B: usize>(packed_codes: &[u8], luts: &[u8], results: &mut [u16])
    requires
        B >= 8,
        packed_codes@.len() % (B as nat / 8 * 32) == 0,
        old(results)@.len() == packed_codes@.len() / (B as nat / 8 * 32) * 32,
        luts@.len() == (B as nat / 4) * 16,
        B < 1032 || forall|v: int|
            0 <= v < old(results)@.len() ==> #[trigger] scan_sum(
                packed_codes@,
                luts@,
                B as int / 8,
                v,
                2 * (B as int / 8),
            ) <= u16::MAX,
    ensures
        final(results)@.len() == old(results)@.len(),
        forall|v: int|
            0 <= v < final(results)@.len() ==> #[trigger] final(results)@[v] == scan_sum(
                packed_codes@,
                luts@,
                B as int / 8,
                v,
                2 * (B as int / 8),
            ),
{
    fast_scan_reference::<B>(packed_codes, luts, results);
}

/// The order of the vectors of half a block within half a chunk.
pub open spec fn interleaved() -> Seq<int> {
    seq![0, 8, 1, 9, 2, 10, 3, 11, 4, 12, 5, 13, 6, 14, 7, 15]
}

/// Where packed codes hold what: half `h` of chunk `c` of a block holds nibble `2c + h`
/// of its 32 vectors, two to a byte. The low half of byte `j` is that of the vector that
/// the interleaved order names, the high half that of the vector 16 places later. A
/// nibble is made of four dimensions, the first weighing most.
pub proof fn law_packed_layout(
    codes: Seq<u64>,
    packed: Seq<u8>,
    words: int,
    cols: int,
    n_vecs: int,
    block: int,
    c: int,
    h: int,
    j: int,
    high: bool,
)
    requires
        is_packing(codes, packed, words, cols, n_vecs),
        0 <= block,
        32 * block + 32 <= n_vecs,
        0 <= c < cols,
        0 <= h < 2,
        0 <= j < 16,
    ensures
        ({
            let byte = packed[32 * (block * cols + c) + 16 * h + j] as int;
            let v = 32 * block + interleaved()[j] + (if high {
                16int
            } else {
                0
            });
            let nibble = if high {
                byte / 16
            } else {
                byte % 16
            };
            let word = codes[v * words + (8 * c + 4 * h) / 64];
            let low = (8 * c + 4 * h) % 64;
            nibble == 8 * ((word >> (low as u64)) & 1) + 4 * ((word >> ((low + 1) as u64)) & 1) + 2
                * ((word >> ((low + 2) as u64)) & 1) + ((word >> ((low + 3) as u64)) & 1)
        }),
{
    let lane = interleaved()[j];
    assert(lane == lane_at(j));
    let v = 32 * block + lane + (if high {
        16int
    } else {
        0
    });
    let k = 2 * c + h;
    assert(slot_of(v % 16) == j);
    assert(v / 32 == block && k / 2 == c && k % 2 == h);
    assert(packed_index(cols, v, k) == 32 * (block * cols + c) + 16 * h + j);
    assert((v % 32 < 16) == !high);
    assert(packed_nibble(packed, cols, v, k) == code_nibble(codes, words, v, k));
    lemma_code_nibble(codes, words, v, k);
    assert(4 * k == 8 * c + 4 * h);
    assert(k / 16 == (4 * k) / 64 && 4 * (k % 16) == (4 * k) % 64);
}

/// A lookup table holds the sums of all choices from the four values of its chunk: the
/// empty choice is 0, and to choose one more value adds it. The first value of the chunk
/// stands at the highest of the four bits of an index.
pub proof fn law_tables_hold_all_sums(query: Seq<u8>, c: int, j: int, pos: int)
    requires
        0 <= j < 16,
        0 <= pos < 4,
    ensures
        lut_entry(query, c, 0) == 0,
        ({
            let weight: int = if pos == 0 {
                8
            } else if pos == 1 {
                4
            } else if pos == 2 {
                2
            } else {
                1
            };
            (j / weight) % 2 == 0 ==> lut_entry(query, c, j + weight) == lut_entry(query, c, j)
                + query[4 * c + pos]
        }),
{
    let (q0, q1, q2, q3) = (
        query[4 * c] as int,
        query[4 * c + 1] as int,
        query[4 * c + 2] as int,
        query[4 * c + 3] as int,
    );
    assert(0 * q0 == 0 && 0 * q1 == 0 && 0 * q2 == 0 && 0 * q3 == 0 && 1 * q0 == q0 && 1 * q1 == q1
        && 1 * q2 == q2 && 1 * q3 == q3) by (nonlinear_arith);
    let weight: int = if pos == 0 {
        8
    } else if pos == 1 {
        4
    } else if pos == 2 {
        2
    } else {
        1
    };
    if (j / weight) % 2 == 0 {
        let i = j + weight;
        let (b0, b1, b2, b3) = (j / 8 % 2, j / 4 % 2, j / 2 % 2, j % 2);
        assert(pos == 0 ==> i / 8 % 2 == 1 && b0 == 0);
        assert(pos != 0 ==> i / 8 % 2 == b0);
        assert(pos == 1 ==> i / 4 % 2 == 1 && b1 == 0);
        assert(pos != 1 ==> i / 4 % 2 == b1);
        assert(pos == 2 ==> i / 2 % 2 == 1 && b2 == 0);
        assert(pos != 2 ==> i / 2 % 2 == b2);
        assert(pos == 3 ==> i % 2 == 1 && b3 == 0);
        assert(pos != 3 ==> i % 2 == b3);
    }
}

/// Each position of a chunk weighs half of what the one before it weighs in a table
/// index, and the last weighs one.
pub proof fn law_positions_halve(pos: int)
    requires
        0 <= pos < 3,
    ensures
        pos_weight(pos) == 2 * pos_weight(pos + 1),
        pos_weight(3) == 1,
{
}

} // verus!
