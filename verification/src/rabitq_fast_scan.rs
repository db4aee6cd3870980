//! The index: the binary codes of a set of vectors, packed for block-wise scans.
//!
//! Single-precision numbers (vector components, distance factors) are carried as
//! their bit patterns; the library looks at their signs and their order only.

use vstd::arithmetic::div_mod::{lemma_fundamental_div_mod, lemma_fundamental_div_mod_converse};
use vstd::prelude::*;
use vstd::slice::slice_subrange;

use crate::codes::{code_bit, lemma_clear_word, lemma_set_bit, word_bit};
use crate::distance::{is_positive, law_positive_is_greater_than_zero, positive_pattern};
use crate::rabitq_fast_scan_kernels::{
    is_packing, pack_codes_from_binary, packed_nibble, scan_sum,
};

verus! {

/// Number of vectors in a block.
pub const BLOCK_SIZE: usize = 32;

/// What turns the scan result of a vector into a distance, as bit patterns of
/// single-precision numbers.
#[derive(Clone, Copy, Debug, PartialEq, Eq, Structural)]
pub struct VectorFactors {
    /// Added to the distance estimate.
    pub f_add: u32,
    /// Scale of the inner product.
    pub f_rescale: u32,
    /// Bound on the error of the estimate.
    pub f_error: u32,
}

/// The factors of a padding vector: all zero.
pub open spec fn zero_factors() -> VectorFactors {
    VectorFactors { f_add: 0, f_rescale: 0, f_error: 0 }
}

impl Default for VectorFactors {
    fn default() -> (factors: VectorFactors)
        ensures
            factors == zero_factors(),
    {
        VectorFactors { f_add: 0, f_rescale: 0, f_error: 0 }
    }
}

/// Vectors of the same dimension, row after row, as bit patterns of
/// single-precision numbers.
pub struct VectorDataset {
    pub data: Vec<u32>,
    pub n: usize,
    pub dim: usize,
}

impl VectorDataset {
    /// Whether the data is `n` rows.
    pub open spec fn wf(&self) -> bool {
        self.data@.len() == self.n * self.dim
    }

    /// Component `d` of vector `i`.
    pub open spec fn component(&self, i: int, d: int) -> u32 {
        self.data@[i * self.dim + d]
    }

    pub fn new(data: Vec<u32>, n: usize, dim: usize) -> (dataset: VectorDataset)
        requires
            data@.len() == n * dim,
        ensures
            dataset.wf(),
            dataset.data == data,
            dataset.n == n,
            dataset.dim == dim,
    {
        VectorDataset { data, n, dim }
    }

    /// Vector `i`.
    pub fn get(&self, i: usize) -> (vector: &[u32])
        requires
            self.wf(),
            i < self.n,
        ensures
            vector@.len() == self.dim,
            forall|d: int|
                0 <= d < self.dim ==> #[trigger] vector@[d] == self.component(i as int, d),
    {
        assert(0 <= i * self.dim && i * self.dim + self.dim <= self.n * self.dim)
            by (nonlinear_arith)
            requires
                0 <= i,
                i + 1 <= self.n,
                0 <= self.dim,
        ;
        assert(self.data.len() == self.data@.len());
        slice_subrange(self.data.as_slice(), i * self.dim, i * self.dim + self.dim)
    }
}

/// The highest level to which the entries of so many tables may be quantized: with
/// one entry of each at that level, their sum still fits 16 bits.
pub open spec fn highest_level(tables: int) -> int {
    if 65535int / tables < 255 {
        65535int / tables
    } else {
        255
    }
}

/// The highest level to which table entries may be quantized.
pub fn max_quant_level<const B: usize>() -> (level: u8)
    requires
        B >= 4,
    ensures
        level == highest_level(B as int / 4),
{
    let level = 65535usize / (B / 4);
    if level < 255 {
        level as u8
    } else {
        255
    }
}

/// A level brought into the range from 0 to the highest level.
pub open spec fn clamped_level(level: i32, highest: int) -> int {
    if level < 0 {
        0
    } else if level > highest {
        highest
    } else {
        level as int
    }
}

/// A level brought into the range from 0 to the highest level.
pub fn clamp_level(level: i32, highest: u8) -> (clamped: u8)
    ensures
        clamped == clamped_level(level, highest as int),
{
    if level < 0 {
        0
    } else if level > highest as i32 {
        highest
    } else {
        level as u8
    }
}

/// Lookup tables of the given levels, each brought into the range from 0 to the
/// highest level.
pub fn quantized_tables<const B: usize>(levels: &[i32]) -> (luts: Vec<u8>)
    requires
        B >= 4,
        levels@.len() == 16 * (B as nat / 4),
    ensures
        luts@.len() == levels@.len(),
        forall|i: int|
            0 <= i < luts@.len() ==> #[trigger] luts@[i] == clamped_level(
                levels@[i],
                highest_level(B as int / 4),
            ),
        forall|i: int|
            0 <= i < luts@.len() ==> #[trigger] luts@[i] <= highest_level(B as int / 4),
{
    let highest = max_quant_level::<B>();
    let mut luts: Vec<u8> = Vec::new();
    for i in 0..levels.len()
        invariant
            highest == highest_level(B as int / 4),
            luts@.len() == i,
            forall|k: int|
                0 <= k < i ==> #[trigger] luts@[k] == clamped_level(
                    levels@[k],
                    highest_level(B as int / 4),
                ),
    {
        luts.push(clamp_level(levels[i], highest));
    }
    assert forall|i: int| 0 <= i < luts@.len() implies #[trigger] luts@[i] <= highest_level(
        B as int / 4,
    ) by {
        assert(luts@[i] == clamped_level(levels@[i], highest_level(B as int / 4)));
    }
    luts
}

/// Tables quantized to the highest level never overflow a scan.
pub proof fn law_quantized_scans_fit(
    packed: Seq<u8>,
    luts: Seq<u8>,
    cols: int,
    tables: int,
    v: int,
    n: int,
)
    requires
        0 < tables,
        luts.len() == 16 * tables,
        0 <= n <= tables,
        forall|i: int| 0 <= i < luts.len() ==> #[trigger] luts[i] <= highest_level(tables),
    ensures
        scan_sum(packed, luts, cols, v, n) <= u16::MAX,
{
    let level = highest_level(tables);
    lemma_scan_at_most(packed, luts, cols, level, v, n);
    assert(n * level <= 65535) by (nonlinear_arith)
        requires
            0 < tables,
            0 <= n <= tables,
            0 <= level,
            level <= 65535int / tables,
    ;
}

proof fn lemma_scan_at_most(packed: Seq<u8>, luts: Seq<u8>, cols: int, level: int, v: int, n: int)
    requires
        0 <= n,
        16 * n <= luts.len(),
        forall|i: int| 0 <= i < luts.len() ==> #[trigger] luts[i] <= level,
    ensures
        scan_sum(packed, luts, cols, v, n) <= n * level,
    decreases n,
{
    if n > 0 {
        lemma_scan_at_most(packed, luts, cols, level, v, n - 1);
        assert((n - 1) * level + level == n * level) by (nonlinear_arith);
        assert(0 <= packed_nibble(packed, cols, v, n - 1) < 16);
    } else {
        assert(0 * level == 0) by (nonlinear_arith);
    }
}

/// The index of a set of vectors of dimension `B`.
pub struct RabitqFastScan<const B: usize> {
    /// Number of vectors without padding.
    pub n: usize,
    /// Number of 32-vector blocks, padding included.
    pub n_blocks: usize,
    /// The codes in the FastScan layout.
    pub packed_codes: Vec<u8>,
    /// The codes with one bit per dimension.
    pub binary_codes: Vec<u64>,
    /// The factors of each vector, padding included.
    pub factors: Vec<VectorFactors>,
}

impl<const B: usize> RabitqFastScan<B> {
    /// Whether the parts have the lengths that the number of blocks demands.
    pub open spec fn wf(&self) -> bool {
        &&& self.packed_codes@.len() == self.n_blocks * (B as nat / 8 * 32)
        &&& self.binary_codes@.len() == self.n_blocks * 32 * (B as nat / 64)
        &&& self.factors@.len() == self.n_blocks * 32
    }

    /// Whether, further, packed and binary codes are the same codes, and padding
    /// only fills up the last block.
    pub open spec fn consistent(&self) -> bool {
        &&& self.wf()
        &&& B > 0
        &&& B % 64 == 0
        &&& is_packing(
            self.binary_codes@,
            self.packed_codes@,
            B as int / 64,
            B as int / 8,
            self.n_blocks * 32,
        )
        &&& self.n <= self.n_blocks * 32
        &&& self.n_blocks == (self.n + 31) / 32
    }

    /// An index from binary codes and factors.
    pub fn from_binary_codes(
        binary_codes: Vec<u64>,
        factors: Vec<VectorFactors>,
    ) -> (index: RabitqFastScan<B>)
        requires
            B % 64 == 0,
            B > 0,
            binary_codes@.len() % (B as nat / 64) == 0,
            factors@.len() == binary_codes@.len() / (B as nat / 64),
            factors@.len() % 32 == 0,
        ensures
            index.consistent(),
            index.n == factors@.len(),
            index.n_blocks == factors@.len() / 32,
            index.binary_codes == binary_codes,
            index.factors == factors,
    {
        let n = factors.len();
        proof {
            lemma_fundamental_div_mod(binary_codes@.len() as int, B as int / 64);
            assert((B as int / 64) * n == n * (B as int / 64)) by (nonlinear_arith);
        }
        Self::assemble(n, binary_codes, factors)
    }

    /// An index from the codes and factors of all vectors, padding included.
    fn assemble(
        n: usize,
        binary_codes: Vec<u64>,
        factors: Vec<VectorFactors>,
    ) -> (index: RabitqFastScan<B>)
        requires
            B % 64 == 0,
            B > 0,
            binary_codes@.len() == factors@.len() * (B as nat / 64),
            factors@.len() % 32 == 0,
            n <= factors@.len() < n + 32,
        ensures
            index.consistent(),
            index.n == n,
            index.n_blocks == factors@.len() / 32,
            index.binary_codes == binary_codes,
            index.factors == factors,
    {
        let n_blocks = factors.len() / BLOCK_SIZE;
        let ghost total = factors@.len() as int;
        proof {
            lemma_fundamental_div_mod_converse(
                binary_codes@.len() as int,
                B as int / 64,
                total,
                0,
            );
        }
        let packed_codes = pack_codes_from_binary::<B>(binary_codes.as_slice());
        proof {
            assert(total * (B as int / 8) == n_blocks * (B as int / 8 * 32)) by (nonlinear_arith)
                requires
                    total == 32 * n_blocks,
            ;
        }
        RabitqFastScan { n, n_blocks, packed_codes, binary_codes, factors }
    }

    /// Whether the binary codes hold the signs of the vectors, and those of the
    /// padding vectors are zero.
    pub open spec fn codes_are_signs_of(&self, dataset: &VectorDataset) -> bool {
        forall|v: int, d: int|
            0 <= v < self.n_blocks * 32 && 0 <= d < B ==> #[trigger] code_bit(
                self.binary_codes@,
                B as int / 64,
                v,
                d,
            ) == (if v < dataset.n && positive_pattern(dataset.component(v, d)) {
                1int
            } else {
                0
            })
    }

    /// Whether the factors are the given ones, and zero for the padding vectors.
    pub open spec fn factors_extend(&self, factors: Seq<VectorFactors>) -> bool {
        forall|v: int|
            0 <= v < self.n_blocks * 32 ==> #[trigger] self.factors@[v] == (if v < factors.len() {
                factors[v]
            } else {
                zero_factors()
            })
    }

    /// An index from vectors and their factors: a dimension is one in the code of a
    /// vector where its component is greater than zero. The vectors must fill whole
    /// blocks; `from_f32_dataset_padded` takes any number of them.
    pub fn from_f32_dataset(
        dataset: &VectorDataset,
        factors: Vec<VectorFactors>,
    ) -> (index: RabitqFastScan<B>)
        requires
            dataset.wf(),
            dataset.dim == B,
            B % 64 == 0,
            B > 0,
            factors@.len() == dataset.n,
            dataset.n % 32 == 0,
        ensures
            index.consistent(),
            index.n == dataset.n,
            index.n_blocks == dataset.n / 32,
            index.codes_are_signs_of(dataset),
            index.factors_extend(factors@),
    {
        Self::build_from_f32_internal(dataset, factors)
    }

    /// An index from any number of vectors and their factors, with the codes that
    /// `from_f32_dataset` gives them. Padding vectors fill up the last block: their
    /// codes and factors are zero.
    pub fn from_f32_dataset_padded(
        dataset: &VectorDataset,
        factors: Vec<VectorFactors>,
    ) -> (index: RabitqFastScan<B>)
        requires
            dataset.wf(),
            dataset.dim == B,
            B % 64 == 0,
            B > 0,
            factors@.len() == dataset.n,
            dataset.n % 32 == 0 || dataset.n + 31 <= usize::MAX,
        ensures
            index.consistent(),
            index.n == dataset.n,
            index.codes_are_signs_of(dataset),
            index.factors_extend(factors@),
    {
        Self::build_from_f32_internal(dataset, factors)
    }

    /// Word `w` of the code of a vector: the signs of 64 components.
    fn sign_word(vector: &[u32], w: usize) -> (word: u64)
        requires
            64 * w + 64 <= vector@.len(),
        ensures
            forall|b: int|
                0 <= b < 64 ==> #[trigger] word_bit(word, b) == (if positive_pattern(
                    vector@[64 * w + b],
                ) {
                    1int
                } else {
                    0
                }),
    {
        let mut word: u64 = 0;
        proof {
            assert forall|b: int| 0 <= b < 64 implies #[trigger] word_bit(0, b) == 0 by {
                lemma_clear_word(b);
            }
            assert(vector.len() == vector@.len());
        }
        for bit in 0..64usize
            invariant
                64 * w + 64 <= vector@.len(),
                vector.len() == vector@.len(),
                forall|b: int|
                    0 <= b < 64 ==> #[trigger] word_bit(word, b) == (if b < bit && positive_pattern(
                        vector@[64 * w + b],
                    ) {
                        1int
                    } else {
                        0
                    }),
        {
            if is_positive(vector[64 * w + bit]) {
                let ghost before = word;
                word = word | (1u64 << bit);
                proof {
                    assert forall|b: int| 0 <= b < 64 implies #[trigger] word_bit(word, b) == (if b
                        < bit + 1 && positive_pattern(vector@[64 * w + b]) {
                        1int
                    } else {
                        0
                    }) by {
                        lemma_set_bit(before, bit as u64, b);
                    }
                }
            }
        }
        word
    }

    fn build_from_f32_internal(
        dataset: &VectorDataset,
        factors: Vec<VectorFactors>,
    ) -> (index: RabitqFastScan<B>)
        requires
            dataset.wf(),
            dataset.dim == B,
            B % 64 == 0,
            B > 0,
            factors@.len() == dataset.n,
            dataset.n % 32 == 0 || dataset.n + 31 <= usize::MAX,
        ensures
            index.consistent(),
            index.n == dataset.n,
            index.codes_are_signs_of(dataset),
            index.factors_extend(factors@),
    {
        let n_u64 = B / 64;
        let actual_n = dataset.n;
        let target_n = if actual_n % BLOCK_SIZE == 0 {
            actual_n
        } else {
            (actual_n / BLOCK_SIZE + 1) * BLOCK_SIZE
        };
        let ghost given = factors@;
        let mut factors = factors;
        let mut binary_codes: Vec<u64> = Vec::new();
        let ghost words = n_u64 as int;
        assert(0 * words == 0) by (nonlinear_arith);
        for i in 0..actual_n
            invariant
                dataset.wf(),
                dataset.dim == B,
                actual_n == dataset.n,
                n_u64 == B / 64,
                words == n_u64,
                B == 64 * words,
                binary_codes@.len() == i * words,
                forall|v: int, d: int|
                    0 <= v < i && 0 <= d < B ==> #[trigger] code_bit(binary_codes@, words, v, d)
                        == (if positive_pattern(dataset.component(v, d)) {
                        1int
                    } else {
                        0
                    }),
        {
            let vector = dataset.get(i);
            let ghost before = binary_codes@;
            for w in 0..n_u64
                invariant
                    vector@.len() == 64 * n_u64,
                    binary_codes@.len() == before.len() + w,
                    forall|p: int| 0 <= p < before.len() ==> binary_codes@[p] == before[p],
                    forall|x: int, b: int|
                        0 <= x < w && 0 <= b < 64 ==> #[trigger] word_bit(
                            binary_codes@[before.len() + x],
                            b,
                        ) == (if positive_pattern(vector@[64 * x + b]) {
                            1int
                        } else {
                            0
                        }),
            {
                binary_codes.push(Self::sign_word(vector, w));
            }
            proof {
                assert forall|v: int, d: int|
                    0 <= v < i + 1 && 0 <= d < B implies #[trigger] code_bit(
                    binary_codes@,
                    words,
                    v,
                    d,
                ) == (if positive_pattern(dataset.component(v, d)) {
                    1int
                } else {
                    0
                }) by {
                    if v < i {
                        assert(0 <= v * words && v * words + words <= i * words)
                            by (nonlinear_arith)
                            requires
                                0 <= v,
                                v + 1 <= i,
                                0 <= words,
                        ;
                        assert(code_bit(before, words, v, d) == (if positive_pattern(
                            dataset.component(v, d),
                        ) {
                            1int
                        } else {
                            0
                        }));
                    } else {
                        assert(word_bit(binary_codes@[before.len() + d / 64], d % 64) == (
                        if positive_pattern(vector@[64 * (d / 64) + d % 64]) {
                            1int
                        } else {
                            0
                        }));
                        assert(vector@[d] == dataset.component(i as int, d));
                    }
                }
                assert((i + 1) * words == i * words + words) by (nonlinear_arith);
            }
        }
        let ghost coded = binary_codes@;
        for i in actual_n..target_n
            invariant
                n_u64 == words,
                actual_n <= i,
                actual_n == given.len(),
                coded.len() == actual_n * words,
                coded.len() <= binary_codes@.len(),
                binary_codes@.len() == i * words,
                factors@.len() == i,
                forall|p: int| 0 <= p < coded.len() ==> binary_codes@[p] == coded[p],
                forall|p: int| coded.len() <= p < binary_codes@.len() ==> binary_codes@[p] == 0,
                forall|v: int|
                    0 <= v < i ==> #[trigger] factors@[v] == (if v < given.len() {
                        given[v]
                    } else {
                        zero_factors()
                    }),
        {
            factors.push(VectorFactors::default());
            let ghost before = binary_codes@;
            for w in 0..n_u64
                invariant
                    binary_codes@.len() == before.len() + w,
                    forall|p: int| 0 <= p < before.len() ==> binary_codes@[p] == before[p],
                    forall|p: int|
                        before.len() <= p < binary_codes@.len() ==> binary_codes@[p] == 0,
            {
                binary_codes.push(0);
            }
            assert forall|p: int| coded.len() <= p < binary_codes@.len() implies binary_codes@[p]
                == 0 by {
                if p < before.len() {
                    assert(binary_codes@[p] == before[p]);
                }
            }
            assert((i + 1) * words == i * words + words) by (nonlinear_arith);
        }
        let index = Self::assemble(actual_n, binary_codes, factors);
        proof {
            assert forall|v: int, d: int|
                0 <= v < index.n_blocks * 32 && 0 <= d < B implies #[trigger] code_bit(
                index.binary_codes@,
                words,
                v,
                d,
            ) == (if v < dataset.n && positive_pattern(dataset.component(v, d)) {
                1int
            } else {
                0
            }) by {
                if v < actual_n {
                    assert(0 <= v * words && v * words + words <= actual_n * words)
                        by (nonlinear_arith)
                        requires
                            0 <= v,
                            v + 1 <= actual_n,
                            0 <= words,
                    ;
                    assert(code_bit(coded, words, v, d) == (if positive_pattern(
                        dataset.component(v, d),
                    ) {
                        1int
                    } else {
                        0
                    }));
                } else {
                    assert(actual_n * words <= v * words && v * words + words <= target_n * words)
                        by (nonlinear_arith)
                        requires
                            actual_n <= v,
                            v + 1 <= target_n,
                            0 <= words,
                    ;
                    lemma_clear_word(d % 64);
                }
            }
        }
        index
    }

    /// The number of vectors without padding.
    pub fn len(&self) -> (len: usize)
        ensures
            len == self.n,
    {
        self.n
    }

    /// Whether there are no vectors.
    pub fn is_empty(&self) -> (empty: bool)
        ensures
            empty == (self.n == 0),
    {
        self.n == 0
    }

    /// The number of 32-vector blocks.
    pub fn num_blocks(&self) -> (blocks: usize)
        ensures
            blocks == self.n_blocks,
    {
        self.n_blocks
    }

    /// The factors of each vector.
    pub fn factors(&self) -> (factors: &[VectorFactors])
        ensures
            factors@ == self.factors@,
    {
        self.factors.as_slice()
    }

    /// The codes in the FastScan layout.
    pub fn packed_codes(&self) -> (codes: &[u8])
        ensures
            codes@ == self.packed_codes@,
    {
        self.packed_codes.as_slice()
    }

    /// The codes with one bit per dimension.
    pub fn binary_codes(&self) -> (codes: &[u64])
        ensures
            codes@ == self.binary_codes@,
    {
        self.binary_codes.as_slice()
    }

    /// The number of bytes of a block of packed codes.
    pub fn block_size_bytes(&self) -> (bytes: usize)
        requires
            B / 8 * 32 <= usize::MAX,
        ensures
            bytes == B / 8 * 32,
    {
        B / 8 * BLOCK_SIZE
    }
}

/// The codes of an index made from vectors: bit `d % 64` of word `d / 64` of the code of
/// vector `v` is one exactly where component `d` of the vector is the pattern of a
/// number greater than zero, and so all codes of padding vectors are zero.
pub proof fn law_code_bits_are_signs<const B: usize>(
    index: &RabitqFastScan<B>,
    dataset: &VectorDataset,
    v: int,
    d: int,
)
    requires
        index.codes_are_signs_of(dataset),
        0 <= v < 32 * index.n_blocks,
        0 <= d < B,
    ensures
        ({
            let word = index.binary_codes@[v * (B as int / 64) + d / 64];
            let bit = (word >> ((d % 64) as u64)) & 1u64;
            &&& bit == 0 || bit == 1
            &&& bit == 1 <==> v < dataset.n && 1 <= dataset.data@[v * dataset.dim + d]
                <= 0x7f80_0000
        }),
{
    assert(code_bit(index.binary_codes@, B as int / 64, v, d) == (if v < dataset.n
        && positive_pattern(dataset.component(v, d)) {
        1int
    } else {
        0
    }));
    law_positive_is_greater_than_zero(dataset.component(v, d));
}

/// The factors of an index made from vectors are those given for the vectors, and zero
/// for the padding that fills up the last block, of which there are fewer than 32.
pub proof fn law_padding_has_zero_factors<const B: usize>(
    index: &RabitqFastScan<B>,
    factors: Seq<VectorFactors>,
    v: int,
)
    requires
        index.consistent(),
        index.n == factors.len(),
        index.factors_extend(factors),
        0 <= v < 32 * index.n_blocks,
    ensures
        index.factors@.len() == 32 * index.n_blocks,
        index.n <= 32 * index.n_blocks < index.n + 32,
        v < index.n ==> index.factors@[v] == factors[v],
        v >= index.n ==> {
            &&& index.factors@[v].f_add == 0
            &&& index.factors@[v].f_rescale == 0
            &&& index.factors@[v].f_error == 0
        },
{
    assert(index.factors@[v] == (if v < factors.len() {
        factors[v]
    } else {
        zero_factors()
    }));
}

/// The highest level is the highest that fits: an entry of a table at that level fits a
/// byte and one of each table fit 16 bits together, and at the next level one of the two
/// would not.
pub proof fn law_highest_level_is_highest(tables: int)
    requires
        0 < tables,
    ensures
        ({
            let level = highest_level(tables);
            &&& 0 <= level <= 255
            &&& tables * level <= 65535
            &&& level + 1 > 255 || tables * (level + 1) > 65535
        }),
{
    let level = highest_level(tables);
    let q = 65535int / tables;
    lemma_fundamental_div_mod(65535, tables);
    assert(tables * level <= tables * q) by (nonlinear_arith)
        requires
            level <= q,
            0 < tables,
    ;
    if level == q {
        assert(tables * (q + 1) == tables * q + tables) by (nonlinear_arith);
    }
    assert(0 <= q) by (nonlinear_arith)
        requires
            q == 65535int / tables,
            0 < tables,
    ;
}

/// Bringing levels into the range from 0 to the highest keeps those that are in it and
/// the order of all, and takes the others to the nearer end.
pub proof fn law_clamping_keeps_order(a: i32, b: i32, highest: int)
    requires
        0 <= highest,
        a <= b,
    ensures
        0 <= clamped_level(a, highest) <= clamped_level(b, highest) <= highest,
        0 <= a <= highest ==> clamped_level(a, highest) == a,
        a <= 0 ==> clamped_level(a, highest) == 0,
        a >= highest ==> clamped_level(a, highest) == highest,
{
}

} // verus!
