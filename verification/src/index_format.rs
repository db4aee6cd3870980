//! The file format of indexes.
//!
//! A file holds, all little-endian: the magic `RBFS`, a 32-bit version, the
//! dimension in 32 bits; then in 64 bits each the number of vectors and the number
//! of blocks; then three parts, each preceded by its length in 64 bits: the packed
//! codes, the words of the binary codes, and the factors, three 32-bit patterns
//! each.

use vstd::prelude::*;

use crate::le_bytes::{
    byte_range, le_byte, le_bytes, le_value, lemma_le_value_of_bytes, lemma_le_value_range,
    lemma_words_bytes_push, push_u32, push_u64, read_u32, read_u64, words_bytes,
};
use crate::rabitq_fast_scan::{RabitqFastScan, VectorFactors};

verus! {

/// Why an index could not be loaded.
#[derive(Clone, Copy, Debug, PartialEq, Eq, Structural)]
pub enum LoadError {
    /// The file ends before the last factor.
    UnexpectedEof,
    /// The file does not start with the magic.
    BadMagic,
    /// The file has another version.
    UnsupportedVersion { version: u32 },
    /// The file is for another dimension.
    DimensionMismatch { file: usize, dimension: usize },
    /// The number of packed bytes is not what the number of blocks demands.
    PackedLengthMismatch { file: usize, expected: u128 },
    /// The number of binary words is not what the number of blocks demands.
    BinaryLengthMismatch { file: usize, expected: u128 },
    /// The number of factors is not what the number of blocks demands.
    FactorsLengthMismatch { file: usize, expected: u128 },
}

/// The magic: `RBFS`.
pub open spec fn magic() -> Seq<u8> {
    seq![0x52u8, 0x42u8, 0x46u8, 0x53u8]
}

/// The little-endian bytes of a sequence of 64-bit words.
pub open spec fn longs_bytes(longs: Seq<u64>) -> Seq<u8> {
    Seq::new(8 * longs.len(), |p: int| le_byte(longs[p / 8] as int, p % 8))
}

/// The patterns of factors, three words each.
pub open spec fn factor_words(factors: Seq<VectorFactors>) -> Seq<u32> {
    Seq::new(
        3 * factors.len(),
        |p: int|
            if p % 3 == 0 {
                factors[p / 3].f_add
            } else if p % 3 == 1 {
                factors[p / 3].f_rescale
            } else {
                factors[p / 3].f_error
            },
    )
}

/// The factors at `at`.
pub open spec fn stored_factors(bytes: Seq<u8>, at: int) -> VectorFactors {
    VectorFactors {
        f_add: le_value(bytes, at, 4) as u32,
        f_rescale: le_value(bytes, at + 4, 4) as u32,
        f_error: le_value(bytes, at + 8, 4) as u32,
    }
}

/// The 64-bit number at `at`, as a length.
pub open spec fn length_at(bytes: Seq<u8>, at: int) -> int {
    ((le_value(bytes, at, 8) as u64) as usize) as int
}

/// Where the length of the binary codes lies.
pub open spec fn binary_at(bytes: Seq<u8>) -> int {
    36 + length_at(bytes, 28)
}

/// Where the length of the factors lies.
pub open spec fn factors_at(bytes: Seq<u8>) -> int {
    binary_at(bytes) + 8 + 8 * length_at(bytes, binary_at(bytes))
}

/// Where the factors end.
pub open spec fn end_at(bytes: Seq<u8>) -> int {
    factors_at(bytes) + 8 + 12 * length_at(bytes, factors_at(bytes))
}

/// Whether a file with a sound header holds all the parts that it announces.
pub open spec fn holds_parts(bytes: Seq<u8>) -> bool {
    &&& bytes.len() >= 36
    &&& bytes.len() >= binary_at(bytes) + 8
    &&& bytes.len() >= factors_at(bytes) + 8
    &&& bytes.len() >= end_at(bytes)
}

/// What is wrong with a file as the index of vectors of dimension `dim`.
pub open spec fn load_error(bytes: Seq<u8>, dim: usize) -> Option<LoadError> {
    let blocks = length_at(bytes, 20);
    let packed_len = length_at(bytes, 28);
    let binary_len = length_at(bytes, binary_at(bytes));
    let factors_len = length_at(bytes, factors_at(bytes));
    let expected_packed = dim as int / 8 * 32 * blocks;
    let expected_binary = blocks * 32 * (dim as int / 64);
    let expected_factors = blocks * 32;
    if bytes.len() < 4 {
        Some(LoadError::UnexpectedEof)
    } else if bytes.subrange(0, 4) != magic() {
        Some(LoadError::BadMagic)
    } else if bytes.len() < 8 {
        Some(LoadError::UnexpectedEof)
    } else if le_value(bytes, 4, 4) != 1 {
        Some(LoadError::UnsupportedVersion { version: le_value(bytes, 4, 4) as u32 })
    } else if bytes.len() < 12 {
        Some(LoadError::UnexpectedEof)
    } else if le_value(bytes, 8, 4) as u32 as usize != dim {
        Some(
            LoadError::DimensionMismatch {
                file: le_value(bytes, 8, 4) as u32 as usize,
                dimension: dim,
            },
        )
    } else if !holds_parts(bytes) {
        Some(LoadError::UnexpectedEof)
    } else if packed_len != expected_packed {
        Some(
            LoadError::PackedLengthMismatch {
                file: packed_len as usize,
                expected: expected_packed as u128,
            },
        )
    } else if binary_len != expected_binary {
        Some(
            LoadError::BinaryLengthMismatch {
                file: binary_len as usize,
                expected: expected_binary as u128,
            },
        )
    } else if factors_len != expected_factors {
        Some(
            LoadError::FactorsLengthMismatch {
                file: factors_len as usize,
                expected: expected_factors as u128,
            },
        )
    } else {
        None
    }
}

impl<const B: usize> RabitqFastScan<B> {
    /// The bytes of the file of this index.
    pub open spec fn file_bytes(&self) -> Seq<u8> {
        magic() + le_bytes(1, 4) + le_bytes(B as u32 as int, 4) + le_bytes(self.n as int, 8)
            + le_bytes(self.n_blocks as int, 8) + le_bytes(self.packed_codes@.len() as int, 8)
            + self.packed_codes@ + le_bytes(self.binary_codes@.len() as int, 8) + longs_bytes(
            self.binary_codes@,
        ) + le_bytes(self.factors@.len() as int, 8) + words_bytes(factor_words(self.factors@))
    }

    /// Whether the parts of the index are those in the file.
    pub open spec fn is_held_by(&self, bytes: Seq<u8>) -> bool {
        &&& self.n == length_at(bytes, 12)
        &&& self.n_blocks == length_at(bytes, 20)
        &&& self.packed_codes@ == bytes.subrange(36, binary_at(bytes))
        &&& self.binary_codes@.len() == length_at(bytes, binary_at(bytes))
        &&& forall|k: int|
            0 <= k < self.binary_codes@.len() ==> #[trigger] self.binary_codes@[k] == le_value(
                bytes,
                binary_at(bytes) + 8 + 8 * k,
                8,
            )
        &&& self.factors@.len() == length_at(bytes, factors_at(bytes))
        &&& forall|k: int|
            0 <= k < self.factors@.len() ==> #[trigger] self.factors@[k] == stored_factors(
                bytes,
                factors_at(bytes) + 8 + 12 * k,
            )
    }

    /// The bytes of the file of this index. The dimension is stored in 32 bits.
    pub fn save(&self) -> (bytes: Vec<u8>)
        ensures
            bytes@ == self.file_bytes(),
    {
        let mut bytes: Vec<u8> = Vec::new();
        bytes.push(0x52);
        bytes.push(0x42);
        bytes.push(0x46);
        bytes.push(0x53);
        assert(bytes@ =~= magic());
        push_u32(&mut bytes, 1);
        push_u32(&mut bytes, B as u32);
        push_u64(&mut bytes, self.n as u64);
        push_u64(&mut bytes, self.n_blocks as u64);
        push_u64(&mut bytes, self.packed_codes.len() as u64);
        let ghost start = bytes@;
        let packed_len = self.packed_codes.len();
        for k in 0..packed_len
            invariant
                packed_len == self.packed_codes@.len(),
                bytes@ =~= start + self.packed_codes@.subrange(0, k as int),
        {
            bytes.push(self.packed_codes[k]);
        }
        assert(self.packed_codes@.subrange(0, packed_len as int) =~= self.packed_codes@);
        push_u64(&mut bytes, self.binary_codes.len() as u64);
        let ghost start = bytes@;
        let binary_len = self.binary_codes.len();
        for k in 0..binary_len
            invariant
                binary_len == self.binary_codes@.len(),
                bytes@ =~= start + longs_bytes(self.binary_codes@.subrange(0, k as int)),
        {
            push_u64(&mut bytes, self.binary_codes[k]);
            assert(longs_bytes(self.binary_codes@.subrange(0, k + 1)) =~= longs_bytes(
                self.binary_codes@.subrange(0, k as int),
            ) + le_bytes(self.binary_codes@[k as int] as int, 8));
        }
        assert(self.binary_codes@.subrange(0, binary_len as int) =~= self.binary_codes@);
        push_u64(&mut bytes, self.factors.len() as u64);
        let ghost start = bytes@;
        let factors_len = self.factors.len();
        for k in 0..factors_len
            invariant
                factors_len == self.factors@.len(),
                bytes@ =~= start + words_bytes(factor_words(self.factors@.subrange(0, k as int))),
        {
            let ghost words = factor_words(self.factors@.subrange(0, k as int));
            let f = self.factors[k];
            push_u32(&mut bytes, f.f_add);
            push_u32(&mut bytes, f.f_rescale);
            push_u32(&mut bytes, f.f_error);
            proof {
                lemma_words_bytes_push(words, f.f_add);
                lemma_words_bytes_push(words.push(f.f_add), f.f_rescale);
                lemma_words_bytes_push(words.push(f.f_add).push(f.f_rescale), f.f_error);
                assert(factor_words(self.factors@.subrange(0, k + 1)) =~= words.push(f.f_add).push(
                    f.f_rescale,
                ).push(f.f_error));
            }
        }
        assert(self.factors@.subrange(0, factors_len as int) =~= self.factors@);
        assert(bytes@ =~= self.file_bytes());
        bytes
    }

    /// Loads an index from the bytes of its file. Bytes after the last factor are
    /// ignored.
    pub fn load(bytes: &[u8]) -> (result: Result<RabitqFastScan<B>, LoadError>)
        ensures
            match result {
                Ok(index) => load_error(bytes@, B) is None && index.is_held_by(bytes@)
                    && index.wf(),
                Err(error) => load_error(bytes@, B) == Some(error),
            },
    {
        let len = bytes.len();
        if len < 4 {
            return Err(LoadError::UnexpectedEof);
        }
        if !(bytes[0] == 0x52 && bytes[1] == 0x42 && bytes[2] == 0x46 && bytes[3] == 0x53) {
            proof {
                let first = bytes@.subrange(0, 4);
                assert(first[0] == bytes@[0] && first[1] == bytes@[1] && first[2] == bytes@[2]
                    && first[3] == bytes@[3]);
            }
            return Err(LoadError::BadMagic);
        }
        assert(bytes@.subrange(0, 4) =~= magic());
        let version = match read_u32(bytes, 4) {
            Some(version) => version,
            None => {
                return Err(LoadError::UnexpectedEof);
            },
        };
        if version != 1 {
            return Err(LoadError::UnsupportedVersion { version });
        }
        let dim = match read_u32(bytes, 8) {
            Some(dim) => dim as usize,
            None => {
                return Err(LoadError::UnexpectedEof);
            },
        };
        if dim != B {
            return Err(LoadError::DimensionMismatch { file: dim, dimension: B });
        }
        let lengths = match part_lengths(bytes) {
            Some(lengths) => lengths,
            None => {
                return Err(LoadError::UnexpectedEof);
            },
        };
        let (n, n_blocks, packed_len, binary_len, factors_len) = lengths;
        proof {
            lemma_expected(n_blocks as int, B as int);
        }
        let expected_target_n: u128 = n_blocks as u128 * 32;
        let expected_packed_len: u128 = (B / 8) as u128 * 32 * n_blocks as u128;
        let expected_binary_len: u128 = expected_target_n * (B / 64) as u128;
        if packed_len as u128 != expected_packed_len {
            return Err(
                LoadError::PackedLengthMismatch { file: packed_len, expected: expected_packed_len },
            );
        }
        if binary_len as u128 != expected_binary_len {
            return Err(
                LoadError::BinaryLengthMismatch { file: binary_len, expected: expected_binary_len },
            );
        }
        if factors_len as u128 != expected_target_n {
            return Err(
                LoadError::FactorsLengthMismatch { file: factors_len, expected: expected_target_n },
            );
        }
        let packed_codes = take_bytes(bytes, 36, packed_len);
        let binary_start = 36 + packed_len + 8;
        let binary_codes = take_longs(bytes, binary_start, binary_len);
        let factors_start = binary_start + 8 * binary_len + 8;
        let factors = take_factors(bytes, factors_start, factors_len);
        proof {
            assert(B as int / 8 * 32 * n_blocks == n_blocks * (B as int / 8 * 32))
                by (nonlinear_arith);
        }
        Ok(RabitqFastScan { n, n_blocks, packed_codes, binary_codes, factors })
    }
}

proof fn lemma_expected(blocks: int, dim: int)
    requires
        0 <= blocks <= u64::MAX,
        0 <= dim <= u32::MAX,
    ensures
        0 <= blocks * 32 <= u128::MAX,
        0 <= dim / 8 * 32 * blocks <= u128::MAX,
        0 <= blocks * 32 * (dim / 64) <= u128::MAX,
{
    let (c, w) = (dim / 8 * 32, dim / 64);
    assert(0 <= c * blocks <= 0x20_0000_0000 * 0xffff_ffff_ffff_ffff) by (nonlinear_arith)
        requires
            0 <= blocks <= 0xffff_ffff_ffff_ffff,
            0 <= c <= 0x20_0000_0000,
    ;
    assert(0 <= blocks * 32 * w <= 0x20_0000_0000 * 0xffff_ffff_ffff_ffff) by (nonlinear_arith)
        requires
            0 <= blocks <= 0xffff_ffff_ffff_ffff,
            0 <= w <= 0x1_0000_0000,
    ;
}

/// The number of vectors, the number of blocks and the three lengths of a file, if
/// it holds all parts.
fn part_lengths(bytes: &[u8]) -> (lengths: Option<(usize, usize, usize, usize, usize)>)
    requires
        bytes@.len() >= 12,
    ensures
        match lengths {
            Some((n, n_blocks, packed_len, binary_len, factors_len)) => {
                &&& holds_parts(bytes@)
                &&& n == length_at(bytes@, 12)
                &&& n_blocks == length_at(bytes@, 20)
                &&& packed_len == length_at(bytes@, 28)
                &&& binary_len == length_at(bytes@, binary_at(bytes@))
                &&& factors_len == length_at(bytes@, factors_at(bytes@))
            },
            None => !holds_parts(bytes@),
        },
{
    let len = bytes.len();
    if len < 36 {
        return None;
    }
    let n = length_of(bytes, 12);
    let n_blocks = length_of(bytes, 20);
    let packed_len = length_of(bytes, 28);
    if packed_len > len - 36 || len - 36 - packed_len < 8 {
        return None;
    }
    let binary_offset = 36 + packed_len;
    let binary_len = length_of(bytes, binary_offset);
    let room = len - binary_offset - 8;
    if binary_len > room / 8 || room - 8 * binary_len < 8 {
        return None;
    }
    let factors_offset = binary_offset + 8 + 8 * binary_len;
    let factors_len = length_of(bytes, factors_offset);
    let room = len - factors_offset - 8;
    if factors_len > room / 12 {
        return None;
    }
    Some((n, n_blocks, packed_len, binary_len, factors_len))
}

/// The length at `at` of a file that is long enough.
fn length_of(bytes: &[u8], at: usize) -> (length: usize)
    requires
        at + 8 <= bytes@.len(),
    ensures
        length == length_at(bytes@, at as int),
{
    proof {
        lemma_long_range(bytes@, at as int);
    }
    match read_u64(bytes, at) {
        Some(x) => x as usize,
        None => 0,
    }
}

proof fn lemma_long_range(bytes: Seq<u8>, at: int)
    ensures
        0 <= le_value(bytes, at, 8) <= u64::MAX,
{
    reveal_with_fuel(byte_range, 9);
    lemma_le_value_range(bytes, at, 8);
}

proof fn lemma_word_range(bytes: Seq<u8>, at: int)
    ensures
        0 <= le_value(bytes, at, 4) <= u32::MAX,
{
    reveal_with_fuel(byte_range, 5);
    lemma_le_value_range(bytes, at, 4);
}

/// Bytes of a file.
fn take_bytes(bytes: &[u8], start: usize, count: usize) -> (taken: Vec<u8>)
    requires
        start + count <= bytes@.len(),
    ensures
        taken@ == bytes@.subrange(start as int, start + count),
{
    let mut taken: Vec<u8> = Vec::new();
    assert(bytes.len() == bytes@.len());
    for k in 0..count
        invariant
            start + count <= bytes.len(),
            taken@ =~= bytes@.subrange(start as int, start + k),
    {
        taken.push(bytes[start + k]);
    }
    taken
}

/// 64-bit words of a file.
fn take_longs(bytes: &[u8], start: usize, count: usize) -> (longs: Vec<u64>)
    requires
        start + 8 * count <= bytes@.len(),
    ensures
        longs@.len() == count,
        forall|k: int|
            0 <= k < count ==> #[trigger] longs@[k] == le_value(bytes@, start + 8 * k, 8),
{
    let mut longs: Vec<u64> = Vec::new();
    assert(bytes.len() == bytes@.len());
    for k in 0..count
        invariant
            start + 8 * count <= bytes.len(),
            longs@.len() == k,
            forall|j: int|
                0 <= j < k ==> #[trigger] longs@[j] == le_value(bytes@, start + 8 * j, 8),
    {
        let long = match read_u64(bytes, start + 8 * k) {
            Some(long) => long,
            None => 0,
        };
        longs.push(long);
    }
    longs
}

/// A 32-bit pattern of a file that is long enough.
fn pattern_of(bytes: &[u8], at: usize) -> (pattern: u32)
    requires
        at + 4 <= bytes@.len(),
    ensures
        pattern == le_value(bytes@, at as int, 4),
{
    match read_u32(bytes, at) {
        Some(pattern) => pattern,
        None => 0,
    }
}

/// Factors of a file.
fn take_factors(bytes: &[u8], start: usize, count: usize) -> (factors: Vec<VectorFactors>)
    requires
        start + 12 * count <= bytes@.len(),
    ensures
        factors@.len() == count,
        forall|k: int|
            0 <= k < count ==> #[trigger] factors@[k] == stored_factors(bytes@, start + 12 * k),
{
    let mut factors: Vec<VectorFactors> = Vec::new();
    assert(bytes.len() == bytes@.len());
    for k in 0..count
        invariant
            start + 12 * count <= bytes.len(),
            factors@.len() == k,
            forall|j: int|
                0 <= j < k ==> #[trigger] factors@[j] == stored_factors(bytes@, start + 12 * j),
    {
        let at = start + 12 * k;
        let f_add = pattern_of(bytes, at);
        let f_rescale = pattern_of(bytes, at + 4);
        let f_error = pattern_of(bytes, at + 8);
        factors.push(VectorFactors { f_add, f_rescale, f_error });
    }
    factors
}

/// A number stored at `at` is read back.
proof fn lemma_stored(file: Seq<u8>, at: int, x: int, n: nat)
    requires
        0 <= at,
        at + n <= file.len(),
        0 <= x < byte_range(n as int),
        file.subrange(at, at + n) == le_bytes(x, n),
    ensures
        le_value(file, at, n as int) == x,
{
    assert forall|k: int| 0 <= k < n implies #[trigger] file[at + k] == le_byte(x, k) by {
        assert(file.subrange(at, at + n)[k] == file[at + k]);
    }
    lemma_le_value_of_bytes(file, at, x, n as int);
}

/// Loading undoes saving: the file of an index has no errors, and it holds the
/// parts of the index.
pub proof fn law_load_inverts_save<const B: usize>(index: &RabitqFastScan<B>)
    requires
        index.wf(),
        B <= u32::MAX,
    ensures
        load_error(index.file_bytes(), B) is None,
        index.is_held_by(index.file_bytes()),
{
    let file = index.file_bytes();
    let packed = index.packed_codes@;
    let longs = longs_bytes(index.binary_codes@);
    let patterns = words_bytes(factor_words(index.factors@));
    let p = packed.len() as int;
    let b = index.binary_codes@.len() as int;
    let f = index.factors@.len() as int;
    reveal_with_fuel(byte_range, 9);
    assert(byte_range(8) == 0x1_0000_0000_0000_0000);
    assert(file.len() == 36 + p + 8 + 8 * b + 8 + 12 * f);
    assert(file.subrange(0, 4) =~= magic());
    assert(file.subrange(4, 8) =~= le_bytes(1, 4));
    lemma_stored(file, 4, 1, 4);
    assert(file.subrange(8, 12) =~= le_bytes(B as u32 as int, 4));
    lemma_stored(file, 8, B as u32 as int, 4);
    assert(file.subrange(12, 20) =~= le_bytes(index.n as int, 8));
    lemma_stored(file, 12, index.n as int, 8);
    assert(file.subrange(20, 28) =~= le_bytes(index.n_blocks as int, 8));
    lemma_stored(file, 20, index.n_blocks as int, 8);
    assert(file.subrange(28, 36) =~= le_bytes(p, 8));
    assert(p <= usize::MAX && b <= usize::MAX && f <= usize::MAX) by {
        assert(index.packed_codes.len() == p && index.binary_codes.len() == b
            && index.factors.len() == f);
    }
    lemma_stored(file, 28, p, 8);
    assert(binary_at(file) == 36 + p);
    assert(file.subrange(36, 36 + p) =~= packed);
    assert(file.subrange(36 + p, 36 + p + 8) =~= le_bytes(b, 8));
    lemma_stored(file, 36 + p, b, 8);
    let at = 36 + p + 8;
    assert(factors_at(file) == at + 8 * b);
    assert(file.subrange(at, at + 8 * b) =~= longs);
    assert forall|k: int| 0 <= k < b implies #[trigger] index.binary_codes@[k] == le_value(
        file,
        at + 8 * k,
        8,
    ) by {
        assert forall|j: int| 0 <= j < 8 implies #[trigger] file[at + 8 * k + j] == le_byte(
            index.binary_codes@[k] as int,
            j,
        ) by {
            assert(file.subrange(at, at + 8 * b)[8 * k + j] == file[at + 8 * k + j]);
            assert((8 * k + j) / 8 == k && (8 * k + j) % 8 == j);
        }
        lemma_le_value_of_bytes(file, at + 8 * k, index.binary_codes@[k] as int, 8);
    }
    assert(file.subrange(at + 8 * b, at + 8 * b + 8) =~= le_bytes(f, 8));
    lemma_stored(file, at + 8 * b, f, 8);
    let start = at + 8 * b + 8;
    assert(file.subrange(start, start + 12 * f) =~= patterns);
    assert forall|k: int| 0 <= k < f implies #[trigger] index.factors@[k] == stored_factors(
        file,
        start + 12 * k,
    ) by {
        lemma_stored_pattern(file, start, index.factors@, 3 * k);
        lemma_stored_pattern(file, start, index.factors@, 3 * k + 1);
        lemma_stored_pattern(file, start, index.factors@, 3 * k + 2);
    }
    assert(B as int / 8 * 32 * index.n_blocks == index.n_blocks * (B as int / 8 * 32))
        by (nonlinear_arith);
}

proof fn lemma_stored_pattern(file: Seq<u8>, start: int, factors: Seq<VectorFactors>, i: int)
    requires
        0 <= start,
        start + 12 * factors.len() <= file.len(),
        file.subrange(start, start + 12 * factors.len()) == words_bytes(factor_words(factors)),
        0 <= i < 3 * factors.len(),
    ensures
        le_value(file, start + 4 * i, 4) == factor_words(factors)[i],
{
    let words = factor_words(factors);
    reveal_with_fuel(byte_range, 5);
    assert forall|j: int| 0 <= j < 4 implies #[trigger] file[start + 4 * i + j] == le_byte(
        words[i] as int,
        j,
    ) by {
        assert(file.subrange(start, start + 12 * factors.len())[4 * i + j] == file[start + 4 * i
            + j]);
        assert((4 * i + j) / 4 == i && (4 * i + j) % 4 == j);
    }
    lemma_le_value_of_bytes(file, start + 4 * i, words[i] as int, 4);
}

/// A file determines the index that it holds.
pub proof fn law_file_determines_index<const B: usize>(
    bytes: Seq<u8>,
    a: &RabitqFastScan<B>,
    b: &RabitqFastScan<B>,
)
    requires
        a.is_held_by(bytes),
        b.is_held_by(bytes),
    ensures
        a.n == b.n,
        a.n_blocks == b.n_blocks,
        a.packed_codes@ == b.packed_codes@,
        a.binary_codes@ == b.binary_codes@,
        a.factors@ == b.factors@,
{
    assert(a.binary_codes@ =~= b.binary_codes@);
    assert(a.factors@ =~= b.factors@);
}

/// What the file of an index holds, and where: `RBFS`, version 1, the dimension, the
/// number of vectors and of blocks, then packed codes, binary codes and factors, each
/// with its length before it.
pub proof fn law_index_file_layout<const B: usize>(index: &RabitqFastScan<B>)
    requires
        index.wf(),
        B <= u32::MAX,
    ensures
        ({
            let file = index.file_bytes();
            let p = index.packed_codes@.len() as int;
            let b = index.binary_codes@.len() as int;
            let f = index.factors@.len() as int;
            &&& file.len() == 52 + p + 8 * b + 12 * f
            &&& file[0] == 0x52 && file[1] == 0x42 && file[2] == 0x46 && file[3] == 0x53
            &&& le_value(file, 4, 4) == 1
            &&& le_value(file, 8, 4) == B
            &&& le_value(file, 12, 8) == index.n
            &&& le_value(file, 20, 8) == index.n_blocks
            &&& le_value(file, 28, 8) == p
            &&& forall|k: int| 0 <= k < p ==> #[trigger] index.packed_codes@[k] == file[36 + k]
            &&& le_value(file, 36 + p, 8) == b
            &&& forall|k: int|
                0 <= k < b ==> #[trigger] index.binary_codes@[k] == le_value(
                    file,
                    44 + p + 8 * k,
                    8,
                )
            &&& le_value(file, 44 + p + 8 * b, 8) == f
            &&& forall|k: int|
                0 <= k < f ==> {
                    let at = 52 + p + 8 * b + 12 * k;
                    &&& (#[trigger] index.factors@[k]).f_add == le_value(file, at, 4)
                    &&& index.factors@[k].f_rescale == le_value(file, at + 4, 4)
                    &&& index.factors@[k].f_error == le_value(file, at + 8, 4)
                }
        }),
{
    law_load_inverts_save(index);
    let file = index.file_bytes();
    let p = index.packed_codes@.len() as int;
    let b = index.binary_codes@.len() as int;
    let f = index.factors@.len() as int;
    reveal_with_fuel(byte_range, 9);
    assert(file.len() == 52 + p + 8 * b + 12 * f);
    assert(file.subrange(0, 4) =~= magic());
    assert(file.subrange(0, 4)[0] == file[0] && file.subrange(0, 4)[1] == file[1]
        && file.subrange(0, 4)[2] == file[2] && file.subrange(0, 4)[3] == file[3]);
    assert(p <= usize::MAX && b <= usize::MAX && f <= usize::MAX) by {
        assert(index.packed_codes.len() == p && index.binary_codes.len() == b
            && index.factors.len() == f);
    }
    assert(file.subrange(8, 12) =~= le_bytes(B as u32 as int, 4));
    lemma_stored(file, 8, B as u32 as int, 4);
    assert(file.subrange(12, 20) =~= le_bytes(index.n as int, 8));
    lemma_stored(file, 12, index.n as int, 8);
    assert(file.subrange(20, 28) =~= le_bytes(index.n_blocks as int, 8));
    lemma_stored(file, 20, index.n_blocks as int, 8);
    assert(file.subrange(28, 36) =~= le_bytes(p, 8));
    lemma_stored(file, 28, p, 8);
    assert(file.subrange(36 + p, 36 + p + 8) =~= le_bytes(b, 8));
    lemma_stored(file, 36 + p, b, 8);
    assert(file.subrange(44 + p + 8 * b, 44 + p + 8 * b + 8) =~= le_bytes(f, 8));
    lemma_stored(file, 44 + p + 8 * b, f, 8);
    assert forall|k: int| 0 <= k < p implies #[trigger] index.packed_codes@[k] == file[36 + k] by {
        assert(file.subrange(36, binary_at(file))[k] == file[36 + k]);
    }
    let start = 52 + p + 8 * b;
    assert(file.subrange(start, start + 12 * f) =~= words_bytes(factor_words(index.factors@)));
    assert forall|k: int| 0 <= k < f implies {
        let at = 52 + p + 8 * b + 12 * k;
        &&& (#[trigger] index.factors@[k]).f_add == le_value(file, at, 4)
        &&& index.factors@[k].f_rescale == le_value(file, at + 4, 4)
        &&& index.factors@[k].f_error == le_value(file, at + 8, 4)
    } by {
        lemma_stored_pattern(file, start, index.factors@, 3 * k);
        lemma_stored_pattern(file, start, index.factors@, 3 * k + 1);
        lemma_stored_pattern(file, start, index.factors@, 3 * k + 2);
    }
}

/// What is loaded from a file, and from where: the same places that a file is written
/// to.
pub proof fn law_index_is_loaded_in_order<const B: usize>(index: &RabitqFastScan<B>, bytes: Seq<u8>)
    requires
        load_error(bytes, B) is None,
        index.is_held_by(bytes),
    ensures
        ({
            let p = index.packed_codes@.len() as int;
            let b = index.binary_codes@.len() as int;
            let f = index.factors@.len() as int;
            &&& bytes.len() >= 52 + p + 8 * b + 12 * f
            &&& index.n == le_value(bytes, 12, 8) as u64 as usize
            &&& index.n_blocks == le_value(bytes, 20, 8) as u64 as usize
            &&& p == le_value(bytes, 28, 8) as u64 as usize
            &&& forall|k: int| 0 <= k < p ==> #[trigger] index.packed_codes@[k] == bytes[36 + k]
            &&& b == le_value(bytes, 36 + p, 8) as u64 as usize
            &&& forall|k: int|
                0 <= k < b ==> #[trigger] index.binary_codes@[k] == le_value(
                    bytes,
                    44 + p + 8 * k,
                    8,
                )
            &&& f == le_value(bytes, 44 + p + 8 * b, 8) as u64 as usize
            &&& forall|k: int|
                0 <= k < f ==> {
                    let at = 52 + p + 8 * b + 12 * k;
                    &&& (#[trigger] index.factors@[k]).f_add == le_value(bytes, at, 4)
                    &&& index.factors@[k].f_rescale == le_value(bytes, at + 4, 4)
                    &&& index.factors@[k].f_error == le_value(bytes, at + 8, 4)
                }
            &&& p == B as int / 8 * 32 * index.n_blocks
            &&& b == index.n_blocks * 32 * (B as int / 64)
            &&& f == index.n_blocks * 32
        }),
{
    let p = index.packed_codes@.len() as int;
    let b = index.binary_codes@.len() as int;
    let f = index.factors@.len() as int;
    assert(p == length_at(bytes, 28));
    assert(binary_at(bytes) == 36 + p);
    assert(factors_at(bytes) == 44 + p + 8 * b);
    assert forall|k: int| 0 <= k < p implies #[trigger] index.packed_codes@[k] == bytes[36 + k] by {
        assert(bytes.subrange(36, binary_at(bytes))[k] == bytes[36 + k]);
    }
    assert forall|k: int| 0 <= k < f implies {
        let at = 52 + p + 8 * b + 12 * k;
        &&& (#[trigger] index.factors@[k]).f_add == le_value(bytes, at, 4)
        &&& index.factors@[k].f_rescale == le_value(bytes, at + 4, 4)
        &&& index.factors@[k].f_error == le_value(bytes, at + 8, 4)
    } by {
        let at = 52 + p + 8 * b + 12 * k;
        lemma_word_range(bytes, at);
        lemma_word_range(bytes, at + 4);
        lemma_word_range(bytes, at + 8);
        assert(index.factors@[k] == stored_factors(bytes, at));
    }
}

/// Which files are loaded, and which error others give. A file must begin with `RBFS`,
/// version 1 and the dimension, hold its three parts, and these must have the lengths
/// that its number of blocks demands; the first of these that fails is the error.
pub proof fn law_load_errors(bytes: Seq<u8>, dim: usize)
    ensures
        ({
            let error = load_error(bytes, dim);
            let begins = bytes[0] == 0x52 && bytes[1] == 0x42 && bytes[2] == 0x46 && bytes[3]
                == 0x53;
            let version = le_value(bytes, 4, 4);
            let file_dim = le_value(bytes, 8, 4);
            let blocks = le_value(bytes, 20, 8) as u64 as usize;
            let p = le_value(bytes, 28, 8) as u64 as usize;
            let b = le_value(bytes, 36 + p, 8) as u64 as usize;
            let f = le_value(bytes, 44 + p + 8 * b, 8) as u64 as usize;
            let header = bytes.len() >= 12 && begins && version == 1 && file_dim == dim;
            let whole = bytes.len() >= 36 && bytes.len() >= 44 + p && bytes.len() >= 52 + p + 8 * b
                && bytes.len() >= 52 + p + 8 * b + 12 * f;
            &&& error == Some(LoadError::BadMagic) <==> bytes.len() >= 4 && !begins
            &&& error is Some && error->0 is UnsupportedVersion <==> bytes.len() >= 8 && begins
                && version != 1
            &&& error matches Some(LoadError::UnsupportedVersion { version: v }) ==> v == version
            &&& error is Some && error->0 is DimensionMismatch <==> bytes.len() >= 12 && begins
                && version == 1 && file_dim != dim
            &&& error matches Some(LoadError::DimensionMismatch { file, dimension }) ==> file
                == file_dim && dimension == dim
            &&& error is None <==> header && whole && p == dim as int / 8 * 32 * blocks && b
                == blocks * 32 * (dim as int / 64) && f == blocks * 32
            &&& error is Some && error->0 is PackedLengthMismatch <==> header && whole && p
                != dim as int / 8 * 32 * blocks
            &&& error matches Some(LoadError::PackedLengthMismatch { file, expected }) ==> file == p
                && expected == dim as int / 8 * 32 * blocks
            &&& error is Some && error->0 is BinaryLengthMismatch <==> header && whole && p
                == dim as int / 8 * 32 * blocks && b != blocks * 32 * (dim as int / 64)
            &&& error matches Some(LoadError::BinaryLengthMismatch { file, expected }) ==> file == b
                && expected == blocks * 32 * (dim as int / 64)
            &&& error is Some && error->0 is FactorsLengthMismatch <==> header && whole && p
                == dim as int / 8 * 32 * blocks && b == blocks * 32 * (dim as int / 64) && f
                != blocks * 32
            &&& error matches Some(LoadError::FactorsLengthMismatch { file, expected }) ==> file
                == f && expected == blocks * 32
        }),
{
    if le_value(bytes, 8, 4) == dim {
        lemma_word_range(bytes, 8);
        lemma_expected(length_at(bytes, 20), dim as int);
    }
    lemma_word_range(bytes, 4);
    lemma_word_range(bytes, 8);
    if bytes.len() >= 4 {
        let first = bytes.subrange(0, 4);
        assert(first[0] == bytes[0] && first[1] == bytes[1] && first[2] == bytes[2] && first[3]
            == bytes[3]);
        let m = magic();
        assert(m[0] == 0x52 && m[1] == 0x42 && m[2] == 0x46 && m[3] == 0x53 && m.len() == 4);
        if bytes[0] == 0x52 && bytes[1] == 0x42 && bytes[2] == 0x46 && bytes[3] == 0x53 {
            assert(first =~= m);
        }
    }
}

} // verus!
