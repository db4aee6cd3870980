//! Binary codes and the four-bit groups ("nibbles") they are cut into.
//!
//! A set of codes is one `u64` slice: vector `v` owns the `words` consecutive
//! words that start at `v * words`, and dimension `d` of that vector is bit
//! `d % 64` of its word `d / 64`. Nibble `k` of a vector covers dimensions
//! `4k .. 4k + 4`, the lowest dimension in the highest bit.

use vstd::prelude::*;

verus! {

/// Number of vectors in one block of packed codes.
pub const BLOCK_WIDTH: usize = 32;

/// Bit `i` of `w`, as 0 or 1.
pub open spec fn word_bit(w: u64, i: int) -> int {
    ((w >> (i as u64)) & 1u64) as int
}

/// Dimension `d` of vector `v`, as 0 or 1.
pub open spec fn code_bit(codes: Seq<u64>, words: int, v: int, d: int) -> int {
    word_bit(codes[v * words + d / 64], d % 64)
}

/// Nibble `t` of a single word: bits `4t .. 4t + 4`, the lowest bit weighing most.
pub open spec fn word_nibble(w: u64, t: int) -> int {
    8 * word_bit(w, 4 * t) + 4 * word_bit(w, 4 * t + 1) + 2 * word_bit(w, 4 * t + 2) + word_bit(
        w,
        4 * t + 3,
    )
}

/// Nibble `k` of vector `v`.
pub open spec fn code_nibble(codes: Seq<u64>, words: int, v: int, k: int) -> int {
    8 * code_bit(codes, words, v, 4 * k) + 4 * code_bit(codes, words, v, 4 * k + 1) + 2 * code_bit(
        codes,
        words,
        v,
        4 * k + 2,
    ) + code_bit(codes, words, v, 4 * k + 3)
}

/// A nibble with its four bits in the opposite order.
pub open spec fn reversed(b: u8) -> u8 {
    ((b & 1) << 3) | ((b & 2) << 1) | ((b & 4) >> 1) | ((b & 8) >> 3)
}

/// Reverses the four bits of a nibble.
pub fn reverse_nibble(b: u8) -> (r: u8)
    ensures
        r == reversed(b),
        r < 16,
{
    assert((((b & 1) << 3) | ((b & 2) << 1) | ((b & 4) >> 1) | ((b & 8) >> 3)) < 16) by (bit_vector);
    ((b & 1) << 3) | ((b & 2) << 1) | ((b & 4) >> 1) | ((b & 8) >> 3)
}

/// A bit is 0 or 1.
pub proof fn lemma_word_bit_range(w: u64, i: int)
    ensures
        0 <= word_bit(w, i) <= 1,
{
    let s = i as u64;
    assert((w >> s) & 1u64 <= 1u64) by (bit_vector);
}

/// Setting bit `s` of a word leaves the other bits.
pub proof fn lemma_set_bit(w: u64, s: u64, i: int)
    requires
        s < 64,
        0 <= i < 64,
    ensures
        word_bit(w | (1u64 << s), i) == (if i == s {
            1
        } else {
            word_bit(w, i)
        }),
{
    let t = i as u64;
    let set = w | (1u64 << s);
    assert(t == s ==> (set >> t) & 1u64 == 1) by (bit_vector)
        requires
            s < 64,
            set == w | (1u64 << s),
    ;
    assert(t != s ==> (set >> t) & 1u64 == (w >> t) & 1u64) by (bit_vector)
        requires
            s < 64,
            t < 64,
            set == w | (1u64 << s),
    ;
}

/// Zero has no bit set.
pub proof fn lemma_clear_word(i: int)
    ensures
        word_bit(0, i) == 0,
{
    let s = i as u64;
    assert((0u64 >> s) & 1u64 == 0) by (bit_vector);
}

/// A nibble read through a shift and a mask is the nibble read bit by bit.
pub proof fn lemma_word_nibble(w: u64, t: int)
    requires
        0 <= t < 16,
    ensures
        word_nibble(w, t) == reversed(((w >> ((4 * t) as u64)) & 15u64) as u8),
        0 <= word_nibble(w, t) < 16,
{
    let s: u64 = (4 * t) as u64;
    let s1: u64 = (4 * t + 1) as u64;
    let s2: u64 = (4 * t + 2) as u64;
    let s3: u64 = (4 * t + 3) as u64;
    let b: u8 = ((w >> s) & 15u64) as u8;
    assert(8 * ((w >> s) & 1u64) + 4 * ((w >> s1) & 1u64) + 2 * ((w >> s2) & 1u64) + ((w >> s3)
        & 1u64) == (((b & 1) << 3) | ((b & 2) << 1) | ((b & 4) >> 1) | ((b & 8) >> 3)) && (((b & 1)
        << 3) | ((b & 2) << 1) | ((b & 4) >> 1) | ((b & 8) >> 3)) < 16) by (bit_vector)
        requires
            s <= 60u64,
            s1 == s + 1,
            s2 == s + 2,
            s3 == s + 3,
            b == ((w >> s) & 15u64) as u8,
    ;
}

/// The nibble of a vector lies in a single word.
pub proof fn lemma_code_nibble(codes: Seq<u64>, words: int, v: int, k: int)
    requires
        0 <= k,
    ensures
        code_nibble(codes, words, v, k) == word_nibble(codes[v * words + k / 16], k % 16),
        0 <= code_nibble(codes, words, v, k) < 16,
{
    assert((4 * k) / 64 == k / 16 && (4 * k + 1) / 64 == k / 16 && (4 * k + 2) / 64 == k / 16 && (4
        * k + 3) / 64 == k / 16);
    assert((4 * k) % 64 == 4 * (k % 16));
    assert((4 * k + 1) % 64 == 4 * (k % 16) + 1);
    assert((4 * k + 2) % 64 == 4 * (k % 16) + 2);
    assert((4 * k + 3) % 64 == 4 * (k % 16) + 3);
    lemma_word_nibble(codes[v * words + k / 16], k % 16);
}

/// Two words with the same nibbles are the same word.
pub proof fn lemma_word_from_nibbles(a: u64, b: u64)
    requires
        forall|t: int| 0 <= t < 16 ==> #[trigger] word_nibble(a, t) == word_nibble(b, t),
    ensures
        a == b,
{
    assert forall|i: int| 0 <= i < 64 implies #[trigger] word_bit(a, i) == word_bit(b, i) by {
        let t = i / 4;
        assert(word_nibble(a, t) == word_nibble(b, t));
        lemma_word_bit_range(a, 4 * t);
        lemma_word_bit_range(a, 4 * t + 1);
        lemma_word_bit_range(a, 4 * t + 2);
        lemma_word_bit_range(a, 4 * t + 3);
        lemma_word_bit_range(b, 4 * t);
        lemma_word_bit_range(b, 4 * t + 1);
        lemma_word_bit_range(b, 4 * t + 2);
        lemma_word_bit_range(b, 4 * t + 3);
    }
    lemma_word_from_bits(a, b);
}

/// Two words with the same bits are the same word.
pub proof fn lemma_word_from_bits(a: u64, b: u64)
    requires
        forall|i: int| 0 <= i < 64 ==> #[trigger] word_bit(a, i) == word_bit(b, i),
    ensures
        a == b,
{
    if a != b {
        assert(a >> 64u64 == b >> 64u64) by (bit_vector);
        let i = lemma_differing_bit(a, b, 64);
        assert(word_bit(a, i as int) == word_bit(b, i as int));
        assert(false);
    }
}

proof fn lemma_differing_bit(a: u64, b: u64, n: u64) -> (i: u64)
    requires
        a != b,
        n <= 64,
        a >> n == b >> n,
    ensures
        i < n,
        (a >> i) & 1u64 != (b >> i) & 1u64,
    decreases n,
{
    if n == 0 {
        assert(a == b) by (bit_vector)
            requires
                a >> 0u64 == b >> 0u64,
        ;
        0
    } else {
        let p: u64 = (n - 1) as u64;
        if (a >> p) & 1u64 != (b >> p) & 1u64 {
            p
        } else {
            assert(a >> p == b >> p) by (bit_vector)
                requires
                    (a >> p) & 1u64 == (b >> p) & 1u64,
                    p < 64,
                    n == p + 1,
                    a >> n == b >> n,
            ;
            lemma_differing_bit(a, b, p)
        }
    }
}

/// Adding nibble `t` above the nibbles of `w` sets that nibble and keeps the rest.
pub proof fn lemma_or_nibble(w: u64, nibble: u8, t: int)
    requires
        0 <= t < 16,
        nibble < 16,
        w >> ((4 * t) as u64) == 0,
    ensures
        ({
            let joined = w | ((reversed(nibble) as u64) << ((4 * t) as u64));
            &&& word_nibble(joined, t) == nibble
            &&& forall|u: int|
                0 <= u < t ==> #[trigger] word_nibble(joined, u) == word_nibble(w, u)
            &&& t < 15 ==> joined >> ((4 * (t + 1)) as u64) == 0
        }),
{
    let s: u64 = (4 * t) as u64;
    let r: u8 = reversed(nibble);
    let joined = w | ((r as u64) << s);
    assert(((joined >> s) & 15u64) as u8 == r && r < 16 && (((r & 1) << 3) | ((r & 2) << 1) | ((r & 4)
        >> 1) | ((r & 8) >> 3)) == nibble) by (bit_vector)
        requires
            s <= 60,
            w >> s == 0,
            nibble < 16,
            r == ((nibble & 1) << 3) | ((nibble & 2) << 1) | ((nibble & 4) >> 1) | ((nibble & 8)
                >> 3),
            joined == w | ((r as u64) << s),
    ;
    lemma_word_nibble(joined, t);
    assert forall|u: int| 0 <= u < t implies #[trigger] word_nibble(joined, u) == word_nibble(
        w,
        u,
    ) by {
        let x: u64 = (4 * u) as u64;
        assert((joined >> x) & 15u64 == (w >> x) & 15u64) by (bit_vector)
            requires
                x + 4 <= s,
                s <= 60,
                joined == w | ((r as u64) << s),
        ;
        lemma_word_nibble(joined, u);
        lemma_word_nibble(w, u);
    }
    if t < 15 {
        let y: u64 = (4 * (t + 1)) as u64;
        assert(joined >> y == 0) by (bit_vector)
            requires
                y == s + 4,
                s < 60,
                w >> s == 0,
                r < 16,
                joined == w | ((r as u64) << s),
        ;
    }
}

/// Nibble `k` of the vector whose first word is `codes[base]`.
pub fn nibble_at(codes: &[u64], base: usize, k: usize) -> (r: u8)
    requires
        base + k / 16 < codes.len(),
    ensures
        r == word_nibble(codes@[base + k / 16], k as int % 16),
        r < 16,
{
    let word = codes[base + k / 16];
    let bit_offset: usize = (k % 16) * 4;
    let bits = ((word >> bit_offset) & 0xF) as u8;
    proof {
        lemma_word_nibble(word, k as int % 16);
    }
    reverse_nibble(bits)
}

/// Reversing a nibble exchanges its first bit with its fourth and its second with its
/// third, whatever stands above them; to do it twice gives the nibble back.
pub proof fn law_reversing_exchanges_bits(b: u8)
    ensures
        reversed(b) & 1 == (b >> 3) & 1,
        (reversed(b) >> 1) & 1 == (b >> 2) & 1,
        (reversed(b) >> 2) & 1 == (b >> 1) & 1,
        (reversed(b) >> 3) & 1 == b & 1,
        reversed(b) < 16,
        reversed(reversed(b)) == b % 16,
{
    let r = reversed(b);
    assert(r & 1 == (b >> 3) & 1 && (r >> 1) & 1 == (b >> 2) & 1 && (r >> 2) & 1 == (b >> 1) & 1 && (r
        >> 3) & 1 == b & 1 && r < 16 && (((r & 1) << 3) | ((r & 2) << 1) | ((r & 4) >> 1) | ((r & 8)
        >> 3)) == b % 16) by (bit_vector)
        requires
            r == ((b & 1) << 3) | ((b & 2) << 1) | ((b & 4) >> 1) | ((b & 8) >> 3),
    ;
}

} // verus!
