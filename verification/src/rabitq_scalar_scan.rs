//! The scan over unpacked binary codes: bit-sliced queries and popcounts.
//!
//! A quantized query is cut into bit slices: slice `j` is a binary code that holds
//! bit `j` of every query value. The inner product with a binary code is then the
//! sum over the slices of a popcount, weighted by `2^j`.

use vstd::arithmetic::power2::pow2;
use vstd::prelude::*;
use vstd::slice::slice_subrange;

use crate::codes::{
    code_bit, lemma_clear_word, lemma_set_bit, lemma_word_bit_range, word_bit,
};

verus! {

/// Number of ones among the lowest `n` bits of `w`.
pub open spec fn ones_below(w: u64, n: int) -> int
    decreases n,
{
    if n <= 0 {
        0
    } else {
        ones_below(w, n - 1) + word_bit(w, n - 1)
    }
}

/// `u64::count_ones` returns the number of ones in the binary representation of
/// its argument.
pub assume_specification[ u64::count_ones ](w: u64) -> (ones: u32)
    ensures
        ones == ones_below(w, 64),
;

/// The inner product of the first `n` dimensions of code `i` of `a` and code `v`
/// of `b`.
pub open spec fn pair_ip(a: Seq<u64>, i: int, b: Seq<u64>, v: int, words: int, n: int) -> int
    decreases n,
{
    if n <= 0 {
        0
    } else {
        pair_ip(a, i, b, v, words, n - 1) + code_bit(a, words, i, n - 1) * code_bit(
            b,
            words,
            v,
            n - 1,
        )
    }
}

/// The inner products of the first `m` slices of `a` with code `v` of `b`, each
/// shifted left by its slice number within 32 bits, added up.
pub open spec fn sliced_ip(a: Seq<u64>, b: Seq<u64>, v: int, words: int, m: int) -> int
    decreases m,
{
    if m <= 0 {
        0
    } else {
        sliced_ip(a, b, v, words, m - 1) + (pair_ip(a, m - 1, b, v, words, 64 * words) * pow2(
            (m - 1) as nat,
        )) % 0x1_0000_0000
    }
}

proof fn lemma_and_bit(a: u64, b: u64, i: int)
    ensures
        word_bit(a & b, i) == word_bit(a, i) * word_bit(b, i),
{
    let s = i as u64;
    assert(((a & b) >> s) & 1u64 == ((a >> s) & 1u64) * ((b >> s) & 1u64)) by (bit_vector);
}

/// The ones of a word pair continue the inner product of the words before.
proof fn lemma_word_ip(a: Seq<u64>, b: Seq<u64>, words: int, w: int, n: int)
    requires
        0 <= w,
        0 <= n <= 64,
    ensures
        pair_ip(a, 0, b, 0, words, 64 * w + n) == pair_ip(a, 0, b, 0, words, 64 * w) + ones_below(
            a[w] & b[w],
            n,
        ),
    decreases n,
{
    if n > 0 {
        lemma_word_ip(a, b, words, w, n - 1);
        let x = 64 * w + n - 1;
        assert(x / 64 == w && x % 64 == n - 1);
        assert(0 * words == 0) by (nonlinear_arith);
        lemma_and_bit(a[w], b[w], n - 1);
    }
}

/// Inner products of codes never shrink when dimensions are added.
proof fn lemma_pair_ip_grows(a: Seq<u64>, i: int, b: Seq<u64>, v: int, words: int, n: int, m: int)
    requires
        0 <= n <= m,
    ensures
        0 <= pair_ip(a, i, b, v, words, n) <= pair_ip(a, i, b, v, words, m) <= pair_ip(
            a,
            i,
            b,
            v,
            words,
            n,
        ) + (m - n),
    decreases m,
{
    if m > 0 {
        let (p, q) = (code_bit(a, words, i, m - 1), code_bit(b, words, v, m - 1));
        lemma_word_bit_range(a[i * words + (m - 1) / 64], (m - 1) % 64);
        lemma_word_bit_range(b[v * words + (m - 1) / 64], (m - 1) % 64);
        assert(0 <= p * q <= 1) by (nonlinear_arith)
            requires
                0 <= p <= 1,
                0 <= q <= 1,
        ;
        if n < m {
            lemma_pair_ip_grows(a, i, b, v, words, n, m - 1);
        } else {
            lemma_pair_ip_grows(a, i, b, v, words, n - 1, n - 1);
        }
    }
}

/// The inner product of two binary codes: the popcount of their conjunction.
pub fn ip_bin_bin<const B: usize>(q: &[u64], d: &[u64]) -> (ip: u32)
    requires
        q@.len() == B / 64,
        d@.len() == B / 64,
        B <= u32::MAX || pair_ip(q@, 0, d@, 0, B as int / 64, 64 * (B as int / 64)) <= u32::MAX,
    ensures
        ip == pair_ip(q@, 0, d@, 0, B as int / 64, 64 * (B as int / 64)),
{
    let n_u64 = B / 64;
    let mut ret: u32 = 0;
    proof {
        lemma_pair_ip_grows(q@, 0, d@, 0, n_u64 as int, 0, 64 * n_u64);
    }
    for i in 0..n_u64
        invariant
            n_u64 == B / 64,
            q@.len() == n_u64,
            d@.len() == n_u64,
            pair_ip(q@, 0, d@, 0, n_u64 as int, 64 * n_u64) <= u32::MAX,
            ret == pair_ip(q@, 0, d@, 0, n_u64 as int, 64 * i),
    {
        proof {
            lemma_word_ip(q@, d@, n_u64 as int, i as int, 64);
            lemma_pair_ip_grows(q@, 0, d@, 0, n_u64 as int, 64 * i + 64, 64 * n_u64);
        }
        ret = ret + (q[i] & d[i]).count_ones();
    }
    ret
}

/// The inner product of one code does not depend on where the code is stored.
proof fn lemma_pair_ip_moved(
    a: Seq<u64>,
    i: int,
    a2: Seq<u64>,
    i2: int,
    b: Seq<u64>,
    v: int,
    b2: Seq<u64>,
    v2: int,
    words: int,
    n: int,
)
    requires
        0 <= n <= 64 * words,
        forall|w: int|
            0 <= w < words ==> #[trigger] a[i * words + w] == a2[i2 * words + w] && b[v * words + w]
                == b2[v2 * words + w],
    ensures
        pair_ip(a, i, b, v, words, n) == pair_ip(a2, i2, b2, v2, words, n),
    decreases n,
{
    if n > 0 {
        lemma_pair_ip_moved(a, i, a2, i2, b, v, b2, v2, words, n - 1);
        let w = (n - 1) / 64;
        assert(a[i * words + w] == a2[i2 * words + w]);
    }
}

proof fn lemma_chunk(i: int, n: int, words: int, total: int)
    requires
        0 <= i < n,
        0 <= words,
        total == n * words,
    ensures
        0 <= i * words,
        (i + 1) * words == i * words + words,
        i * words + words <= total,
{
    assert(0 <= i * words && (i + 1) * words == i * words + words && i * words + words <= total)
        by (nonlinear_arith)
        requires
            0 <= i,
            i + 1 <= n,
            0 <= words,
            total == n * words,
    ;
}

/// A left shift within 32 bits.
proof fn lemma_shl_wraps(x: u32, i: u32)
    requires
        i < 32,
    ensures
        (x << i) as int == (x * pow2(i as nat)) % 0x1_0000_0000,
{
    let y = x as u64;
    let k = i as u64;
    vstd::arithmetic::power2::lemma2_to64();
    assert(x * pow2(i as nat) <= u64::MAX) by {
        if i < 31 {
            vstd::arithmetic::power2::lemma_pow2_strictly_increases(i as nat, 32);
        }
        vstd::arithmetic::power2::lemma_pow2_strictly_increases(i as nat, 32);
        assert(x * pow2(i as nat) <= 0x1_0000_0000 * 0xffff_ffff) by (nonlinear_arith)
            requires
                0 <= x <= 0xffff_ffff,
                0 <= pow2(i as nat) <= 0x1_0000_0000,
        ;
    }
    vstd::bits::lemma_u64_shl_is_mul(y, k);
    let z = y << k;
    assert((x << i) as u64 == z % 0x1_0000_0000) by (bit_vector)
        requires
            i < 32,
            z == (x as u64) << (i as u64),
    ;
}

/// Whether sums over so many dimensions and slices fit 32 bits whatever is summed.
pub open spec fn is_small(dim: usize, slices: usize) -> bool {
    dim <= 0x1_0000 && slices <= 16
}

/// Whether every sum in the inner product of a bit-sliced query with a code fits 32
/// bits.
pub open spec fn slices_fit(a: Seq<u64>, b: Seq<u64>, words: int, m: int) -> bool {
    &&& sliced_ip(a, b, 0, words, m) <= u32::MAX
    &&& forall|i: int|
        0 <= i < m ==> #[trigger] pair_ip(a, i, b, 0, words, 64 * words) <= u32::MAX
}

/// A number at most `x`, shifted left, is at most `x` shifted left.
proof fn lemma_shifted_at_most(ip: int, x: int, j: nat)
    requires
        0 <= ip <= x,
    ensures
        (ip * pow2(j)) % 0x1_0000_0000 <= x * pow2(j),
        x * pow2(j + 1) == x * pow2(j) + x * pow2(j),
{
    vstd::arithmetic::power2::lemma_pow2_unfold(j + 1);
    let p = pow2(j);
    assert(0 <= ip * p <= x * p) by (nonlinear_arith)
        requires
            0 <= ip <= x,
            0 <= p,
    ;
    assert(x * (2 * p) == x * p + x * p) by (nonlinear_arith);
    vstd::arithmetic::div_mod::lemma_mod_decreases((ip * p) as nat, 0x1_0000_0000);
}

/// With all inner products at most `x`, slices add up to less than `x` shifted left
/// by their number.
proof fn lemma_sliced_ip_at_most(a: Seq<u64>, b: Seq<u64>, words: int, x: int, m: int)
    requires
        0 <= m,
        0 <= 64 * words <= x,
    ensures
        sliced_ip(a, b, 0, words, m) <= x * pow2(m as nat) - x,
    decreases m,
{
    if m > 0 {
        lemma_sliced_ip_at_most(a, b, words, x, m - 1);
        lemma_pair_ip_grows(a, m - 1, b, 0, words, 0, 64 * words);
        lemma_shifted_at_most(
            pair_ip(a, m - 1, b, 0, words, 64 * words),
            x,
            (m - 1) as nat,
        );
    } else {
        vstd::arithmetic::power2::lemma2_to64();
    }
}

/// Up to 16 slices and 65536 dimensions, every sum fits.
proof fn lemma_small_slices_fit(a: Seq<u64>, b: Seq<u64>, words: int, m: int)
    requires
        0 <= m <= 16,
        0 <= 64 * words <= 0x1_0000,
    ensures
        slices_fit(a, b, words, m),
{
    lemma_sliced_ip_at_most(a, b, words, 0x1_0000, m);
    vstd::arithmetic::power2::lemma2_to64();
    if m < 16 {
        vstd::arithmetic::power2::lemma_pow2_strictly_increases(m as nat, 16);
    }
    assert(0x1_0000 * pow2(m as nat) - 0x1_0000 <= u32::MAX) by (nonlinear_arith)
        requires
            pow2(m as nat) <= 0x1_0000,
    ;
    assert forall|i: int| 0 <= i < m implies #[trigger] pair_ip(a, i, b, 0, words, 64 * words)
        <= u32::MAX by {
        lemma_pair_ip_grows(a, i, b, 0, words, 0, 64 * words);
    }
}

/// The inner product of a bit-sliced query with a binary code: the inner product
/// of each slice, shifted left by the slice number within 32 bits, added up.
pub fn ip_byte_bin<const B: usize, const B_QUERY: usize>(
    transposed_query: &[u64],
    data_code: &[u64],
) -> (ip: u32)
    requires
        data_code@.len() == B / 64,
        transposed_query@.len() == B_QUERY * (B as nat / 64),
        B_QUERY <= 32,
        is_small(B, B_QUERY) || slices_fit(
            transposed_query@,
            data_code@,
            B as int / 64,
            B_QUERY as int,
        ),
    ensures
        ip == sliced_ip(transposed_query@, data_code@, 0, B as int / 64, B_QUERY as int),
{
    let n_u64 = B / 64;
    let mut ret: u32 = 0;
    let ghost words = n_u64 as int;
    proof {
        if is_small(B, B_QUERY) {
            lemma_small_slices_fit(transposed_query@, data_code@, words, B_QUERY as int);
        }
    }
    for i in 0..B_QUERY
        invariant
            n_u64 == B / 64,
            words == n_u64,
            data_code@.len() == n_u64,
            transposed_query@.len() == B_QUERY * (B as nat / 64),
            transposed_query.len() == transposed_query@.len(),
            B_QUERY <= 32,
            forall|i: int|
                0 <= i < B_QUERY ==> #[trigger] pair_ip(
                    transposed_query@,
                    i,
                    data_code@,
                    0,
                    words,
                    64 * words,
                ) <= u32::MAX,
            sliced_ip(transposed_query@, data_code@, 0, words, B_QUERY as int) <= u32::MAX,
            ret == sliced_ip(transposed_query@, data_code@, 0, words, i as int),
    {
        proof {
            lemma_chunk(i as int, B_QUERY as int, words, transposed_query@.len() as int);
        }
        let q_chunk = slice_subrange(transposed_query, i * n_u64, (i + 1) * n_u64);
        proof {
            assert(0 * words == 0) by (nonlinear_arith);
            lemma_pair_ip_moved(
                transposed_query@,
                i as int,
                q_chunk@,
                0,
                data_code@,
                0,
                data_code@,
                0,
                words,
                64 * words,
            );
        }
        let part = ip_bin_bin::<B>(q_chunk, data_code);
        let shift = i as u32;
        proof {
            lemma_shl_wraps(part, shift);
            lemma_sliced_ip_grows(
                transposed_query@,
                data_code@,
                0,
                words,
                i + 1,
                B_QUERY as int,
            );
        }
        ret = ret + (part << shift);
    }
    ret
}

/// Slices only add.
proof fn lemma_sliced_ip_grows(a: Seq<u64>, b: Seq<u64>, v: int, words: int, n: int, m: int)
    requires
        0 <= n <= m,
    ensures
        0 <= sliced_ip(a, b, v, words, n) <= sliced_ip(a, b, v, words, m),
    decreases m,
{
    if n < m {
        lemma_sliced_ip_grows(a, b, v, words, n, m - 1);
    } else if n > 0 {
        lemma_sliced_ip_grows(a, b, v, words, n - 1, n - 1);
    }
}

/// Bit `x` of slice `j` of a quantized query that is cut into slices of `words`
/// words: bit `j` of value `x`. Values past `64 * words` spill into the first word
/// of the next slice.
pub open spec fn query_bit(query: Seq<u8>, words: int, j: int, x: int) -> int {
    let tail = 64 * words + x;
    if word_bit(query[x] as u64, j) == 1 || (x < 64 && j >= 1 && tail < query.len() && word_bit(
        query[tail] as u64,
        j - 1,
    ) == 1) {
        1
    } else {
        0
    }
}

/// Whether every bit of the values past `64 * words` has a slice to spill into.
pub open spec fn tail_fits(query: Seq<u8>, words: int, slices: int) -> bool {
    forall|i: int, j: int|
        64 * words <= i < query.len() && 0 <= j < slices && (words == 0 || j == slices - 1)
            ==> #[trigger] word_bit(query[i] as u64, j) == 0
}

/// `query_bit` after the bits below `j` of value `i` and all bits of the values
/// before have been sliced.
spec fn query_bit_upto(query: Seq<u8>, words: int, r: int, x: int, i: int, j: int) -> int {
    let tail = 64 * words + x;
    if ((x < i || x == i && r < j) && word_bit(query[x] as u64, r) == 1) || (x < 64 && r >= 1 && tail
        < query.len() && (tail < i || tail == i && r - 1 < j) && word_bit(query[tail] as u64, r - 1)
        == 1) {
        1
    } else {
        0
    }
}

/// Setting one bit of one word changes one dimension of one code.
proof fn lemma_set_code_bit(
    before: Seq<u64>,
    after: Seq<u64>,
    words: int,
    row: int,
    pos: int,
    r: int,
    x: int,
)
    requires
        0 < words,
        0 <= pos < 64 * words,
        0 <= x < 64 * words,
        0 <= row * words + pos / 64 < before.len(),
        0 <= r * words + x / 64 < before.len(),
        after == before.update(
            row * words + pos / 64,
            before[row * words + pos / 64] | (1u64 << ((pos % 64) as u64)),
        ),
    ensures
        code_bit(after, words, r, x) == (if r == row && x == pos {
            1
        } else {
            code_bit(before, words, r, x)
        }),
{
    let at = row * words + pos / 64;
    lemma_set_bit(before[at], (pos % 64) as u64, x % 64);
    if r * words + x / 64 == at {
        vstd::arithmetic::div_mod::lemma_fundamental_div_mod_converse(at, words, row, pos / 64);
        vstd::arithmetic::div_mod::lemma_fundamental_div_mod_converse(at, words, r, x / 64);
    }
}

/// Cuts a quantized query into bit slices.
pub fn transpose_bin<const B: usize, const B_QUERY: usize>(
    quantized_query: &[u8],
    transposed_query: &mut [u64],
)
    requires
        quantized_query@.len() == B,
        old(transposed_query)@.len() == B_QUERY * (B as nat / 64),
        B == 0 || B_QUERY <= 64,
        tail_fits(quantized_query@, B as int / 64, B_QUERY as int),
    ensures
        final(transposed_query)@.len() == old(transposed_query)@.len(),
        forall|j: int, x: int|
            0 <= j < B_QUERY && 0 <= x < 64 * (B as int / 64) ==> #[trigger] code_bit(
                final(transposed_query)@,
                B as int / 64,
                j,
                x,
            ) == query_bit(quantized_query@, B as int / 64, j, x),
{
    let n_u64 = B / 64;
    let ghost words = n_u64 as int;
    let ghost query = quantized_query@;
    let len = transposed_query.len();
    for k in 0..len
        invariant
            transposed_query@.len() == len,
            forall|i: int| 0 <= i < k ==> transposed_query@[i] == 0,
    {
        transposed_query[k] = 0;
    }
    proof {
        assert forall|r: int, x: int| 0 <= r < B_QUERY && 0 <= x < 64 * words implies #[trigger] code_bit(
            transposed_query@,
            words,
            r,
            x,
        ) == query_bit_upto(query, words, r, x, 0, 0) by {
            lemma_chunk(r, B_QUERY as int, words, len as int);
            lemma_clear_word(x % 64);
        }
    }
    for i in 0..B
        invariant
            n_u64 == B / 64,
            words == n_u64,
            query == quantized_query@,
            query.len() == B,
            len == B_QUERY * words,
            transposed_query@.len() == len,
            B == 0 || B_QUERY <= 64,
            tail_fits(query, words, B_QUERY as int),
            forall|r: int, x: int|
                0 <= r < B_QUERY && 0 <= x < 64 * words ==> #[trigger] code_bit(
                    transposed_query@,
                    words,
                    r,
                    x,
                ) == query_bit_upto(query, words, r, x, i as int, 0),
    {
        let val = quantized_query[i] as u64;
        for j in 0..B_QUERY
            invariant
                n_u64 == B / 64,
                words == n_u64,
                query == quantized_query@,
                query.len() == B,
                i < B,
                val == query[i as int] as u64,
                len == B_QUERY * words,
                transposed_query@.len() == len,
                transposed_query.len() == len,
                B_QUERY <= 64,
                tail_fits(query, words, B_QUERY as int),
                forall|r: int, x: int|
                    0 <= r < B_QUERY && 0 <= x < 64 * words ==> #[trigger] code_bit(
                        transposed_query@,
                        words,
                        r,
                        x,
                    ) == query_bit_upto(query, words, r, x, i as int, j as int),
        {
            let ghost before = transposed_query@;
            proof {
                let s = j as u64;
                assert((val >> s) & 1 == 0 || (val >> s) & 1 == 1) by (bit_vector);
            }
            if (val >> j) & 1 != 0 {
                assert(word_bit(query[i as int] as u64, j as int) == 1);
                assert(words > 0 && (i < 64 * words || j + 1 < B_QUERY));
                let ghost (row, pos) = if i < 64 * words {
                    (j as int, i as int)
                } else {
                    (j + 1, i - 64 * words)
                };
                proof {
                    lemma_chunk(row, B_QUERY as int, words, len as int);
                    lemma_chunk(j as int, B_QUERY as int, words, len as int);
                }
                let tq_idx = j * n_u64 + i / 64;
                let bit_pos = i % 64;
                assert(tq_idx == row * words + pos / 64 && bit_pos == pos % 64);
                let word = transposed_query[tq_idx];
                transposed_query[tq_idx] = word | (1u64 << bit_pos);
                proof {
                    assert forall|r: int, x: int|
                        0 <= r < B_QUERY && 0 <= x < 64 * words implies #[trigger] code_bit(
                        transposed_query@,
                        words,
                        r,
                        x,
                    ) == query_bit_upto(query, words, r, x, i as int, j + 1) by {
                        lemma_chunk(r, B_QUERY as int, words, len as int);
                        assert(code_bit(before, words, r, x) == query_bit_upto(
                            query,
                            words,
                            r,
                            x,
                            i as int,
                            j as int,
                        ));
                        lemma_set_code_bit(before, transposed_query@, words, row, pos, r, x);
                    }
                }
            }
        }
    }
}

/// The inner product of slice `j` of a quantized query with the first `n`
/// dimensions of code `v`.
pub open spec fn query_ip(
    query: Seq<u8>,
    codes: Seq<u64>,
    words: int,
    v: int,
    j: int,
    n: int,
) -> int
    decreases n,
{
    if n <= 0 {
        0
    } else {
        query_ip(query, codes, words, v, j, n - 1) + query_bit(query, words, j, n - 1) * code_bit(
            codes,
            words,
            v,
            n - 1,
        )
    }
}

/// What a scan with the first `m` slices of a quantized query gives for code `v`:
/// the inner product of each slice, shifted left by the slice number within 32
/// bits, added up.
pub open spec fn scan_value(query: Seq<u8>, codes: Seq<u64>, words: int, v: int, m: int) -> int
    decreases m,
{
    if m <= 0 {
        0
    } else {
        scan_value(query, codes, words, v, m - 1) + (query_ip(
            query,
            codes,
            words,
            v,
            m - 1,
            64 * words,
        ) * pow2((m - 1) as nat)) % 0x1_0000_0000
    }
}

/// Whether every sum in the scan of code `v` with `m` slices fits 32 bits.
pub open spec fn scan_fits(query: Seq<u8>, codes: Seq<u64>, words: int, v: int, m: int) -> bool {
    &&& scan_value(query, codes, words, v, m) <= u32::MAX
    &&& forall|j: int|
        0 <= j < m ==> #[trigger] query_ip(query, codes, words, v, j, 64 * words) <= u32::MAX
}

proof fn lemma_slice_ip(
    query: Seq<u8>,
    slices: Seq<u64>,
    codes: Seq<u64>,
    words: int,
    v: int,
    j: int,
    n: int,
)
    requires
        0 <= n <= 64 * words,
        forall|x: int|
            0 <= x < 64 * words ==> #[trigger] code_bit(slices, words, j, x) == query_bit(
                query,
                words,
                j,
                x,
            ),
    ensures
        pair_ip(slices, j, codes, v, words, n) == query_ip(query, codes, words, v, j, n),
    decreases n,
{
    if n > 0 {
        lemma_slice_ip(query, slices, codes, words, v, j, n - 1);
        assert(code_bit(slices, words, j, n - 1) == query_bit(query, words, j, n - 1));
    }
}

/// The slices of a query scan a code as the query does, wherever the code lies.
pub proof fn lemma_slices_scan(
    query: Seq<u8>,
    slices: Seq<u64>,
    codes: Seq<u64>,
    chunk: Seq<u64>,
    words: int,
    v: int,
    m: int,
)
    requires
        0 <= words,
        forall|j: int, x: int|
            0 <= j < m && 0 <= x < 64 * words ==> #[trigger] code_bit(slices, words, j, x)
                == query_bit(query, words, j, x),
        forall|w: int| 0 <= w < words ==> #[trigger] chunk[w] == codes[v * words + w],
    ensures
        sliced_ip(slices, chunk, 0, words, m) == scan_value(query, codes, words, v, m),
        forall|j: int|
            0 <= j < m ==> #[trigger] pair_ip(slices, j, chunk, 0, words, 64 * words) == query_ip(
                query,
                codes,
                words,
                v,
                j,
                64 * words,
            ),
    decreases m,
{
    if m > 0 {
        lemma_slices_scan(query, slices, codes, chunk, words, v, m - 1);
        assert(0 * words == 0) by (nonlinear_arith);
        assert forall|w: int|
            0 <= w < words implies #[trigger] slices[(m - 1) * words + w] == slices[(m - 1) * words
            + w] && chunk[0 * words + w] == codes[v * words + w] by {
            assert(chunk[w] == codes[v * words + w]);
        }
        lemma_pair_ip_moved(
            slices,
            m - 1,
            slices,
            m - 1,
            chunk,
            0,
            codes,
            v,
            words,
            64 * words,
        );
        lemma_slice_ip(query, slices, codes, words, v, m - 1, 64 * words);
    }
}

/// Scans code `v` with the bit slices of a query.
fn scan_one<const B: usize, const B_QUERY: usize>(
    transposed_query: &[u64],
    binary_codes: &[u64],
    v: usize,
    Ghost(query): Ghost<Seq<u8>>,
) -> (ip: u32)
    requires
        transposed_query@.len() == B_QUERY * (B as nat / 64),
        v * (B as nat / 64) + B as nat / 64 <= binary_codes@.len(),
        B_QUERY <= 32,
        forall|j: int, x: int|
            0 <= j < B_QUERY && 0 <= x < 64 * (B as int / 64) ==> #[trigger] code_bit(
                transposed_query@,
                B as int / 64,
                j,
                x,
            ) == query_bit(query, B as int / 64, j, x),
        is_small(B, B_QUERY) || scan_fits(
            query,
            binary_codes@,
            B as int / 64,
            v as int,
            B_QUERY as int,
        ),
    ensures
        ip == scan_value(query, binary_codes@, B as int / 64, v as int, B_QUERY as int),
{
    let n_u64 = B / 64;
    assert(binary_codes.len() == binary_codes@.len());
    assert((v + 1) * n_u64 == v * n_u64 + n_u64 && 0 <= v * n_u64) by (nonlinear_arith)
        requires
            0 <= v,
            0 <= n_u64,
    ;
    let data_chunk = slice_subrange(binary_codes, v * n_u64, v * n_u64 + n_u64);
    proof {
        let m = B_QUERY as int;
        lemma_slices_scan(
            query,
            transposed_query@,
            binary_codes@,
            data_chunk@,
            n_u64 as int,
            v as int,
            m,
        );
        if !is_small(B, B_QUERY) {
            assert forall|j: int| 0 <= j < m implies #[trigger] pair_ip(
                transposed_query@,
                j,
                data_chunk@,
                0,
                n_u64 as int,
                64 * n_u64,
            ) <= u32::MAX by {
                assert(query_ip(query, binary_codes@, n_u64 as int, v as int, j, 64 * n_u64)
                    <= u32::MAX);
            }
        }
    }
    ip_byte_bin::<B, B_QUERY>(transposed_query, data_chunk)
}

/// Scans every binary code with a quantized query. With no results to fill,
/// nothing else is looked at.
pub fn scalar_scan_dispatch<const B: usize, const B_QUERY: usize>(
    binary_codes: &[u64],
    quantized_query: &[u8],
    results: &mut [u32],
)
    requires
        old(results)@.len() > 0 ==> {
            &&& binary_codes@.len() == old(results)@.len() * (B as nat / 64)
            &&& quantized_query@.len() == B
            &&& B_QUERY <= 32
            &&& B_QUERY * (B as nat / 64) <= usize::MAX
            &&& tail_fits(quantized_query@, B as int / 64, B_QUERY as int)
            &&& is_small(B, B_QUERY) || forall|v: int|
                0 <= v < old(results)@.len() ==> #[trigger] scan_fits(
                    quantized_query@,
                    binary_codes@,
                    B as int / 64,
                    v,
                    B_QUERY as int,
                )
        },
    ensures
        final(results)@.len() == old(results)@.len(),
        forall|v: int|
            0 <= v < final(results)@.len() ==> #[trigger] final(results)@[v] == scan_value(
                quantized_query@,
                binary_codes@,
                B as int / 64,
                v,
                B_QUERY as int,
            ),
{
    let n_u64 = B / 64;
    let n_vecs = results.len();
    if n_vecs == 0 {
        return;
    }
    let mut transposed_query: Vec<u64> = vec![0u64;B_QUERY * n_u64];
    transpose_bin::<B, B_QUERY>(quantized_query, transposed_query.as_mut_slice());
    for i in 0..n_vecs
        invariant
            n_u64 == B / 64,
            n_vecs == results@.len(),
            binary_codes@.len() == n_vecs * (B as nat / 64),
            B_QUERY <= 32,
            transposed_query@.len() == B_QUERY * (B as nat / 64),
            forall|j: int, x: int|
                0 <= j < B_QUERY && 0 <= x < 64 * (B as int / 64) ==> #[trigger] code_bit(
                    transposed_query@,
                    B as int / 64,
                    j,
                    x,
                ) == query_bit(quantized_query@, B as int / 64, j, x),
            is_small(B, B_QUERY) || forall|v: int|
                0 <= v < n_vecs ==> #[trigger] scan_fits(
                    quantized_query@,
                    binary_codes@,
                    B as int / 64,
                    v,
                    B_QUERY as int,
                ),
            forall|v: int|
                0 <= v < i ==> #[trigger] results@[v] == scan_value(
                    quantized_query@,
                    binary_codes@,
                    B as int / 64,
                    v,
                    B_QUERY as int,
                ),
    {
        proof {
            lemma_chunk(i as int, n_vecs as int, n_u64 as int, binary_codes@.len() as int);
        }
        results[i] =
        scan_one::<B, B_QUERY>(
            transposed_query.as_slice(),
            binary_codes,
            i,
            Ghost(quantized_query@),
        );
    }
}

/// Scans the listed blocks of 32 binary codes, in the order listed. With no block
/// to scan, nothing else is looked at.
pub fn scalar_scan_dispatch_block_order<const B: usize, const B_QUERY: usize>(
    binary_codes: &[u64],
    quantized_query: &[u8],
    block_indices: &[usize],
    results: &mut [u32],
)
    requires
        block_indices@.len() > 0 ==> {
            &&& B >= 64
            &&& old(results)@.len() == block_indices@.len() * 32
            &&& quantized_query@.len() == B
            &&& binary_codes@.len() % (32 * (B as nat / 64)) == 0
            &&& B_QUERY <= 32
            &&& B_QUERY * (B as nat / 64) <= usize::MAX
            &&& tail_fits(quantized_query@, B as int / 64, B_QUERY as int)
            &&& forall|p: int|
                0 <= p < block_indices@.len() ==> #[trigger] block_indices@[p]
                    < binary_codes@.len() / (32 * (B as nat / 64))
            &&& is_small(B, B_QUERY) || forall|p: int, lane: int|
                0 <= p < block_indices@.len() && 0 <= lane < 32 ==> #[trigger] scan_fits(
                    quantized_query@,
                    binary_codes@,
                    B as int / 64,
                    32 * block_indices@[p] + lane,
                    B_QUERY as int,
                )
        },
    ensures
        block_indices@.len() == 0 ==> final(results)@ == old(results)@,
        final(results)@.len() == old(results)@.len(),
        forall|p: int, lane: int|
            0 <= p < block_indices@.len() && 0 <= lane < 32 ==> #[trigger] final(results)@[32 * p
                + lane] == scan_value(
                quantized_query@,
                binary_codes@,
                B as int / 64,
                32 * block_indices@[p] + lane,
                B_QUERY as int,
            ),
{
    if block_indices.len() == 0 {
        return;
    }
    let n_u64 = B / 64;
    let ghost words = n_u64 as int;
    let n_indices = block_indices.len();
    let ghost total_blocks = binary_codes@.len() as int / (32 * words);
    proof {
        vstd::arithmetic::div_mod::lemma_fundamental_div_mod(
            binary_codes@.len() as int,
            32 * words,
        );
        assert(binary_codes@.len() == (32 * total_blocks) * words) by (nonlinear_arith)
            requires
                binary_codes@.len() == (32 * words) * total_blocks,
        ;
    }
    let mut transposed_query: Vec<u64> = vec![0u64;B_QUERY * n_u64];
    transpose_bin::<B, B_QUERY>(quantized_query, transposed_query.as_mut_slice());
    for block_pos in 0..n_indices
        invariant
            n_u64 == B / 64,
            words == n_u64,
            words > 0,
            n_indices == block_indices@.len(),
            results@.len() == n_indices * 32,
            binary_codes@.len() == (32 * total_blocks) * words,
            B_QUERY <= 32,
            transposed_query@.len() == B_QUERY * (B as nat / 64),
            forall|j: int, x: int|
                0 <= j < B_QUERY && 0 <= x < 64 * words ==> #[trigger] code_bit(
                    transposed_query@,
                    words,
                    j,
                    x,
                ) == query_bit(quantized_query@, words, j, x),
            forall|p: int|
                0 <= p < n_indices ==> #[trigger] block_indices@[p] < total_blocks,
            is_small(B, B_QUERY) || forall|p: int, lane: int|
                0 <= p < n_indices && 0 <= lane < 32 ==> #[trigger] scan_fits(
                    quantized_query@,
                    binary_codes@,
                    words,
                    32 * block_indices@[p] + lane,
                    B_QUERY as int,
                ),
            forall|p: int, lane: int|
                0 <= p < block_pos && 0 <= lane < 32 ==> #[trigger] results@[32 * p + lane]
                    == scan_value(
                    quantized_query@,
                    binary_codes@,
                    words,
                    32 * block_indices@[p] + lane,
                    B_QUERY as int,
                ),
    {
        let block_idx = block_indices[block_pos];
        for lane in 0..32usize
            invariant
                n_u64 == B / 64,
                words == n_u64,
                words > 0,
                block_pos < n_indices,
                n_indices == block_indices@.len(),
                block_idx == block_indices@[block_pos as int],
                block_idx < total_blocks,
                results@.len() == n_indices * 32,
                results.len() == results@.len(),
                binary_codes@.len() == (32 * total_blocks) * words,
                binary_codes.len() == binary_codes@.len(),
                B_QUERY <= 32,
                transposed_query@.len() == B_QUERY * (B as nat / 64),
                forall|j: int, x: int|
                    0 <= j < B_QUERY && 0 <= x < 64 * words ==> #[trigger] code_bit(
                        transposed_query@,
                        words,
                        j,
                        x,
                    ) == query_bit(quantized_query@, words, j, x),
                is_small(B, B_QUERY) || forall|p: int, lane: int|
                    0 <= p < n_indices && 0 <= lane < 32 ==> #[trigger] scan_fits(
                        quantized_query@,
                        binary_codes@,
                        words,
                        32 * block_indices@[p] + lane,
                        B_QUERY as int,
                    ),
                forall|p: int, l: int|
                    (0 <= p < block_pos && 0 <= l < 32) || (p == block_pos && 0 <= l < lane)
                        ==> #[trigger] results@[32 * p + l] == scan_value(
                        quantized_query@,
                        binary_codes@,
                        words,
                        32 * block_indices@[p] + l,
                        B_QUERY as int,
                    ),
        {
            proof {
                lemma_chunk(
                    32 * block_idx + lane,
                    32 * total_blocks,
                    words,
                    binary_codes@.len() as int,
                );
                assert(32 * total_blocks <= binary_codes@.len()) by (nonlinear_arith)
                    requires
                        binary_codes@.len() == (32 * total_blocks) * words,
                        words >= 1,
                        total_blocks >= 0,
                ;
                assert(is_small(B, B_QUERY) || scan_fits(
                    quantized_query@,
                    binary_codes@,
                    words,
                    32 * block_indices@[block_pos as int] + lane,
                    B_QUERY as int,
                ));
            }
            let v = block_idx * 32 + lane;
            let ip = scan_one::<B, B_QUERY>(
                transposed_query.as_slice(),
                binary_codes,
                v,
                Ghost(quantized_query@),
            );
            results[block_pos * 32 + lane] = ip;
        }
    }
}

/// The dimensions below `n` that are one both in code `i` of `a` and in code `v` of `b`.
pub open spec fn common_ones(
    a: Seq<u64>,
    i: int,
    b: Seq<u64>,
    v: int,
    words: int,
    n: int,
) -> Set<int> {
    Set::new(
        |d: int|
            {
                &&& 0 <= d < n
                &&& (a[i * words + d / 64] >> ((d % 64) as u64)) & 1u64 == 1
                &&& (b[v * words + d / 64] >> ((d % 64) as u64)) & 1u64 == 1
            },
    )
}

/// The inner product of two codes is the number of dimensions that are one in both.
pub proof fn law_inner_product_counts_common_ones(
    a: Seq<u64>,
    i: int,
    b: Seq<u64>,
    v: int,
    words: int,
    n: int,
)
    requires
        0 <= n,
    ensures
        common_ones(a, i, b, v, words, n).finite(),
        pair_ip(a, i, b, v, words, n) == common_ones(a, i, b, v, words, n).len(),
    decreases n,
{
    let all = common_ones(a, i, b, v, words, n);
    if n == 0 {
        assert(all =~= Set::<int>::empty());
    } else {
        law_inner_product_counts_common_ones(a, i, b, v, words, n - 1);
        let rest = common_ones(a, i, b, v, words, n - 1);
        let d = n - 1;
        lemma_word_bit_range(a[i * words + d / 64], d % 64);
        lemma_word_bit_range(b[v * words + d / 64], d % 64);
        if code_bit(a, words, i, d) == 1 && code_bit(b, words, v, d) == 1 {
            assert(all =~= rest.insert(d));
            assert(!rest.contains(d));
            assert(1int * 1int == 1);
        } else {
            assert(all =~= rest);
            let (x, y) = (code_bit(a, words, i, d), code_bit(b, words, v, d));
            assert(x * y == 0) by (nonlinear_arith)
                requires
                    x == 0 || y == 0,
            ;
        }
    }
}

/// The slices of a query: dimension `x` of slice `j` is bit `j` of value `x`, joined,
/// for the first 64 dimensions, with bit `j - 1` of the value that follows the last full
/// word by `x`, where there is one.
pub proof fn law_slices_hold_bits(query: Seq<u8>, words: int, j: int, x: int)
    requires
        0 <= j < 64,
        0 <= words,
        0 <= x < 64 * words,
    ensures
        query_bit(query, words, j, x) == 0 || query_bit(query, words, j, x) == 1,
        query_bit(query, words, j, x) == 1 <==> {
            ||| (query[x] as u64 >> (j as u64)) & 1u64 == 1
            ||| x < 64 && j > 0 && 64 * words + x < query.len() && (query[64 * words + x] as u64 >> ((
            j - 1) as u64)) & 1u64 == 1
        },
        query.len() <= 64 * words ==> query_bit(query, words, j, x) == (query[x] as u64 >> (
        j as u64)) & 1u64,
{
    lemma_word_bit_range(query[x] as u64, j);
}

} // verus!
