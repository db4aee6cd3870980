//! What the scans have in common: they all compute inner products.

use vstd::arithmetic::power2::{lemma2_to64, lemma_pow2_pos, lemma_pow2_unfold, pow2};
use vstd::prelude::*;

use crate::codes::{
    code_bit, code_nibble, lemma_code_nibble, lemma_word_bit_range, lemma_word_from_nibbles,
    word_bit, word_nibble,
};
use crate::rabitq_fast_scan_kernels::{
    is_packing, lane_at, lut_entry, packed_index, packed_nibble, scan_sum,
    slot_of,
};
use crate::rabitq_scalar_scan::{
    lemma_slices_scan, query_bit, query_ip, scan_value, sliced_ip,
};

verus! {

/// The inner product of the first `n` dimensions of binary code `v` with a
/// quantized query.
pub open spec fn dot(codes: Seq<u64>, words: int, v: int, query: Seq<u8>, n: int) -> int
    decreases n,
{
    if n <= 0 {
        0
    } else {
        dot(codes, words, v, query, n - 1) + code_bit(codes, words, v, n - 1) * query[n - 1]
    }
}

/// Whether `luts` holds the lookup tables of `query`, `tables` of them.
pub open spec fn are_tables(luts: Seq<u8>, query: Seq<u8>, tables: int) -> bool {
    forall|c: int, j: int|
        0 <= c < tables && 0 <= j < 16 ==> #[trigger] luts[16 * c + j] == lut_entry(query, c, j)
}

/// Unpacking undoes packing: codes are determined by their packed form.
pub proof fn law_packing_determines_codes(
    a: Seq<u64>,
    b: Seq<u64>,
    packed: Seq<u8>,
    words: int,
    n_vecs: int,
)
    requires
        0 < words,
        0 <= n_vecs,
        is_packing(a, packed, words, 8 * words, n_vecs),
        is_packing(b, packed, words, 8 * words, n_vecs),
    ensures
        a == b,
{
    assert forall|i: int| 0 <= i < a.len() implies a[i] == b[i] by {
        vstd::arithmetic::div_mod::lemma_fundamental_div_mod(i, words);
        let (v, w) = (i / words, i % words);
        assert(v * words == words * v) by (nonlinear_arith);
        assert(0 <= v < n_vecs) by (nonlinear_arith)
            requires
                0 <= i < n_vecs * words,
                0 < words,
                i == words * v + w,
                0 <= w < words,
        ;
        assert forall|t: int| 0 <= t < 16 implies #[trigger] word_nibble(a[i], t) == word_nibble(
            b[i],
            t,
        ) by {
            let k = 16 * w + t;
            lemma_code_nibble(a, words, v, k);
            lemma_code_nibble(b, words, v, k);
            assert(packed_nibble(packed, 8 * words, v, k) == code_nibble(a, words, v, k));
        }
        lemma_word_from_nibbles(a[i], b[i]);
    }
}

/// Packing undoes unpacking: packed blocks are determined by the codes they hold.
pub proof fn law_codes_determine_packing(
    codes: Seq<u64>,
    a: Seq<u8>,
    b: Seq<u8>,
    words: int,
    n_blocks: int,
)
    requires
        0 < words,
        0 <= n_blocks,
        is_packing(codes, a, words, 8 * words, 32 * n_blocks),
        is_packing(codes, b, words, 8 * words, 32 * n_blocks),
    ensures
        a == b,
{
    let cols = 8 * words;
    assert(32 * n_blocks * cols == 32 * (n_blocks * cols)) by (nonlinear_arith);
    assert forall|i: int| 0 <= i < a.len() implies a[i] == b[i] by {
        let chunk = i / 32;
        vstd::arithmetic::div_mod::lemma_fundamental_div_mod(chunk, cols);
        let (block, col) = (chunk / cols, chunk % cols);
        assert(0 <= block < n_blocks && block * cols == cols * block) by (nonlinear_arith)
            requires
                0 <= chunk < n_blocks * cols,
                0 < cols,
                chunk == cols * block + col,
                0 <= col < cols,
        ;
        let v = 32 * block + lane_at(i % 16);
        let k = 2 * col + (i % 32) / 16;
        assert(slot_of(lane_at(i % 16)) == i % 16);
        assert(v / 32 == block && v % 16 == lane_at(i % 16) && (v + 16) % 16 == v % 16 && (v + 16)
            / 32 == block);
        assert(k / 2 == col && k % 2 == (i % 32) / 16);
        assert((v / 32) * cols + k / 2 == chunk);
        assert(i == 32 * chunk + 16 * ((i % 32) / 16) + i % 16);
        assert(packed_index(cols, v, k) == i && packed_index(cols, v + 16, k) == i);
        assert(packed_nibble(a, cols, v, k) == packed_nibble(b, cols, v, k));
        assert(packed_nibble(a, cols, v + 16, k) == packed_nibble(b, cols, v + 16, k));
    }
}

proof fn lemma_entry_at_nibble(codes: Seq<u64>, words: int, v: int, query: Seq<u8>, k: int)
    requires
        0 <= k,
    ensures
        lut_entry(query, k, code_nibble(codes, words, v, k)) == dot(
            codes,
            words,
            v,
            query,
            4 * k + 4,
        ) - dot(codes, words, v, query, 4 * k),
{
    let b0 = code_bit(codes, words, v, 4 * k);
    let b1 = code_bit(codes, words, v, 4 * k + 1);
    let b2 = code_bit(codes, words, v, 4 * k + 2);
    let b3 = code_bit(codes, words, v, 4 * k + 3);
    lemma_word_bit_range(codes[v * words + (4 * k) / 64], (4 * k) % 64);
    lemma_word_bit_range(codes[v * words + (4 * k + 1) / 64], (4 * k + 1) % 64);
    lemma_word_bit_range(codes[v * words + (4 * k + 2) / 64], (4 * k + 2) % 64);
    lemma_word_bit_range(codes[v * words + (4 * k + 3) / 64], (4 * k + 3) % 64);
    let n = 8 * b0 + 4 * b1 + 2 * b2 + b3;
    assert(n / 8 % 2 == b0 && n / 4 % 2 == b1 && n / 2 % 2 == b2 && n % 2 == b3);
    reveal_with_fuel(dot, 5);
}

/// A scan of packed codes with the tables of a query gives the inner product of
/// each code with the query.
pub proof fn law_fast_scan_is_dot(
    codes: Seq<u64>,
    packed: Seq<u8>,
    words: int,
    cols: int,
    n_vecs: int,
    query: Seq<u8>,
    luts: Seq<u8>,
    v: int,
    n: int,
)
    requires
        is_packing(codes, packed, words, cols, n_vecs),
        are_tables(luts, query, 2 * cols),
        0 <= v < n_vecs,
        0 <= n <= 2 * cols,
    ensures
        scan_sum(packed, luts, cols, v, n) == dot(codes, words, v, query, 4 * n),
    decreases n,
{
    if n > 0 {
        let k = n - 1;
        law_fast_scan_is_dot(codes, packed, words, cols, n_vecs, query, luts, v, k);
        assert(packed_nibble(packed, cols, v, k) == code_nibble(codes, words, v, k));
        lemma_code_nibble(codes, words, v, k);
        lemma_entry_at_nibble(codes, words, v, query, k);
        assert(luts[16 * k + code_nibble(codes, words, v, k)] == lut_entry(
            query,
            k,
            code_nibble(codes, words, v, k),
        ));
    }
}

/// `query` with each value cut down to its lowest `m` bits, one value.
spec fn low_bits(b: u8, m: int) -> int
    decreases m,
{
    if m <= 0 {
        0
    } else {
        low_bits(b, m - 1) + word_bit(b as u64, m - 1) * pow2((m - 1) as nat)
    }
}

proof fn lemma_low_bits(b: u8, m: int)
    requires
        0 <= m <= 32,
    ensures
        low_bits(b, m) == b as int % pow2(m as nat) as int,
    decreases m,
{
    lemma2_to64();
    if m > 0 {
        lemma_low_bits(b, m - 1);
        let p = pow2((m - 1) as nat) as int;
        let w = b as u64;
        let s = (m - 1) as u64;
        lemma_pow2_unfold(m as nat);
        lemma_pow2_pos((m - 1) as nat);
        vstd::bits::lemma_u64_shr_is_div(w, s);
        let h = w >> s;
        assert(h & 1u64 == h % 2) by (bit_vector);
        let x = b as int;
        vstd::arithmetic::div_mod::lemma_fundamental_div_mod(x, p);
        let (q, r) = (x / p, x % p);
        assert(x == (q / 2) * (2 * p) + ((q % 2) * p + r) && 0 <= (q % 2) * p + r < 2 * p)
            by (nonlinear_arith)
            requires
                x == p * q + r,
                0 <= r < p,
                q == 2 * (q / 2) + q % 2,
                0 <= q % 2 <= 1,
        ;
        vstd::arithmetic::div_mod::lemma_fundamental_div_mod_converse(
            x,
            2 * p,
            q / 2,
            (q % 2) * p + r,
        );
    }
}

/// The inner product with the lowest `m` bits of each query value.
spec fn low_dot(codes: Seq<u64>, words: int, v: int, query: Seq<u8>, m: int, n: int) -> int
    decreases n,
{
    if n <= 0 {
        0
    } else {
        low_dot(codes, words, v, query, m, n - 1) + code_bit(codes, words, v, n - 1) * low_bits(
            query[n - 1],
            m,
        )
    }
}

/// One more slice adds its weighted inner product.
proof fn lemma_slice_adds(codes: Seq<u64>, words: int, v: int, query: Seq<u8>, m: int, n: int)
    requires
        0 < m,
        0 <= n <= 64 * words,
        query.len() == 64 * words,
    ensures
        low_dot(codes, words, v, query, m, n) == low_dot(codes, words, v, query, m - 1, n)
            + query_ip(query, codes, words, v, m - 1, n) * pow2((m - 1) as nat),
    decreases n,
{
    let p = pow2((m - 1) as nat) as int;
    if n > 0 {
        lemma_slice_adds(codes, words, v, query, m, n - 1);
        let c = code_bit(codes, words, v, n - 1);
        let b = word_bit(query[n - 1] as u64, m - 1);
        lemma_word_bit_range(query[n - 1] as u64, m - 1);
        assert(query_bit(query, words, m - 1, n - 1) == b);
        let low = low_bits(query[n - 1], m - 1);
        let ip = query_ip(query, codes, words, v, m - 1, n - 1);
        assert(c * (low + b * p) == c * low + (b * c) * p && (ip + b * c) * p == ip * p + (b * c)
            * p) by (nonlinear_arith);
    } else {
        assert(0 * p == 0) by (nonlinear_arith);
    }
}

proof fn lemma_query_ip_nonneg(query: Seq<u8>, codes: Seq<u64>, words: int, v: int, j: int, n: int)
    ensures
        0 <= query_ip(query, codes, words, v, j, n),
    decreases n,
{
    if n > 0 {
        lemma_query_ip_nonneg(query, codes, words, v, j, n - 1);
        lemma_word_bit_range(codes[v * words + (n - 1) / 64], (n - 1) % 64);
        let (p, q) = (query_bit(query, words, j, n - 1), code_bit(codes, words, v, n - 1));
        assert(0 <= p * q) by (nonlinear_arith)
            requires
                0 <= p,
                0 <= q,
        ;
    }
}

proof fn lemma_scan_value_is_low_dot(
    codes: Seq<u64>,
    words: int,
    v: int,
    query: Seq<u8>,
    m: int,
)
    requires
        0 <= m,
        0 <= words,
        query.len() == 64 * words,
        low_dot(codes, words, v, query, m, 64 * words) <= u32::MAX,
    ensures
        scan_value(query, codes, words, v, m) == low_dot(codes, words, v, query, m, 64 * words),
        0 <= low_dot(codes, words, v, query, m, 64 * words),
    decreases m,
{
    if m > 0 {
        lemma_slice_adds(codes, words, v, query, m, 64 * words);
        let ip = query_ip(query, codes, words, v, m - 1, 64 * words);
        let p = pow2((m - 1) as nat) as int;
        lemma_query_ip_nonneg(query, codes, words, v, m - 1, 64 * words);
        assert(0 <= ip * p) by (nonlinear_arith)
            requires
                0 <= ip,
                0 <= p,
        ;
        lemma_scan_value_is_low_dot(codes, words, v, query, m - 1);
    } else {
        lemma_no_slices(codes, words, v, query, 64 * words);
    }
}

proof fn lemma_no_slices(codes: Seq<u64>, words: int, v: int, query: Seq<u8>, n: int)
    ensures
        low_dot(codes, words, v, query, 0, n) == 0,
    decreases n,
{
    if n > 0 {
        lemma_no_slices(codes, words, v, query, n - 1);
        let c = code_bit(codes, words, v, n - 1);
        assert(c * 0 == 0) by (nonlinear_arith);
    }
}

proof fn lemma_low_dot_is_dot(
    codes: Seq<u64>,
    words: int,
    v: int,
    query: Seq<u8>,
    m: int,
    n: int,
)
    requires
        0 <= m <= 32,
        0 <= n <= query.len(),
        forall|d: int| 0 <= d < query.len() ==> #[trigger] query[d] < pow2(m as nat),
    ensures
        low_dot(codes, words, v, query, m, n) == dot(codes, words, v, query, n),
    decreases n,
{
    if n > 0 {
        lemma_low_dot_is_dot(codes, words, v, query, m, n - 1);
        lemma_low_bits(query[n - 1], m);
        assert(query[n - 1] < pow2(m as nat));
        vstd::arithmetic::div_mod::lemma_small_mod(query[n - 1] as nat, pow2(m as nat));
    }
}

/// A scan of binary codes with the bit slices of a query gives the inner product
/// of each code with the query, as long as the slices hold every bit of the query
/// and the inner product fits 32 bits.
pub proof fn law_scalar_scan_is_dot(
    codes: Seq<u64>,
    words: int,
    v: int,
    query: Seq<u8>,
    m: int,
)
    requires
        0 <= words,
        0 <= m <= 32,
        query.len() == 64 * words,
        forall|d: int| 0 <= d < query.len() ==> #[trigger] query[d] < pow2(m as nat),
        dot(codes, words, v, query, 64 * words) <= u32::MAX,
    ensures
        scan_value(query, codes, words, v, m) == dot(codes, words, v, query, 64 * words),
{
    lemma_low_dot_is_dot(codes, words, v, query, m, 64 * words);
    lemma_scan_value_is_low_dot(codes, words, v, query, m);
}

/// The scan of packed codes and the scan of the binary codes they hold agree.
pub proof fn law_scans_agree(
    codes: Seq<u64>,
    packed: Seq<u8>,
    words: int,
    n_vecs: int,
    query: Seq<u8>,
    luts: Seq<u8>,
    v: int,
    m: int,
)
    requires
        0 <= words,
        0 <= m <= 32,
        is_packing(codes, packed, words, 8 * words, n_vecs),
        are_tables(luts, query, 16 * words),
        0 <= v < n_vecs,
        query.len() == 64 * words,
        forall|d: int| 0 <= d < query.len() ==> #[trigger] query[d] < pow2(m as nat),
        scan_sum(packed, luts, 8 * words, v, 16 * words) <= u32::MAX,
    ensures
        scan_value(query, codes, words, v, m) == scan_sum(packed, luts, 8 * words, v, 16 * words),
{
    law_fast_scan_is_dot(codes, packed, words, 8 * words, n_vecs, query, luts, v, 16 * words);
    law_scalar_scan_is_dot(codes, words, v, query, m);
}

proof fn lemma_low_dot_of_low(
    codes: Seq<u64>,
    words: int,
    v: int,
    query: Seq<u8>,
    low: Seq<u8>,
    m: int,
    n: int,
)
    requires
        0 <= m <= 32,
        0 <= n <= query.len(),
        low.len() == query.len(),
        forall|d: int|
            0 <= d < query.len() ==> #[trigger] low[d] == query[d] as int % pow2(m as nat) as int,
    ensures
        low_dot(codes, words, v, query, m, n) == dot(codes, words, v, low, n),
    decreases n,
{
    if n > 0 {
        lemma_low_dot_of_low(codes, words, v, query, low, m, n - 1);
        lemma_low_bits(query[n - 1], m);
        assert(low[n - 1] == query[n - 1] as int % pow2(m as nat) as int);
    }
}

/// A scan with `m` bit slices goes by the lowest `m` bits of the query values: it gives
/// the inner product of the code with the values modulo `2^m`.
pub proof fn law_scan_goes_by_low_bits(
    codes: Seq<u64>,
    words: int,
    v: int,
    query: Seq<u8>,
    low: Seq<u8>,
    m: int,
)
    requires
        0 <= words,
        0 <= m <= 32,
        query.len() == 64 * words,
        low.len() == query.len(),
        forall|d: int|
            0 <= d < query.len() ==> #[trigger] low[d] == query[d] as int % pow2(m as nat) as int,
        dot(codes, words, v, low, 64 * words) <= u32::MAX,
    ensures
        scan_value(query, codes, words, v, m) == dot(codes, words, v, low, 64 * words),
{
    lemma_low_dot_of_low(codes, words, v, query, low, m, 64 * words);
    lemma_scan_value_is_low_dot(codes, words, v, query, m);
}

/// The inner product of a code with the bit slices of a query is its inner product with
/// the query.
pub proof fn law_slices_give_dot(
    slices: Seq<u64>,
    code: Seq<u64>,
    words: int,
    query: Seq<u8>,
    m: int,
)
    requires
        0 <= words,
        0 <= m <= 32,
        query.len() == 64 * words,
        forall|d: int| 0 <= d < query.len() ==> #[trigger] query[d] < pow2(m as nat),
        forall|j: int, x: int|
            0 <= j < m && 0 <= x < 64 * words ==> #[trigger] code_bit(slices, words, j, x) == (
            query[x] as u64 >> (j as u64)) & 1u64,
        dot(code, words, 0, query, 64 * words) <= u32::MAX,
    ensures
        sliced_ip(slices, code, 0, words, m) == dot(code, words, 0, query, 64 * words),
{
    assert forall|j: int, x: int| 0 <= j < m && 0 <= x < 64 * words implies #[trigger] code_bit(
        slices,
        words,
        j,
        x,
    ) == query_bit(query, words, j, x) by {
        lemma_word_bit_range(query[x] as u64, j);
    }
    assert(0 * words == 0) by (nonlinear_arith);
    lemma_slices_scan(query, slices, code, code, words, 0, m);
    law_scalar_scan_is_dot(code, words, 0, query, m);
}

/// The inner product with a query counts each query value once for a code that has its
/// dimension set, and not at all otherwise: to change one value changes it by as much, or
/// not.
pub proof fn law_dot_is_linear(
    codes: Seq<u64>,
    words: int,
    v: int,
    query: Seq<u8>,
    d: int,
    value: u8,
    n: int,
)
    requires
        0 <= d < n <= query.len(),
    ensures
        dot(codes, words, v, query.update(d, value), n) - dot(codes, words, v, query, n) == (if (
        codes[v * words + d / 64] >> ((d % 64) as u64)) & 1u64 == 1 {
            value - query[d]
        } else {
            0
        }),
        (forall|x: int| 0 <= x < n ==> #[trigger] query[x] == 0) ==> dot(
            codes,
            words,
            v,
            query,
            n,
        ) == 0,
    decreases n,
{
    let changed = query.update(d, value);
    let c = code_bit(codes, words, v, n - 1);
    lemma_word_bit_range(codes[v * words + (n - 1) / 64], (n - 1) % 64);
    assert(c * 0 == 0) by (nonlinear_arith);
    if d < n - 1 {
        law_dot_is_linear(codes, words, v, query, d, value, n - 1);
        assert(changed[n - 1] == query[n - 1]);
    } else {
        lemma_dot_unchanged(codes, words, v, query, changed, n - 1);
        if forall|x: int| 0 <= x < n ==> #[trigger] query[x] == 0 {
            lemma_dot_of_zero(codes, words, v, query, n - 1);
        }
        let (x, y) = (value as int, query[d] as int);
        assert(c * x - c * y == c * (x - y) && (c == 1 ==> c * (x - y) == x - y) && (c == 0 ==> c * (
        x - y) == 0)) by (nonlinear_arith);
    }
}

proof fn lemma_dot_unchanged(
    codes: Seq<u64>,
    words: int,
    v: int,
    query: Seq<u8>,
    other: Seq<u8>,
    n: int,
)
    requires
        forall|x: int| 0 <= x < n ==> query[x] == other[x],
    ensures
        dot(codes, words, v, query, n) == dot(codes, words, v, other, n),
    decreases n,
{
    if n > 0 {
        lemma_dot_unchanged(codes, words, v, query, other, n - 1);
    }
}

proof fn lemma_dot_of_zero(codes: Seq<u64>, words: int, v: int, query: Seq<u8>, n: int)
    requires
        forall|x: int| 0 <= x < n ==> #[trigger] query[x] == 0,
    ensures
        dot(codes, words, v, query, n) == 0,
    decreases n,
{
    if n > 0 {
        lemma_dot_of_zero(codes, words, v, query, n - 1);
        assert(query[n - 1] == 0);
        let c = code_bit(codes, words, v, n - 1);
        assert(c * 0 == 0) by (nonlinear_arith);
    }
}

} // verus!
