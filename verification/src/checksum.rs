//! Pseudorandom numbers and checksums for measurements.

use vstd::arithmetic::div_mod::{
    lemma_mul_mod_noop_left, lemma_mul_mod_noop_right, lemma_small_mod,
};
use vstd::prelude::*;

use crate::distance::Distance;

verus! {

/// The product modulo `2^64`.
pub open spec fn product64(a: u64, b: u64) -> u64 {
    ((a * b) % 0x1_0000_0000_0000_0000) as u64
}

/// The sum modulo `2^64`.
pub open spec fn sum64(a: u64, b: u64) -> u64 {
    ((a + b) % 0x1_0000_0000_0000_0000) as u64
}

/// A number with its upper bits folded into the lower ones.
pub open spec fn folded(z: u64, shift: u64) -> u64 {
    z ^ (z >> shift)
}

/// A number turned left by 27 bits.
pub open spec fn turned27(x: u64) -> u64 {
    (x << 27u64) | (x >> 37u64)
}

/// The scrambled number that follows `x`.
pub open spec fn scrambled(x: u64) -> u64 {
    let z0 = sum64(x, 0x9E37_79B9_7F4A_7C15);
    let z1 = product64(folded(z0, 30), 0xBF58_476D_1CE4_E5B9);
    let z2 = product64(folded(z1, 27), 0x94D0_49BB_1331_11EB);
    folded(z2, 31)
}

/// A checksum after one more value.
pub open spec fn checksum_after(checksum: u64, value: u64) -> u64 {
    product64(
        turned27(checksum ^ product64(value, 0x9E37_79B9_7F4A_7C15)),
        0x94D0_49BB_1331_11EB,
    )
}

/// A checksum after the first `m` vectors of a block.
pub open spec fn checksum_after_all(
    checksum: u64,
    block: Seq<(usize, Distance)>,
    m: int,
) -> u64
    decreases m,
{
    if m <= 0 {
        checksum
    } else {
        let (idx, distance) = block[m - 1];
        checksum_after(
            checksum_after_all(checksum, block, m - 1),
            ((idx as u64) << 32u64) ^ (distance.bits as u64),
        )
    }
}

/// A pseudorandom number from a seed.
pub fn splitmix64(x: u64) -> (z: u64)
    ensures
        z == scrambled(x),
{
    let z0 = x.wrapping_add(0x9E37_79B9_7F4A_7C15);
    let z1 = (z0 ^ (z0 >> 30u64)).wrapping_mul(0xBF58_476D_1CE4_E5B9);
    let z2 = (z1 ^ (z1 >> 27u64)).wrapping_mul(0x94D0_49BB_1331_11EB);
    z2 ^ (z2 >> 31u64)
}

/// The seed of component `d` of vector `i` of a random dataset.
pub fn component_seed(seed: u64, i: usize, d: usize) -> (component: u64)
    ensures
        component == (seed ^ ((i as u64) << 32u64)) ^ (d as u64),
{
    (seed ^ ((i as u64) << 32u64)) ^ (d as u64)
}

/// The seed of component `d` of a random query.
pub fn query_seed(seed: u64, d: usize) -> (component: u64)
    ensures
        component == seed ^ ((d as u64) << 1u64),
{
    seed ^ ((d as u64) << 1u64)
}

/// Adds a value to a checksum.
pub fn update_checksum(checksum: u64, value: u64) -> (updated: u64)
    ensures
        updated == checksum_after(checksum, value),
{
    let mixed = checksum ^ value.wrapping_mul(0x9E37_79B9_7F4A_7C15);
    let turned = (mixed << 27u64) | (mixed >> 37u64);
    turned.wrapping_mul(0x94D0_49BB_1331_11EB)
}

/// Adds the number of a block, and the numbers and distances of its vectors, to a
/// checksum.
pub fn add_block(checksum: u64, block_idx: usize, block: &[(usize, Distance)]) -> (updated: u64)
    ensures
        updated == checksum_after_all(
            checksum_after(checksum, block_idx as u64),
            block@,
            block@.len() as int,
        ),
{
    let begun = update_checksum(checksum, block_idx as u64);
    let mut updated = begun;
    for k in 0..block.len()
        invariant
            updated == checksum_after_all(begun, block@, k as int),
    {
        let (idx, distance) = block[k];
        updated = update_checksum(updated, ((idx as u64) << 32u64) ^ (distance.to_bits() as u64));
    }
    updated
}

/// Multiplying by a number that has an inverse modulo `2^64` loses nothing.
proof fn lemma_product_undone(a: u64, factor: u64, inverse: u64)
    requires
        (factor * inverse) % 0x1_0000_0000_0000_0000 == 1,
    ensures
        product64(product64(a, factor), inverse) == a,
{
    let m = 0x1_0000_0000_0000_0000int;
    let p = a * factor;
    assert(0 <= p) by (nonlinear_arith)
        requires
            p == a * factor,
            0 <= a,
            0 <= factor,
    ;
    lemma_mul_mod_noop_left(p, inverse as int, m);
    assert(p * inverse == a * (factor * inverse)) by (nonlinear_arith)
        requires
            p == a * factor,
    ;
    lemma_mul_mod_noop_right(a as int, factor * inverse, m);
    lemma_small_mod(a as nat, m as nat);
}

/// The factors of this module have inverses.
proof fn lemma_factors_have_inverses(a: u64, b: u64)
    ensures
        product64(a, 0xBF58_476D_1CE4_E5B9) == product64(b, 0xBF58_476D_1CE4_E5B9) ==> a == b,
        product64(a, 0x94D0_49BB_1331_11EB) == product64(b, 0x94D0_49BB_1331_11EB) ==> a == b,
        product64(a, 0x9E37_79B9_7F4A_7C15) == product64(b, 0x9E37_79B9_7F4A_7C15) ==> a == b,
{
    lemma_product_undone(a, 0xBF58_476D_1CE4_E5B9, 0x96DE_1B17_3F11_9089);
    lemma_product_undone(b, 0xBF58_476D_1CE4_E5B9, 0x96DE_1B17_3F11_9089);
    lemma_product_undone(a, 0x94D0_49BB_1331_11EB, 0x3196_42B2_D24D_8EC3);
    lemma_product_undone(b, 0x94D0_49BB_1331_11EB, 0x3196_42B2_D24D_8EC3);
    lemma_product_undone(a, 0x9E37_79B9_7F4A_7C15, 0xF1DE_83E1_9937_733D);
    lemma_product_undone(b, 0x9E37_79B9_7F4A_7C15, 0xF1DE_83E1_9937_733D);
}

/// Folding upper bits into lower ones loses nothing, nor does turning.
proof fn lemma_mixing_loses_nothing(a: u64, b: u64)
    ensures
        folded(a, 27) == folded(b, 27) ==> a == b,
        folded(a, 30) == folded(b, 30) ==> a == b,
        folded(a, 31) == folded(b, 31) ==> a == b,
        turned27(a) == turned27(b) ==> a == b,
{
    assert((a ^ (a >> 27u64)) == (b ^ (b >> 27u64)) ==> a == b) by (bit_vector);
    assert((a ^ (a >> 30u64)) == (b ^ (b >> 30u64)) ==> a == b) by (bit_vector);
    assert((a ^ (a >> 31u64)) == (b ^ (b >> 31u64)) ==> a == b) by (bit_vector);
    assert(((a << 27u64) | (a >> 37u64)) == ((b << 27u64) | (b >> 37u64)) ==> a == b)
        by (bit_vector);
}

/// Different seeds have different pseudorandom numbers.
pub proof fn law_different_seeds_have_different_numbers(x: u64, y: u64)
    requires
        scrambled(x) == scrambled(y),
    ensures
        x == y,
{
    let (x0, y0) = (sum64(x, 0x9E37_79B9_7F4A_7C15), sum64(y, 0x9E37_79B9_7F4A_7C15));
    let (x1, y1) = (product64(folded(x0, 30), 0xBF58_476D_1CE4_E5B9), product64(folded(y0, 30), 0xBF58_476D_1CE4_E5B9));
    let (x2, y2) = (product64(folded(x1, 27), 0x94D0_49BB_1331_11EB), product64(folded(y1, 27), 0x94D0_49BB_1331_11EB));
    lemma_mixing_loses_nothing(x2, y2);
    lemma_factors_have_inverses(folded(x1, 27), folded(y1, 27));
    lemma_mixing_loses_nothing(x1, y1);
    lemma_factors_have_inverses(folded(x0, 30), folded(y0, 30));
    lemma_mixing_loses_nothing(x0, y0);
}

/// A pseudorandom number, computed modulo `2^64`: a constant is added, and twice upper
/// bits are folded into lower ones and the result multiplied, before a last fold.
pub proof fn law_numbers_are_mixed_in_three_rounds(x: u64, a: u64, b: u64, c: u64)
    requires
        a == (x + 0x9E37_79B9_7F4A_7C15) % 0x1_0000_0000_0000_0000,
        b == ((a ^ (a >> 30u64)) * 0xBF58_476D_1CE4_E5B9) % 0x1_0000_0000_0000_0000,
        c == ((b ^ (b >> 27u64)) * 0x94D0_49BB_1331_11EB) % 0x1_0000_0000_0000_0000,
    ensures
        scrambled(x) == c ^ (c >> 31u64),
{
}

/// A checksum tells values apart: the same checksum with different values, and different
/// checksums with the same value, come to different checksums.
pub proof fn law_checksum_tells_values_apart(checksum: u64, other: u64, a: u64, b: u64)
    ensures
        checksum_after(checksum, a) == checksum_after(checksum, b) ==> a == b,
        checksum_after(checksum, a) == checksum_after(other, a) ==> checksum == other,
{
    let (pa, pb) = (product64(a, 0x9E37_79B9_7F4A_7C15), product64(b, 0x9E37_79B9_7F4A_7C15));
    lemma_factors_have_inverses(a, b);
    lemma_factors_have_inverses(turned27(checksum ^ pa), turned27(checksum ^ pb));
    lemma_mixing_loses_nothing(checksum ^ pa, checksum ^ pb);
    assert((checksum ^ pa) == (checksum ^ pb) ==> pa == pb) by (bit_vector);
    lemma_factors_have_inverses(turned27(checksum ^ pa), turned27(other ^ pa));
    lemma_mixing_loses_nothing(checksum ^ pa, other ^ pa);
    assert((checksum ^ pa) == (other ^ pa) ==> checksum == other) by (bit_vector);
}

/// A checksum, computed modulo `2^64`: the multiplied value is joined to it, the result
/// turned left by 27 bits, and multiplied.
pub proof fn law_checksum_turns_and_multiplies(checksum: u64, value: u64, a: u64, b: u64)
    requires
        a == (value * 0x9E37_79B9_7F4A_7C15) % 0x1_0000_0000_0000_0000,
        b == ((checksum ^ a) << 27u64) | ((checksum ^ a) >> 37u64),
    ensures
        checksum_after(checksum, value) == (b * 0x94D0_49BB_1331_11EB) % 0x1_0000_0000_0000_0000,
{
}

/// Every vector of a block counts for its checksum: blocks that differ in the number or
/// the distance of one vector have different checksums.
pub proof fn law_checksum_tells_blocks_apart(
    checksum: u64,
    a: Seq<(usize, Distance)>,
    b: Seq<(usize, Distance)>,
    k: int,
    m: int,
)
    requires
        0 <= k < m <= a.len(),
        a.len() == b.len(),
        forall|i: int| 0 <= i < m && i != k ==> #[trigger] a[i] == b[i],
        a[k] != b[k],
        a[k].0 < 0x1_0000_0000,
        b[k].0 < 0x1_0000_0000,
    ensures
        checksum_after_all(checksum, a, m) != checksum_after_all(checksum, b, m),
    decreases m,
{
    let (ca, cb) = (
        checksum_after_all(checksum, a, m - 1),
        checksum_after_all(checksum, b, m - 1),
    );
    let (ia, da) = (a[m - 1].0 as u64, a[m - 1].1.bits as u64);
    let (ib, db) = (b[m - 1].0 as u64, b[m - 1].1.bits as u64);
    let va = (ia << 32u64) ^ da;
    let vb = (ib << 32u64) ^ db;
    law_checksum_tells_values_apart(ca, cb, va, vb);
    if k < m - 1 {
        law_checksum_tells_blocks_apart(checksum, a, b, k, m - 1);
        assert(a[m - 1] == b[m - 1]);
    } else {
        lemma_same_prefix_same_checksum(checksum, a, b, m - 1);
        assert(((ia << 32u64) ^ da) == ((ib << 32u64) ^ db) ==> ia == ib && da == db)
            by (bit_vector)
            requires
                ia < 0x1_0000_0000,
                ib < 0x1_0000_0000,
                da < 0x1_0000_0000,
                db < 0x1_0000_0000,
        ;
    }
}

proof fn lemma_same_prefix_same_checksum(
    checksum: u64,
    a: Seq<(usize, Distance)>,
    b: Seq<(usize, Distance)>,
    m: int,
)
    requires
        forall|i: int| 0 <= i < m ==> #[trigger] a[i] == b[i],
    ensures
        checksum_after_all(checksum, a, m) == checksum_after_all(checksum, b, m),
    decreases m,
{
    if m > 0 {
        lemma_same_prefix_same_checksum(checksum, a, b, m - 1);
        assert(a[m - 1] == b[m - 1]);
    }
}

} // verus!
