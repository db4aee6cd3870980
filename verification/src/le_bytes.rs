//! Integers as little-endian bytes.

use vstd::prelude::*;

verus! {

/// Byte `k` of the little-endian form of `x`.
pub open spec fn le_byte(x: int, k: int) -> u8
    decreases k,
{
    if k <= 0 {
        (x % 256) as u8
    } else {
        le_byte(x / 256, k - 1)
    }
}

/// The little-endian value of the `n` bytes that start at `at`.
pub open spec fn le_value(bytes: Seq<u8>, at: int, n: int) -> int
    decreases n,
{
    if n <= 0 {
        0
    } else {
        bytes[at] + 256 * le_value(bytes, at + 1, n - 1)
    }
}

/// The `n` little-endian bytes of `x`.
pub open spec fn le_bytes(x: int, n: nat) -> Seq<u8> {
    Seq::new(n, |k: int| le_byte(x, k))
}

/// The little-endian bytes of a sequence of 32-bit words.
pub open spec fn words_bytes(words: Seq<u32>) -> Seq<u8> {
    Seq::new(4 * words.len(), |p: int| le_byte(words[p / 4] as int, p % 4))
}

/// The smallest value that does not fit `n` bytes.
pub open spec fn byte_range(n: int) -> int
    decreases n,
{
    if n <= 0 {
        1
    } else {
        256 * byte_range(n - 1)
    }
}

/// One more word adds its bytes.
pub proof fn lemma_words_bytes_push(words: Seq<u32>, x: u32)
    ensures
        words_bytes(words.push(x)) =~= words_bytes(words) + le_bytes(x as int, 4),
{
}

/// Bytes stand for the value whose bytes they are.
pub proof fn lemma_le_value_of_bytes(bytes: Seq<u8>, at: int, x: int, n: int)
    requires
        0 <= x < byte_range(n),
        0 <= n,
        forall|k: int| 0 <= k < n ==> #[trigger] bytes[at + k] == le_byte(x, k),
    ensures
        le_value(bytes, at, n) == x,
    decreases n,
{
    if n > 0 {
        assert(bytes[at + 0] == le_byte(x, 0));
        assert forall|k: int| 0 <= k < n - 1 implies #[trigger] bytes[at + 1 + k] == le_byte(
            x / 256,
            k,
        ) by {
            assert(bytes[at + (k + 1)] == le_byte(x, k + 1));
        }
        lemma_le_value_of_bytes(bytes, at + 1, x / 256, n - 1);
    }
}

/// Values are determined by their bytes and fit them.
pub proof fn lemma_le_value_range(bytes: Seq<u8>, at: int, n: int)
    requires
        0 <= n,
    ensures
        0 <= le_value(bytes, at, n) < byte_range(n),
    decreases n,
{
    if n > 0 {
        lemma_le_value_range(bytes, at + 1, n - 1);
    }
}

/// The 32-bit value at `at`, or nothing where fewer than four bytes are left.
pub fn read_u32(bytes: &[u8], at: usize) -> (value: Option<u32>)
    ensures
        match value {
            Some(x) => at + 4 <= bytes@.len() && x == le_value(bytes@, at as int, 4),
            None => at + 4 > bytes@.len(),
        },
{
    let len = bytes.len();
    if len < 4 || at > len - 4 {
        return None;
    }
    proof {
        reveal_with_fuel(le_value, 5);
    }
    Some(
        bytes[at] as u32 + 256 * (bytes[at + 1] as u32 + 256 * (bytes[at + 2] as u32 + 256 * (
        bytes[at + 3] as u32))),
    )
}

/// The 64-bit value at `at`, or nothing where fewer than eight bytes are left.
pub fn read_u64(bytes: &[u8], at: usize) -> (value: Option<u64>)
    ensures
        match value {
            Some(x) => at + 8 <= bytes@.len() && x == le_value(bytes@, at as int, 8),
            None => at + 8 > bytes@.len(),
        },
{
    let len = bytes.len();
    if len < 8 || at > len - 8 {
        return None;
    }
    match (read_u32(bytes, at), read_u32(bytes, at + 4)) {
        (Some(low), Some(high)) => {
            proof {
                reveal_with_fuel(le_value, 9);
            }
            Some(low as u64 + 0x1_0000_0000 * high as u64)
        },
        _ => None,
    }
}

/// Appends the four bytes of a 32-bit value.
pub fn push_u32(out: &mut Vec<u8>, x: u32)
    ensures
        final(out)@ == old(out)@ + le_bytes(x as int, 4),
{
    proof {
        reveal_with_fuel(le_byte, 5);
    }
    let ghost before = out@;
    out.push((x % 256) as u8);
    out.push((x / 256 % 256) as u8);
    out.push((x / 256 / 256 % 256) as u8);
    out.push((x / 256 / 256 / 256 % 256) as u8);
    assert(out@ =~= before + le_bytes(x as int, 4));
}

/// Appends the eight bytes of a 64-bit value.
pub fn push_u64(out: &mut Vec<u8>, x: u64)
    ensures
        final(out)@ == old(out)@ + le_bytes(x as int, 8),
{
    let ghost before = out@;
    let mut rest = x;
    for k in 0..8u64
        invariant
            out@ =~= before + le_bytes(x as int, k as nat),
            forall|j: int| 0 <= j ==> #[trigger] le_byte(rest as int, j) == le_byte(x as int, k + j),
    {
        proof {
            assert(le_byte(rest as int, 0) == le_byte(x as int, k + 0));
            assert forall|j: int| 0 <= j implies #[trigger] le_byte(rest as int / 256, j) == le_byte(
                x as int,
                k + 1 + j,
            ) by {
                assert(le_byte(rest as int, j + 1) == le_byte(x as int, k + (j + 1)));
            }
        }
        out.push((rest % 256) as u8);
        rest = rest / 256;
    }
}

/// The value of four bytes, and of eight: the first byte weighs least, and each weighs
/// 256 times what the one before it does.
pub proof fn law_first_byte_weighs_least(bytes: Seq<u8>, at: int)
    ensures
        le_value(bytes, at, 4) == bytes[at] + 0x100 * bytes[at + 1] + 0x1_0000 * bytes[at + 2]
            + 0x100_0000 * bytes[at + 3],
        le_value(bytes, at, 8) == le_value(bytes, at, 4) + 0x1_0000_0000 * le_value(
            bytes,
            at + 4,
            4,
        ),
{
    reveal_with_fuel(le_value, 9);
}

/// The bytes of a value are its digits to the base of 256, the lowest first.
pub proof fn law_bytes_are_digits(x: int, k: int)
    requires
        0 <= x,
        0 <= k,
    ensures
        le_byte(x, 0) == x % 256,
        le_byte(x, k + 1) == le_byte(x / 256, k),
        le_byte(x, 1) == x / 0x100 % 256,
        le_byte(x, 2) == x / 0x1_0000 % 256,
        le_byte(x, 3) == x / 0x100_0000 % 256,
{
    reveal_with_fuel(le_byte, 4);
}

} // verus!
