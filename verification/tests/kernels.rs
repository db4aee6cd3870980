use rabitq::codes::{nibble_at, reverse_nibble};
use rabitq::lanes::{fast_scan_avx2, fast_scan_avx512, fast_scan_dispatch};
use rabitq::rabitq_fast_scan::{clamp_level, max_quant_level, RabitqFastScan, VectorFactors};
use rabitq::rabitq_fast_scan_kernels::{
    fast_scan_reference, fast_scan_scalar, lut_step, pack_codes_from_binary, pack_lut,
    packed_nibble_at, unpack_packed_codes,
};
use rabitq::rabitq_scalar_scan::{
    ip_bin_bin, ip_byte_bin, scalar_scan_dispatch, scalar_scan_dispatch_block_order, transpose_bin,
};

/// Words that look random.
fn words(n: usize, seed: u64) -> Vec<u64> {
    let mut x = seed;
    (0..n)
        .map(|_| {
            x = x.wrapping_mul(6364136223846793005).wrapping_add(1442695040888963407);
            x ^ (x >> 29)
        })
        .collect()
}

/// The inner product of vector `v` with a query.
fn dot(codes: &[u64], query: &[u8], v: usize) -> u32 {
    let words = query.len() / 64;
    query
        .iter()
        .enumerate()
        .map(|(d, &q)| q as u32 * ((codes[v * words + d / 64] >> (d % 64)) & 1) as u32)
        .sum()
}

#[test]
fn lut_of_one_chunk() {
    let mut lut = [0u8; 16];
    pack_lut::<4>(&[1, 2, 4, 8], &mut lut);
    assert_eq!(lut, [0, 8, 4, 12, 2, 10, 6, 14, 1, 9, 5, 13, 3, 11, 7, 15]);
}

#[test]
fn lut_at_the_largest_sums() {
    let mut lut = [7u8; 32];
    pack_lut::<8>(&[255, 0, 0, 0, 63, 64, 64, 64], &mut lut);
    assert_eq!(lut[8], 255);
    assert_eq!(lut[7], 0);
    assert_eq!(lut[31], 255);
    assert_eq!(lut[16], 0);
}

#[test]
fn steps_through_a_lut() {
    assert_eq!(lut_step(1), (0, 3));
    assert_eq!(lut_step(2), (0, 2));
    assert_eq!(lut_step(3), (2, 3));
    assert_eq!(lut_step(8), (0, 0));
    assert_eq!(lut_step(12), (8, 1));
    assert_eq!(lut_step(15), (14, 3));
}

#[test]
fn nibbles_are_reversed() {
    assert_eq!(reverse_nibble(0b0001), 0b1000);
    assert_eq!(reverse_nibble(0b0110), 0b0110);
    assert_eq!(reverse_nibble(0b1101), 0b1011);
    // The second word, bits 8 to 11.
    assert_eq!(nibble_at(&[0, 0x0100], 1, 2), 8);
    assert_eq!(nibble_at(&[0, 0x0100], 0, 18), 8);
}

#[test]
fn packing_of_single_bits() {
    // Bit 0 of vector 0 goes into the highest bit of the first nibble.
    let mut codes = vec![0u64; 32];
    codes[0] = 1;
    let packed = pack_codes_from_binary::<64>(&codes);
    assert_eq!(packed.len(), 256);
    assert_eq!(packed[0], 0x08);
    assert!(packed[1..].iter().all(|&byte| byte == 0));
    // Vector 8 comes second, and vector 16 shares the byte of vector 0.
    let mut codes = vec![0u64; 32];
    codes[8] = 1 << 3;
    codes[16] = 1 << 4;
    let packed = pack_codes_from_binary::<64>(&codes);
    assert_eq!(packed[1], 0x01);
    assert_eq!(packed[16], 0x80);
    assert_eq!(packed.iter().filter(|&&byte| byte != 0).count(), 2);
    assert_eq!(packed_nibble_at(&packed, 8, 1, 8, 0), 1);
    assert_eq!(packed_nibble_at(&packed, 8, 1, 16, 1), 8);
}

#[test]
fn unpacking_undoes_packing() {
    let codes = words(96 * 3, 7);
    let packed = pack_codes_from_binary::<192>(&codes);
    assert_eq!(packed.len(), 96 * 24);
    assert_eq!(unpack_packed_codes::<192>(&packed), codes);
    assert!(pack_codes_from_binary::<64>(&[]).is_empty());
    assert!(unpack_packed_codes::<64>(&[]).is_empty());
}

#[test]
fn packing_undoes_unpacking() {
    let packed: Vec<u8> = words(64, 11).iter().flat_map(|w| w.to_le_bytes()).collect();
    let codes = unpack_packed_codes::<128>(&packed);
    assert_eq!(codes.len(), 32 * 2);
    assert_eq!(pack_codes_from_binary::<128>(&codes), packed);
}

#[test]
fn scans_are_inner_products() {
    let codes = words(64 * 2, 3);
    let query: Vec<u8> = (0..128).map(|d| (d % 61) as u8).collect();
    let packed = pack_codes_from_binary::<128>(&codes);
    let mut luts = vec![0u8; 512];
    pack_lut::<128>(&query, &mut luts);
    let expected: Vec<u16> = (0..64).map(|v| dot(&codes, &query, v) as u16).collect();
    let mut results = vec![1u16; 64];
    fast_scan_reference::<128>(&packed, &luts, &mut results);
    assert_eq!(results, expected);
    results.fill(2);
    fast_scan_scalar::<128>(&packed, &luts, &mut results);
    assert_eq!(results, expected);
    results.fill(3);
    fast_scan_avx2::<128>(&packed, &luts, &mut results);
    assert_eq!(results, expected);
    results.fill(4);
    fast_scan_avx512::<128>(&packed, &luts, &mut results);
    assert_eq!(results, expected);
    results.fill(5);
    fast_scan_dispatch::<128>(&packed, &luts, &mut results);
    assert_eq!(results, expected);
    // The scan of the binary codes agrees.
    let mut sums = vec![9u32; 64];
    scalar_scan_dispatch::<128, 8>(&codes, &query, &mut sums);
    assert_eq!(sums, expected.iter().map(|&x| x as u32).collect::<Vec<_>>());
}

#[test]
fn scans_wrap_around() {
    // 320 tables, each of which adds 255: the sum is 81600.
    let packed = vec![0xffu8; 160 * 32];
    let luts = vec![255u8; 320 * 16];
    let mut results = vec![0u16; 32];
    fast_scan_avx2::<1280>(&packed, &luts, &mut results);
    assert!(results.iter().all(|&sum| sum == 81600u32 as u16));
    fast_scan_avx512::<1280>(&packed, &luts, &mut results);
    assert!(results.iter().all(|&sum| sum == 16064));
}

#[test]
fn scans_of_nothing() {
    fast_scan_avx2::<64>(&[1], &[2], &mut []);
    fast_scan_avx512::<64>(&[1], &[2], &mut []);
    fast_scan_dispatch::<64>(&[1], &[2], &mut []);
    scalar_scan_dispatch::<64, 4>(&[1], &[2], &mut []);
    let mut results = [5u32; 3];
    scalar_scan_dispatch_block_order::<64, 4>(&[1], &[2], &[], &mut results);
    assert_eq!(results, [5; 3]);
}

#[test]
fn inner_products_of_bits() {
    assert_eq!(ip_bin_bin::<128>(&[0b1011, u64::MAX], &[0b0110, 0xff00]), 9);
    assert_eq!(ip_bin_bin::<64>(&[u64::MAX], &[u64::MAX]), 64);
    assert_eq!(ip_bin_bin::<64>(&[0], &[u64::MAX]), 0);
    // Slices count for 1, 2 and 4.
    assert_eq!(ip_byte_bin::<64, 3>(&[0b11, 0b01, 0b10], &[0b11]), 2 + 2 + 4);
}

#[test]
fn slices_of_a_query() {
    let mut query = vec![0u8; 64];
    query[0] = 0b101;
    query[63] = 0b110;
    let mut slices = vec![77u64; 3];
    transpose_bin::<64, 3>(&query, &mut slices);
    assert_eq!(slices, vec![1, 1 << 63, 1 | 1 << 63]);
}

#[test]
fn scans_of_chosen_blocks() {
    let codes = words(96 * 2, 5);
    let query: Vec<u8> = (0..128).map(|d| (d * 7 % 16) as u8).collect();
    let mut results = vec![0u32; 64];
    scalar_scan_dispatch_block_order::<128, 4>(&codes, &query, &[2, 0], &mut results);
    for lane in 0..32 {
        assert_eq!(results[lane], dot(&codes, &query, 64 + lane));
        assert_eq!(results[32 + lane], dot(&codes, &query, lane));
    }
}

#[test]
fn levels_of_quantization() {
    assert_eq!(max_quant_level::<4>(), 255);
    assert_eq!(max_quant_level::<1024>(), 255);
    assert_eq!(max_quant_level::<1536>(), 170);
    assert_eq!(max_quant_level::<4096>(), 63);
    assert_eq!(clamp_level(-3, 170), 0);
    assert_eq!(clamp_level(12, 170), 12);
    assert_eq!(clamp_level(171, 170), 170);
    assert_eq!(clamp_level(i32::MAX, 255), 255);
}

#[test]
fn quantized_scans_never_wrap() {
    // All 384 tables at the highest level.
    let highest = max_quant_level::<1536>();
    let packed = vec![0xffu8; 192 * 32];
    let luts = vec![highest; 384 * 16];
    let mut results = vec![0u16; 32];
    fast_scan_avx2::<1536>(&packed, &luts, &mut results);
    assert!(results.iter().all(|&sum| sum == 65280));
}

#[test]
fn index_of_binary_codes() {
    let codes = words(64, 13);
    let factors = vec![VectorFactors { f_add: 1, f_rescale: 2, f_error: 3 }; 64];
    let index = RabitqFastScan::<64>::from_binary_codes(codes.clone(), factors.clone());
    assert_eq!(index.len(), 64);
    assert!(!index.is_empty());
    assert_eq!(index.num_blocks(), 2);
    assert_eq!(index.block_size_bytes(), 256);
    assert_eq!(index.binary_codes(), codes);
    assert_eq!(index.factors(), factors);
    assert_eq!(index.packed_codes(), pack_codes_from_binary::<64>(&codes));
}
