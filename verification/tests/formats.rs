use rabitq::index_format::LoadError;
use rabitq::le_bytes::{push_u32, push_u64, read_u32, read_u64};
use rabitq::rabitq_fast_scan::{RabitqFastScan, VectorDataset, VectorFactors};

fn small_index() -> RabitqFastScan<64> {
    let data: Vec<u32> = (0..33 * 64)
        .map(|i| if i % 3 == 0 { 0x3f80_0000 } else { 0xbf80_0000 })
        .collect();
    let factors: Vec<VectorFactors> = (0..33)
        .map(|i| VectorFactors { f_add: i, f_rescale: 2 * i, f_error: 3 * i })
        .collect();
    RabitqFastScan::<64>::from_f32_dataset_padded(&VectorDataset::new(data, 33, 64), factors)
}

#[test]
fn codes_are_signs() {
    let data = vec![
        0x0000_0000u32, // zero
        0x8000_0000,    // negative zero
        0x0000_0001,    // the smallest positive number
        0x7f80_0000,    // infinity
        0xff80_0000,    // negative infinity
        0x7fc0_0000,    // no number
        0xbf80_0000,    // minus one
        0x3f80_0000,    // one
    ];
    let mut row = data.clone();
    row.resize(64, 0);
    let dataset = VectorDataset::new(row, 1, 64);
    assert_eq!(dataset.get(0)[..8], data[..]);
    let index =
        RabitqFastScan::<64>::from_f32_dataset_padded(&dataset, vec![VectorFactors::default()]);
    assert_eq!(index.binary_codes()[0], 0b1000_1100);
    assert_eq!(index.len(), 1);
    assert_eq!(index.num_blocks(), 1);
    assert_eq!(index.binary_codes().len(), 32);
    // Padding has no ones, and zero factors.
    assert!(index.binary_codes()[1..].iter().all(|&word| word == 0));
    assert_eq!(index.factors().len(), 32);
    assert_eq!(
        index.factors()[31],
        VectorFactors { f_add: 0, f_rescale: 0, f_error: 0 }
    );
}

#[test]
fn indexes_of_no_vectors() {
    let dataset = VectorDataset::new(Vec::new(), 0, 64);
    let index = RabitqFastScan::<64>::from_f32_dataset(&dataset, Vec::new());
    assert!(index.is_empty());
    assert_eq!(index.num_blocks(), 0);
}

#[test]
fn numbers_in_bytes() {
    let mut bytes = Vec::new();
    push_u32(&mut bytes, 0x0102_0304);
    push_u64(&mut bytes, 0x1112_1314_1516_1718);
    assert_eq!(
        bytes,
        [4, 3, 2, 1, 0x18, 0x17, 0x16, 0x15, 0x14, 0x13, 0x12, 0x11]
    );
    assert_eq!(read_u32(&bytes, 0), Some(0x0102_0304));
    assert_eq!(read_u64(&bytes, 4), Some(0x1112_1314_1516_1718));
    assert_eq!(read_u32(&bytes, 9), None);
    assert_eq!(read_u64(&bytes, 5), None);
    assert_eq!(read_u64(&bytes, usize::MAX), None);
}

#[test]
fn bytes_of_an_index() {
    let index = small_index();
    let bytes = index.save();
    assert_eq!(&bytes[..4], b"RBFS");
    assert_eq!(read_u32(&bytes, 4), Some(1));
    assert_eq!(read_u32(&bytes, 8), Some(64));
    assert_eq!(read_u64(&bytes, 12), Some(33));
    assert_eq!(read_u64(&bytes, 20), Some(2));
    assert_eq!(read_u64(&bytes, 28), Some(512));
    assert_eq!(bytes[36..548], *index.packed_codes());
    assert_eq!(read_u64(&bytes, 548), Some(64));
    assert_eq!(read_u64(&bytes, 556), Some(index.binary_codes()[0]));
    assert_eq!(read_u64(&bytes, 1068), Some(64));
    // Factors of vector 1: three words.
    assert_eq!(read_u32(&bytes, 1076 + 12), Some(1));
    assert_eq!(read_u32(&bytes, 1076 + 16), Some(2));
    assert_eq!(read_u32(&bytes, 1076 + 20), Some(3));
    assert_eq!(bytes.len(), 1076 + 64 * 12);
}

#[test]
fn loading_undoes_saving() {
    let index = small_index();
    let mut bytes = index.save();
    let back = match RabitqFastScan::<64>::load(&bytes) {
        Ok(back) => back,
        Err(_) => panic!("a saved index can be loaded"),
    };
    assert_eq!(back.n, index.n);
    assert_eq!(back.n_blocks, index.n_blocks);
    assert_eq!(back.packed_codes, index.packed_codes);
    assert_eq!(back.binary_codes, index.binary_codes);
    assert_eq!(back.factors, index.factors);
    // Bytes at the end are ignored.
    bytes.push(0);
    assert!(RabitqFastScan::<64>::load(&bytes).is_ok());
}

fn error_of(bytes: &[u8]) -> Option<LoadError> {
    match RabitqFastScan::<64>::load(bytes) {
        Ok(_) => None,
        Err(error) => Some(error),
    }
}

#[test]
fn files_of_indexes_that_end_early() {
    let bytes = small_index().save();
    for len in 0..bytes.len() {
        assert_eq!(error_of(&bytes[..len]), Some(LoadError::UnexpectedEof));
    }
    assert_eq!(error_of(&bytes), None);
}

#[test]
fn files_of_indexes_with_wrong_headers() {
    let bytes = small_index().save();
    let mut wrong = bytes.clone();
    wrong[0] = b'X';
    assert_eq!(error_of(&wrong), Some(LoadError::BadMagic));
    let mut wrong = bytes.clone();
    wrong[4] = 2;
    assert_eq!(
        error_of(&wrong),
        Some(LoadError::UnsupportedVersion { version: 2 })
    );
    let mut wrong = bytes.clone();
    wrong[8] = 128;
    assert_eq!(
        error_of(&wrong),
        Some(LoadError::DimensionMismatch { file: 128, dimension: 64 })
    );
}

#[test]
fn files_of_indexes_with_wrong_lengths() {
    let bytes = small_index().save();
    // Three blocks instead of two.
    let mut wrong = bytes.clone();
    wrong[20] = 3;
    assert_eq!(
        error_of(&wrong),
        Some(LoadError::PackedLengthMismatch { file: 512, expected: 768 })
    );
    // One word of binary codes is missing.
    let mut wrong = bytes[..548].to_vec();
    push_u64(&mut wrong, 63);
    wrong.extend_from_slice(&bytes[556..1060]);
    wrong.extend_from_slice(&bytes[1068..]);
    assert_eq!(
        error_of(&wrong),
        Some(LoadError::BinaryLengthMismatch { file: 63, expected: 64 })
    );
    // The factors of one vector are missing.
    let mut wrong = bytes[..1068].to_vec();
    push_u64(&mut wrong, 63);
    wrong.extend_from_slice(&bytes[1076..bytes.len() - 12]);
    assert_eq!(
        error_of(&wrong),
        Some(LoadError::FactorsLengthMismatch { file: 63, expected: 64 })
    );
}

#[test]
fn whole_blocks_are_not_padded() {
    let data: Vec<u32> = (0..32 * 64).map(|i| if i % 5 == 0 { 1 } else { 0 }).collect();
    let factors = vec![VectorFactors { f_add: 1, f_rescale: 2, f_error: 3 }; 32];
    let dataset = VectorDataset::new(data, 32, 64);
    let index = RabitqFastScan::<64>::from_f32_dataset(&dataset, factors.clone());
    assert_eq!(index.num_blocks(), 1);
    assert_eq!(index.factors(), factors);
    let padded = RabitqFastScan::<64>::from_f32_dataset_padded(&dataset, factors);
    assert_eq!(index.binary_codes(), padded.binary_codes());
    assert_eq!(index.packed_codes(), padded.packed_codes());
}
