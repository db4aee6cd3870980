use rabitq::beam::Beam;
use rabitq::checksum::{add_block, component_seed, query_seed, splitmix64, update_checksum};
use rabitq::distance::{is_positive, Distance};
use rabitq::seen_set::SeenSet;

fn distance(x: f32) -> Distance {
    Distance::from_bits(x.to_bits())
}

#[test]
fn distances_are_ordered_like_numbers() {
    let numbers = [
        f32::NEG_INFINITY,
        -3.5,
        -1.0e-40,
        -0.0,
        0.0,
        1.0e-40,
        1.0,
        1.5,
        f32::MAX,
        f32::INFINITY,
        f32::NAN,
        -f32::NAN,
    ];
    for &a in &numbers {
        for &b in &numbers {
            assert_eq!(distance(a).less_than(distance(b)), a < b, "{} < {}", a, b);
        }
        assert_eq!(is_positive(a.to_bits()), a > 0.0, "{}", a);
    }
    assert_eq!(Distance::infinity(), distance(f32::INFINITY));
    assert_eq!(distance(2.0).to_bits(), 0x4000_0000);
    assert_eq!(distance(-0.0).rank(), 0);
    assert!(distance(f32::NAN).rank() > distance(f32::INFINITY).rank());
}

#[test]
fn sets_of_numbers() {
    let mut set = SeenSet::new(10);
    assert!(!set.contains(&3));
    assert!(set.insert(3));
    assert!(!set.insert(3));
    assert!(set.contains(&3));
    assert!(!set.contains(&2));
    assert!(!set.contains(&67));
    assert_eq!(set.len(), 1);
    // Beyond the size that it was made for.
    assert!(!set.contains(&1_000_000));
    assert!(set.insert(1_000_000));
    assert!(set.contains(&1_000_000));
    assert_eq!(set.len(), 2);
    let copy = set.clone();
    set.reset();
    assert_eq!(set.len(), 0);
    assert!(!set.contains(&3));
    assert!(copy.contains(&3));
    assert!(set.insert(3));
}

#[test]
fn beams_keep_the_closest() {
    let mut beam = Beam::new(3);
    for (id, x) in [(1, 5.0), (2, 1.0), (3, 4.0), (4, 2.0), (5, 9.0)] {
        beam.insert((id, distance(x)));
    }
    assert_eq!(beam.get_results(), vec![2, 4, 3]);
    assert_eq!(
        beam.beam(),
        vec![(2, distance(1.0)), (4, distance(2.0)), (3, distance(4.0))]
    );
}

#[test]
fn beams_keep_the_order_of_equals() {
    let mut beam = Beam::new(3);
    beam.batch_insert(&vec![
        (7, distance(1.0)),
        (8, distance(1.0)),
        (9, distance(0.5)),
        (6, distance(1.0)),
    ]);
    assert_eq!(beam.get_results(), vec![9, 7, 8]);
}

#[test]
fn beams_hand_out_the_closest_first() {
    let mut beam = Beam::new(4);
    beam.batch_insert(&vec![(1, distance(3.0)), (2, distance(2.0))]);
    assert_eq!(beam.get_next(), Some(2));
    assert_eq!(beam.visited_count(), 1);
    beam.insert((3, distance(1.0)));
    assert_eq!(beam.get_next(), Some(3));
    assert_eq!(beam.get_next(), Some(1));
    assert_eq!(beam.get_next(), None);
    assert_eq!(beam.visited, vec![2, 3, 1]);
    let copy = beam.clone();
    beam.reset();
    assert!(beam.get_results().is_empty());
    assert_eq!(beam.visited_count(), 0);
    assert_eq!(copy.get_results(), vec![3, 2, 1]);
}

#[test]
fn beams_without_room() {
    let mut beam = Beam::new(0);
    beam.insert((1, distance(1.0)));
    assert!(beam.get_results().is_empty());
    assert_eq!(beam.get_next(), None);
}

#[test]
fn pseudorandom_numbers() {
    // The first outputs of the generator with seed 0.
    assert_eq!(splitmix64(0), 0xE220_A839_7B1D_CDAF);
    assert_eq!(splitmix64(0x9E37_79B9_7F4A_7C15), 0x6E78_9E6A_A1B9_65F4);
    assert_eq!(component_seed(0b1010, 1, 3), (1 << 32) | 0b1001);
    assert_eq!(query_seed(5, 2), 1);
}

#[test]
fn checksums() {
    assert_eq!(update_checksum(0, 0), 0);
    let product = 0x9E37_79B9_7F4A_7C15u64;
    assert_eq!(
        update_checksum(0, 1),
        product.rotate_left(27).wrapping_mul(0x94D0_49BB_1331_11EB)
    );
    assert_eq!(
        update_checksum(7, 1),
        (product ^ 7).rotate_left(27).wrapping_mul(0x94D0_49BB_1331_11EB)
    );
    let block = [(32usize, distance(1.0)), (33usize, distance(2.0))];
    let mut expected = update_checksum(9, 1);
    expected = update_checksum(expected, (32u64 << 32) ^ 0x3f80_0000);
    expected = update_checksum(expected, (33u64 << 32) ^ 0x4000_0000);
    assert_eq!(add_block(9, 1, &block), expected);
    assert_eq!(add_block(9, 1, &[]), update_checksum(9, 1));
}
