use scatter_gather::xor::{Distance, Key, PeerId};

#[test]
fn distance_is_the_limbwise_xor() {
    let a = Key::from(PeerId(0b1100, 1, 0, u64::MAX));
    let b = Key::from(PeerId(0b1010, 1, 7, 0));
    assert_eq!(a.distance(&b), Distance(0b0110, 0, 7, u64::MAX));
    assert_eq!(b.distance(&a), a.distance(&b));
    assert_eq!(a.distance(&a), Distance(0, 0, 0, 0));
    assert_eq!(*a.preimage(), PeerId(0b1100, 1, 0, u64::MAX));
}

#[test]
fn ilog2_is_the_highest_set_bit() {
    assert_eq!(Distance(0, 0, 0, 0).ilog2(), None);
    assert_eq!(Distance(0, 0, 0, 1).ilog2(), Some(0));
    assert_eq!(Distance(0, 0, 0, 0x80).ilog2(), Some(7));
    assert_eq!(Distance(0, 0, 1, 0).ilog2(), Some(64));
    assert_eq!(Distance(0, 3, 0, 0).ilog2(), Some(129));
    assert_eq!(Distance(1u64 << 63, 0, 0, 0).ilog2(), Some(255));
    assert_eq!(Distance::maximum().ilog2(), Some(255));
}

#[test]
fn distances_compare_as_numbers() {
    let small = Distance(0, u64::MAX, u64::MAX, u64::MAX);
    let large = Distance(1, 0, 0, 0);
    assert!(small.less_than(&large));
    assert!(!large.less_than(&small));
    assert!(!small.less_than(&small));
    assert!(small.less_or_equal(&small));
    assert!(Distance(0, 0, 2, 5).less_than(&Distance(0, 0, 2, 6)));
    assert!(large.less_or_equal(&Distance::maximum()));
    assert_eq!(Distance::maximum(), Distance(u64::MAX, u64::MAX, u64::MAX, u64::MAX));
}

#[test]
fn the_xor_metric_laws_hold_on_samples() {
    let a = PeerId(1, 2, 3, 4);
    let b = PeerId(4, 3, 2, 1);
    let c = PeerId(9, 9, 9, 9);
    let ka = Key::from(a);
    assert_eq!(ka.distance(&Key::from(b)), Key::from(b).distance(&ka));
    assert_ne!(ka.distance(&Key::from(b)), ka.distance(&Key::from(c)));
    assert_eq!(ka.distance(&Key::from(a)).ilog2(), None);
    assert!(ka.distance(&Key::from(b)).ilog2().is_some());
}
