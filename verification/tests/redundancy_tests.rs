use tpt_formal::redundancy::{majority_vote, Parity, Redundant, Tmr};

#[test]
fn majority_basic() {
    assert_eq!(majority_vote(&[1u8, 1, 2]), Some(1));
    assert_eq!(majority_vote(&[1u8, 2]), None);
    assert_eq!(majority_vote::<u8>(&[]), None);
}

#[test]
fn tmr_votes() {
    let ok = Tmr::new(10u32, 10, 9).vote();
    assert_eq!(ok, Some(10));
    assert_eq!(Tmr::new(1u32, 2, 3).vote(), None);
}

#[test]
fn redundant_majority() {
    let r = Redundant::<u8, 5>::new([1, 1, 1, 2, 3]);
    assert_eq!(r.majority(), Some(1));
    assert_eq!(r.len(), 5);
}

#[test]
fn parity_detects_change() {
    let p = Parity::compute(&[0b1010_1010, 0b0101_0101]);
    assert!(p.matches(&Parity::compute(&[0b1010_1010, 0b0101_0101])));
    assert!(!p.matches(&Parity::compute(&[0b1010_1011, 0b0101_0101])));
}

#[test]
fn odd_votes_over_three_values_can_have_no_majority() {
    assert_eq!(majority_vote(&[1u8, 2, 3]), None);
    assert_eq!(majority_vote(&[7u8, 9, 7, 9, 9]), Some(9));
}

#[test]
fn tmr_agrees_with_majority_vote() {
    for (a, b, c) in [(1u8, 1, 2), (1, 2, 1), (2, 1, 1), (1, 2, 3), (4, 4, 4)] {
        assert_eq!(Tmr::new(a, b, c).vote(), majority_vote(&[a, b, c]));
    }
}

#[test]
fn parity_bit_values() {
    assert_eq!(Parity::compute(&[]).bit(), 0);
    assert_eq!(Parity::compute(&[0b0000_0111]).bit(), 1);
    assert_eq!(Parity::compute(&[0xff, 0x01]).bit(), 1);
    let r = Redundant::<u8, 2>::new([4, 5]);
    assert_eq!(r.majority(), None);
    assert!(!r.is_empty());
    assert_eq!(r[1], 5);
}

#[test]
fn parity_of_a_concatenation_is_the_sum_of_parities() {
    let a = [0b0000_0111u8, 0b1000_0000];
    let b = [0b0000_0001u8];
    let ab = [0b0000_0111u8, 0b1000_0000, 0b0000_0001];
    assert_eq!(Parity::compute(&a).bit(), 0);
    assert_eq!(Parity::compute(&b).bit(), 1);
    assert_eq!(Parity::compute(&ab).bit(), Parity::compute(&a).bit() ^ Parity::compute(&b).bit());
    let mut flipped = ab;
    flipped[1] ^= 1 << 3;
    assert_ne!(Parity::compute(&flipped).bit(), Parity::compute(&ab).bit());
}
