use quantum_simulator::quantum::amplitude::Amplitude;

fn amp(a: i64, b: i64, c: i64, d: i64, k: u64) -> Amplitude {
    Amplitude::from_parts(a, b, c, d, k).unwrap()
}

#[test]
fn from_parts_brings_to_lowest_terms() {
    // 2 / sqrt(2)^2 = 1
    assert_eq!(amp(2, 0, 0, 0, 2), Amplitude::one());
    // sqrt(2) / sqrt(2) = 1, with sqrt(2) = w - w^3
    assert_eq!(amp(0, 1, 0, -1, 1), Amplitude::one());
    // 0 / anything = 0
    assert_eq!(amp(0, 0, 0, 0, 9), Amplitude::zero());
    // 1 / sqrt(2) is already in lowest terms
    let x = amp(1, 0, 0, 0, 1);
    assert_eq!((x.a, x.b, x.c, x.d, x.k), (1, 0, 0, 0, 1));
    assert_eq!(Amplitude::from_parts(i64::MIN, 0, 0, 0, 0), None);
}

#[test]
fn halves_add_up() {
    let half = Amplitude::one().halve().unwrap().halve().unwrap();
    assert_eq!(half, amp(1, 0, 0, 0, 2));
    assert_eq!(half.plus(&half), Some(Amplitude::one()));
    assert_eq!(half.plus(&half.negate()), Some(Amplitude::zero()));
    assert_eq!(amp(2, 0, 0, 0, 0).halve(), Some(amp(0, 1, 0, -1, 0)));
}

#[test]
fn sums_with_different_denominators() {
    // 1 + 1/sqrt(2) = (sqrt(2) + 1) / sqrt(2)
    let x = Amplitude::one().plus(&amp(1, 0, 0, 0, 1)).unwrap();
    assert_eq!((x.a, x.b, x.c, x.d, x.k), (1, 1, 0, -1, 1));
    // 1/2 + 1 = 3/2
    assert_eq!(amp(1, 0, 0, 0, 2).plus(&Amplitude::one()), Some(amp(3, 0, 0, 0, 2)));
    assert_eq!(Amplitude::zero().plus(&x), Some(x));
    assert_eq!(x.plus(&Amplitude::zero()), Some(x));
}

#[test]
fn sum_out_of_range_is_refused() {
    let big = amp(i64::MAX, 0, 0, 0, 0);
    assert_eq!(big.plus(&big), None);
    let raised = big.plus(&amp(1, 0, 0, 0, 1)).unwrap();
    assert_eq!((raised.a, raised.b, raised.c, raised.d, raised.k), (1, i64::MAX, 0, -i64::MAX, 1));
    assert_eq!(big.plus(&amp(1, 0, 0, 0, 2)), None);
    assert_eq!(amp(1, 0, 0, 0, u64::MAX).halve(), None);
}

#[test]
fn phases_rotate_by_an_eighth_turn() {
    let one = Amplitude::one();
    assert_eq!(one.times_omega(), amp(0, 1, 0, 0, 0));
    assert_eq!(one.times_omega().times_omega(), amp(0, 0, 1, 0, 0));
    assert_eq!(one.times_omega_inv(), amp(0, 0, 0, -1, 0));
    assert_eq!(one.times_omega().times_omega_inv(), one);
    let mut x = one;
    for _ in 0..4 {
        x = x.times_omega();
    }
    assert_eq!(x, one.negate());
    assert!(!x.is_zero());
    assert!(Amplitude::zero().is_zero());
}
