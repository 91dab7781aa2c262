use quantum_simulator::error::SimError;
use quantum_simulator::quantum::amplitude::Amplitude;
use quantum_simulator::quantum::bits::BitPattern;
use quantum_simulator::quantum::ket::Ket;

#[test]
fn new_takes_the_bits_of_a_word() {
    let ket = Ket::new(0b0000_0100, Amplitude::one());
    assert_eq!(ket.amplitude, Amplitude::one());
    assert_eq!(ket.width(), usize::BITS as usize);
    assert_eq!(ket.get(2), Ok(true));
    assert_eq!(ket.get(0), Ok(false));
    assert_eq!(ket.get(3), Ok(false));
    let bools = ket.bit_vec().to_bools();
    assert_eq!(bools.iter().filter(|b| **b).count(), 1);
}

#[test]
fn from_bit_vec_keeps_bits_and_amplitude() {
    let ket = Ket::from_bit_vec(BitPattern::from_bools(&[false, true, true, false]), Amplitude::one());
    assert_eq!(ket.amplitude, Amplitude::one());
    assert_eq!(ket.bit_vec().to_bools(), vec![false, true, true, false]);
}

#[test]
fn from_bit_slice_copies_the_bits() {
    let ket = Ket::from_bit_slice(&[true, false, true], Amplitude::zero());
    assert_eq!(ket.bit_vec().to_bools(), vec![true, false, true]);
    assert_eq!(ket.width(), 3);
    assert!(ket.amplitude.is_zero());
}

#[test]
fn new_zero_ket_is_the_ground_state() {
    let ket = Ket::new_zero_ket(1);
    assert_eq!(ket.amplitude, Amplitude::one());
    assert_eq!(ket.bit_vec().to_bools().len(), 1);
    assert_eq!(ket.get(0), Ok(false));
    assert_eq!(Ket::new_zero_ket(0).width(), 0);
}

#[test]
fn flip_toggles_one_bit() {
    let mut ket = Ket::new_zero_ket(3);
    assert_eq!(ket.flip(0), Ok(()));
    assert_eq!(ket.get(0), Ok(true));
    assert_eq!(ket.bit_vec().to_bools(), vec![true, false, false]);
    assert_eq!(ket.flip(0), Ok(()));
    assert_eq!(ket.bit_vec().to_bools(), vec![false, false, false]);
    ket.toggle(2);
    assert!(ket.bit(2));
}

#[test]
fn access_past_the_width_is_an_error() {
    let mut ket = Ket::new_zero_ket(3);
    assert_eq!(ket.get(3), Err(SimError::IndexOutOfRange));
    assert_eq!(ket.flip(3), Err(SimError::IndexOutOfRange));
    assert_eq!(ket.bit_vec().to_bools(), vec![false, false, false]);
}

#[test]
fn kets_are_told_apart_by_bits() {
    let a = Ket::from_bit_slice(&[true, false], Amplitude::one());
    let b = Ket::from_bit_slice(&[true, false], Amplitude::zero());
    let c = Ket::from_bit_slice(&[true, true], Amplitude::one());
    let d = Ket::from_bit_slice(&[true, false, false], Amplitude::one());
    assert!(a.same_bits(&b));
    assert!(a == b);
    assert!(a != c);
    assert!(a != d);
    assert!(vec![c.clone(), b.clone()].contains(&a));
    assert!(!a.same_bits(&c));
    assert!(!a.same_bits(&d));
    assert!(!a.are_equivalent(&b));
    assert!(a.are_equivalent(&a.duplicate()));
    assert!(a.are_equivalent(&a.clone()));
}

#[test]
fn duplicate_is_independent_of_its_source() {
    let a = Ket::from_bit_slice(&[true, false], Amplitude::one());
    let mut b = a.duplicate();
    b.toggle(1);
    assert_eq!(a.bit_vec().to_bools(), vec![true, false]);
    assert_eq!(b.bit_vec().to_bools(), vec![true, true]);
}

#[test]
fn label_writes_the_last_qubit_first() {
    let ket = Ket::from_bit_slice(&[false, true, false, false], Amplitude::one());
    assert_eq!(ket.label(), "|0010\u{27e9}");
    assert_eq!(Ket::new_zero_ket(0).label(), "|\u{27e9}");
    assert_eq!(Ket::from_bit_slice(&[true, false], Amplitude::one()).label(), "|01\u{27e9}");
}
