use quantum_simulator::error::SimError;
use quantum_simulator::quantum::amplitude::Amplitude;
use quantum_simulator::quantum::bits::BitPattern;
use quantum_simulator::quantum::ket::Ket;
use quantum_simulator::quantum::state::State;

fn amp(a: i64, b: i64, c: i64, d: i64, k: u64) -> Amplitude {
    Amplitude::from_parts(a, b, c, d, k).unwrap()
}

fn ket(bits: &[bool], amplitude: Amplitude) -> Ket {
    Ket::from_bit_vec(BitPattern::from_bools(bits), amplitude)
}

#[test]
fn test_new_state_zero_qubits() {
    let state = State::new(0);
    assert!(state.kets.is_empty());
    assert!(state.num_qubits == 0);
}

#[test]
fn test_add_or_insert_basic() {
    let ket0 = ket(&[false], amp(1, 0, 0, 0, 2));
    let mut state = State::ground(1);
    state.add_or_insert(ket0).unwrap();

    let expected_ket = ket(&[false], amp(3, 0, 0, 0, 2));
    assert!(state.find(expected_ket.bit_vec()).is_some());
    if let Some(found) = state.amplitude_of(&expected_ket) {
        assert_eq!(found, expected_ket.amplitude);
    } else {
        panic!("Ket not found in state.");
    }
}

#[test]
fn test_add_or_insert_zero_amplitude() {
    let ket0 = ket(&[false, true, false], Amplitude::zero());
    let mut state = State::ground(1);
    state.add_or_insert(ket0).unwrap();

    // Should only have the initial zero ket.
    assert!(state.kets.len() == 1);
}

#[test]
fn test_add_or_insert_zero_amplitude_existing() {
    let mut state = State::new(1);
    state.add_or_insert(ket(&[true], amp(1, 0, 0, 0, 0))).unwrap();
    assert!(state.kets.len() == 1);

    let ket0 = ket(&[true], amp(-1, 0, 0, 0, 0));
    state.add_or_insert(ket0).unwrap();

    assert!(state.kets.is_empty());
}

#[test]
fn test_remove_ket() {
    let ket0 = ket(&[false], amp(1, 0, 0, 0, 2));
    let mut state = State::new(1);
    state.add_or_insert(ket0.clone()).unwrap();

    state.remove(&ket0);
    assert!(state.kets.is_empty());
}

#[test]
fn test_remove_zero_amplitude_kets() {
    let ket1 = ket(&[false], amp(1, 0, 0, 0, 2));
    let ket2 = ket(&[true], Amplitude::zero());
    let mut state = State::new(1);
    state.add_or_insert(ket1).unwrap();
    state.add_or_insert(ket2).unwrap();

    state.remove_zero_amplitude_kets();
    assert!(state.kets.len() == 1);
}

#[test]
fn remove_zero_amplitude_kets_sweeps_direct_writes() {
    let mut state = State::new(1);
    state.kets.push(ket(&[false], Amplitude::zero()));
    state.kets.push(ket(&[true], amp(1, 0, 0, 0, 1)));
    state.remove_zero_amplitude_kets();
    assert_eq!(state.kets.len(), 1);
    assert_eq!(state.kets[0].bit_vec().to_bools(), vec![true]);
    assert_eq!(state.kets[0].amplitude, amp(1, 0, 0, 0, 1));
}

#[test]
fn remove_of_absent_ket_changes_nothing() {
    let mut state = State::ground(2);
    state.remove(&ket(&[true, false], Amplitude::one()));
    assert_eq!(state.kets.len(), 1);
    assert_eq!(state.num_qubits(), 2);
}

#[test]
fn insert_of_other_width_is_refused() {
    let mut state = State::ground(1);
    let r = state.add_or_insert(ket(&[false, true], Amplitude::one()));
    assert_eq!(r, Err(SimError::WidthMismatch));
    assert_eq!(state.kets.len(), 1);
}

#[test]
fn from_ket_vec_refuses_mixed_widths() {
    let r = State::from_ket_vec(&vec![Ket::new_zero_ket(1), Ket::new_zero_ket(2)]);
    assert!(matches!(r, Err(SimError::WidthMismatch)));
}

#[test]
fn from_ket_vec_accumulates_equal_bits() {
    let state = State::from_ket_vec(&vec![
        ket(&[false, false], amp(1, 0, 0, 0, 0)),
        ket(&[false, true], amp(1, 0, 0, 0, 0)),
        ket(&[false, false], amp(1, 0, 0, 0, 0)),
    ])
    .unwrap();
    assert_eq!(state.num_qubits(), 2);
    assert_eq!(state.kets.len(), 2);
    assert_eq!(state.amplitude_of(&ket(&[false, false], Amplitude::one())), Some(amp(2, 0, 0, 0, 0)));
    assert_eq!(state.amplitude_of(&ket(&[false, true], Amplitude::one())), Some(amp(1, 0, 0, 0, 0)));
    assert_eq!(state.amplitude_of(&ket(&[true, true], Amplitude::one())), None);
}

#[test]
fn from_ket_vec_of_nothing_is_the_empty_state() {
    let state = State::from_ket_vec(&vec![]).unwrap();
    assert_eq!(state.num_qubits(), 0);
    assert!(state.kets.is_empty());
}

#[test]
fn equivalence_ignores_storage_order() {
    let a = State::from_ket_vec(&vec![
        ket(&[false, true], amp(1, 0, 0, 0, 1)),
        ket(&[true, true], amp(0, 1, 0, 0, 1)),
    ])
    .unwrap();
    let b = State::from_ket_vec(&vec![
        ket(&[true, true], amp(0, 1, 0, 0, 1)),
        ket(&[false, true], amp(1, 0, 0, 0, 1)),
    ])
    .unwrap();
    assert!(a.are_equivalent(&b));
    assert!(b.are_equivalent(&a));
}

#[test]
fn equivalence_sees_differences() {
    let a = State::from_ket_vec(&vec![ket(&[false, true], amp(1, 0, 0, 0, 1))]).unwrap();
    let other_amplitude =
        State::from_ket_vec(&vec![ket(&[false, true], amp(-1, 0, 0, 0, 1))]).unwrap();
    let other_bits = State::from_ket_vec(&vec![ket(&[true, true], amp(1, 0, 0, 0, 1))]).unwrap();
    let more = State::from_ket_vec(&vec![
        ket(&[false, true], amp(1, 0, 0, 0, 1)),
        ket(&[true, true], amp(1, 0, 0, 0, 1)),
    ])
    .unwrap();
    assert!(!a.are_equivalent(&other_amplitude));
    assert!(!a.are_equivalent(&other_bits));
    assert!(!a.are_equivalent(&more));
    assert!(!more.are_equivalent(&a));
    assert!(!State::new(1).are_equivalent(&State::new(2)));
    assert!(State::new(3).are_equivalent(&State::new(3)));
}

#[test]
fn ground_state_holds_the_zero_ket() {
    let state = State::ground(3);
    assert_eq!(state.num_qubits(), 3);
    assert_eq!(state.kets.len(), 1);
    assert_eq!(state.kets[0].bit_vec().to_bools(), vec![false, false, false]);
    assert_eq!(state.kets[0].amplitude, Amplitude::one());
}
