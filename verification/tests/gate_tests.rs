use num::complex::Complex;
use quantum_simulator::error::SimError;
use quantum_simulator::gates::gate::{apply_gate_to_ket, apply_gate_to_state, Gate, GateKetResult};
use quantum_simulator::gates::h::H;
use quantum_simulator::quantum::amplitude::Amplitude;
use quantum_simulator::quantum::bits::BitPattern;
use quantum_simulator::quantum::ket::Ket;
use quantum_simulator::quantum::state::State;
use std::f64::consts::PI;

fn amp(a: i64, b: i64, c: i64, d: i64, k: u64) -> Amplitude {
    Amplitude::from_parts(a, b, c, d, k).unwrap()
}

fn ket(bits: &[bool], amplitude: Amplitude) -> Ket {
    Ket::from_bit_vec(BitPattern::from_bools(bits), amplitude)
}

/// The amplitude as a pair of doubles.
fn numeric(x: &Amplitude) -> Complex<f64> {
    let r = 1.0 / 2.0_f64.sqrt();
    let re = x.a as f64 + (x.b as f64 - x.d as f64) * r;
    let im = x.c as f64 + (x.b as f64 + x.d as f64) * r;
    let scale = r.powi(x.k as i32);
    Complex::new(re * scale, im * scale)
}

fn close(x: &Amplitude, expected: Complex<f64>) -> bool {
    (numeric(x) - expected).norm() < 1e-6
}

fn assert_ket_eq(ket1: &Ket, ket2: &Ket) {
    assert!(ket1.are_equivalent(ket2));
}

fn assert_contains_ket(kets: &Vec<Ket>, contains_ket: &Ket) {
    for ket in kets {
        if ket.are_equivalent(contains_ket) {
            return;
        }
    }
    assert!(false);
}

fn assert_state_eq(state1: &State, state2: &State) {
    assert!(state1.are_equivalent(state2));
}

#[test]
fn test_apply_h_to_ket() {
    let ket0 = Ket::new_zero_ket(1);
    let gate = Gate::H { target: 0 };
    let result = apply_gate_to_ket(&gate, ket0).unwrap();

    let expected_ket1 = ket(&[false], amp(1, 0, 0, 0, 1));
    let expected_ket2 = ket(&[true], amp(1, 0, 0, 0, 1));
    assert!(close(&expected_ket1.amplitude, Complex::new(1.0 / 2.0_f64.sqrt(), 0.0)));
    match result {
        GateKetResult::Kets(kets) => {
            assert_eq!(kets.len(), 2);
            assert_contains_ket(&kets, &expected_ket1);
            assert_contains_ket(&kets, &expected_ket2);
        }
        _ => panic!("Expected two kets."),
    }
}

#[test]
fn test_apply_h_to_state() {
    let mut state = State::new(1);
    state.add_or_insert(Ket::new_zero_ket(1)).unwrap();
    let gate = Gate::H { target: 0 };
    let superposition_state = apply_gate_to_state(state, &gate).unwrap();

    let expected_ket1 = ket(&[false], amp(1, 0, 0, 0, 1));
    let expected_ket2 = ket(&[true], amp(1, 0, 0, 0, 1));
    let expected_superposition_state =
        State::from_ket_vec(&vec![expected_ket1, expected_ket2]).unwrap();

    assert_state_eq(&superposition_state, &expected_superposition_state);
    assert_eq!(superposition_state.kets.len(), 2);
    for k in &superposition_state.kets {
        assert!(close(&k.amplitude, Complex::new(1.0 / 2.0_f64.sqrt(), 0.0)));
    }

    let back_to_zero_state = apply_gate_to_state(superposition_state, &gate).unwrap();
    let expected_zero_state = State::from_ket_vec(&vec![Ket::new_zero_ket(1)]).unwrap();

    assert_state_eq(&back_to_zero_state, &expected_zero_state);
}

#[test]
fn test_apply_x_to_ket() {
    let ket0 = ket(&[false, false], amp(1, 0, 0, 0, 0));
    let gate = Gate::X { target: 1 };
    let result = apply_gate_to_ket(&gate, ket0).unwrap();

    let expected_ket = ket(&[false, true], amp(1, 0, 0, 0, 0));
    match result {
        GateKetResult::Ket(ket) => {
            assert_ket_eq(&ket, &expected_ket);
        }
        _ => panic!("Expected one ket."),
    }
}

#[test]
fn test_apply_x_to_gate() {
    let mut state = State::new(2);
    state.add_or_insert(ket(&[false, false], amp(1, 0, 0, 0, 0))).unwrap();
    let gate = Gate::X { target: 1 };

    let new_state = apply_gate_to_state(state, &gate).unwrap();

    let expected_ket = ket(&[false, true], amp(1, 0, 0, 0, 0));
    let expected_state = State::from_ket_vec(&vec![expected_ket]).unwrap();

    assert_state_eq(&new_state, &expected_state);
}

#[test]
fn tets_apply_t_to_ket() {
    let ket0 = ket(&[true], amp(1, 0, 0, 0, 0));
    let gate = Gate::T { target: 0 };
    let result = apply_gate_to_ket(&gate, ket0).unwrap();

    let expected_ket = ket(&[true], amp(0, 1, 0, 0, 0));
    assert!(close(
        &expected_ket.amplitude,
        Complex::new(1.0, 0.0) * Complex::new(0.0, 1.0 * PI / 4.0).exp()
    ));
    match result {
        GateKetResult::Ket(ket) => {
            assert_ket_eq(&ket, &expected_ket);
        }
        _ => panic!("Expected one ket."),
    }
}

#[test]
fn test_apply_t_to_gate() {
    let mut state = State::new(1);
    state.add_or_insert(ket(&[true], amp(1, 0, 0, 0, 0))).unwrap();
    let gate = Gate::T { target: 0 };

    let new_state = apply_gate_to_state(state, &gate).unwrap();

    let expected_ket = ket(&[true], amp(0, 1, 0, 0, 0));
    let expected_state = State::from_ket_vec(&vec![expected_ket]).unwrap();

    assert_state_eq(&new_state, &expected_state);
    assert!(close(
        &new_state.kets[0].amplitude,
        Complex::new(1.0, 0.0) * Complex::new(0.0, 1.0 * PI / 4.0).exp()
    ));
}

#[test]
fn tets_apply_tdgr_to_ket() {
    let ket0 = ket(&[true], amp(1, 0, 0, 0, 0));
    let gate = Gate::TDgr { target: 0 };
    let result = apply_gate_to_ket(&gate, ket0).unwrap();

    let expected_ket = ket(&[true], amp(0, 0, 0, -1, 0));
    assert!(close(
        &expected_ket.amplitude,
        Complex::new(1.0, 0.0) * Complex::new(0.0, -1.0 * PI / 4.0).exp()
    ));
    match result {
        GateKetResult::Ket(ket) => {
            assert_ket_eq(&ket, &expected_ket);
        }
        _ => panic!("Expected one ket."),
    }
}

#[test]
fn test_apply_tdgr_to_state() {
    let mut state = State::new(1);
    state.add_or_insert(ket(&[true], amp(1, 0, 0, 0, 0))).unwrap();
    let gate = Gate::TDgr { target: 0 };

    let new_state = apply_gate_to_state(state, &gate).unwrap();

    let expected_ket = ket(&[true], amp(0, 0, 0, -1, 0));
    let expected_state = State::from_ket_vec(&vec![expected_ket]).unwrap();

    assert_state_eq(&new_state, &expected_state);
    assert!(close(
        &new_state.kets[0].amplitude,
        Complex::new(1.0, 0.0) * Complex::new(0.0, -1.0 * PI / 4.0).exp()
    ));
}

#[test]
fn test_apply_cx_to_ket() {
    let ket0 = ket(&[true, false], amp(1, 0, 0, 0, 0));
    let gate = Gate::CX { control: 0, target: 1 };
    let result = apply_gate_to_ket(&gate, ket0).unwrap();

    let expected_ket = ket(&[true, true], amp(1, 0, 0, 0, 0));
    match result {
        GateKetResult::Ket(ket) => {
            assert_ket_eq(&ket, &expected_ket);
        }
        _ => panic!("Expected one ket."),
    }
}

#[test]
fn test_apply_cx_to_state() {
    let mut state = State::new(2);
    state.add_or_insert(ket(&[true, true], amp(1, 0, 0, 0, 0))).unwrap();
    let gate = Gate::CX { control: 0, target: 1 };

    let new_state = apply_gate_to_state(state, &gate).unwrap();

    let expected_ket = ket(&[true, false], amp(1, 0, 0, 0, 0));
    let expected_state = State::from_ket_vec(&vec![expected_ket]).unwrap();

    assert_state_eq(&new_state, &expected_state);
    assert_eq!(new_state.kets.len(), 1);
    assert_eq!(new_state.kets[0].bit_vec().to_bools(), vec![true, false]);
    assert_eq!(new_state.kets[0].amplitude, Amplitude::one());
}

#[test]
fn apply_composite_gate_to_state_single_ket() {
    let mut state = State::new(2);
    state.add_or_insert(ket(&[false, false], amp(1, 0, 0, 0, 0))).unwrap();
    let gate = Gate::Composite { gates: vec![Gate::X { target: 0 }, Gate::X { target: 1 }] };

    let new_state = apply_gate_to_state(state, &gate).unwrap();

    let expected_state =
        State::from_ket_vec(&vec![ket(&[true, true], amp(1, 0, 0, 0, 0))]).unwrap();

    assert_state_eq(&new_state, &expected_state);
}

#[test]
fn cx_leaves_ket_when_control_is_clear() {
    let result =
        apply_gate_to_ket(&Gate::CX { control: 0, target: 1 }, ket(&[false, true], Amplitude::one()))
            .unwrap();
    match result {
        GateKetResult::Ket(k) => assert_eq!(k.bit_vec().to_bools(), vec![false, true]),
        _ => panic!("Expected one ket."),
    }
}

#[test]
fn toffoli_flips_only_when_all_controls_are_set() {
    let gate = Gate::Toffoli { controls: vec![0, 1], target: 2 };
    let flipped = apply_gate_to_ket(&gate, ket(&[true, true, false], Amplitude::one())).unwrap();
    match flipped {
        GateKetResult::Ket(k) => assert_eq!(k.bit_vec().to_bools(), vec![true, true, true]),
        _ => panic!("Expected one ket."),
    }
    let kept = apply_gate_to_ket(&gate, ket(&[true, false, false], Amplitude::one())).unwrap();
    match kept {
        GateKetResult::Ket(k) => assert_eq!(k.bit_vec().to_bools(), vec![true, false, false]),
        _ => panic!("Expected one ket."),
    }
}

#[test]
fn h_negates_the_set_branch() {
    let result =
        apply_gate_to_ket(&Gate::H { target: 0 }, ket(&[true], Amplitude::one())).unwrap();
    match result {
        GateKetResult::Kets(kets) => {
            assert_eq!(kets.len(), 2);
            assert_eq!(kets[0].bit_vec().to_bools(), vec![true]);
            assert_eq!(kets[0].amplitude, amp(-1, 0, 0, 0, 1));
            assert_eq!(kets[1].bit_vec().to_bools(), vec![false]);
            assert_eq!(kets[1].amplitude, amp(1, 0, 0, 0, 1));
        }
        _ => panic!("Expected two kets."),
    }
}

#[test]
fn composite_of_two_h_gives_four_unmerged_kets() {
    let gate = Gate::Composite { gates: vec![Gate::H { target: 0 }, Gate::H { target: 0 }] };
    let result = apply_gate_to_ket(&gate, Ket::new_zero_ket(1)).unwrap();
    match result {
        GateKetResult::Kets(kets) => {
            assert_eq!(kets.len(), 4);
            let half = amp(1, 0, 0, 0, 2);
            let minus_half = amp(-1, 0, 0, 0, 2);
            let plus = kets.iter().filter(|k| k.amplitude == half).count();
            let minus = kets.iter().filter(|k| k.amplitude == minus_half).count();
            assert_eq!(plus, 3);
            assert_eq!(minus, 1);
        }
        _ => panic!("Expected four kets."),
    }
}

#[test]
fn empty_composite_gives_the_ket_back() {
    let gate = Gate::Composite { gates: vec![] };
    let result = apply_gate_to_ket(&gate, ket(&[true, false], amp(0, 1, 0, 0, 3))).unwrap();
    match result {
        GateKetResult::Ket(k) => {
            assert_eq!(k.bit_vec().to_bools(), vec![true, false]);
            assert_eq!(k.amplitude, amp(0, 1, 0, 0, 3));
        }
        _ => panic!("Expected one ket."),
    }
}

#[test]
fn gate_out_of_range_is_an_error() {
    let r = apply_gate_to_ket(&Gate::X { target: 2 }, Ket::new_zero_ket(2));
    assert!(matches!(r, Err(SimError::IndexOutOfRange)));
    let r = apply_gate_to_ket(
        &Gate::Composite { gates: vec![Gate::X { target: 0 }, Gate::CX { control: 0, target: 5 }] },
        Ket::new_zero_ket(2),
    );
    assert!(matches!(r, Err(SimError::IndexOutOfRange)));
    let r = apply_gate_to_state(State::ground(2), &Gate::Toffoli { controls: vec![0, 7], target: 1 });
    assert!(matches!(r, Err(SimError::IndexOutOfRange)));
    let r = apply_gate_to_state(State::new(2), &Gate::H { target: 2 });
    assert!(matches!(r, Err(SimError::IndexOutOfRange)));
}

#[test]
fn halving_past_the_largest_exponent_is_an_error() {
    let edge = Amplitude::from_parts(1, 0, 0, 0, u64::MAX).unwrap();
    let r = apply_gate_to_ket(&Gate::H { target: 0 }, ket(&[false], edge));
    assert!(matches!(r, Err(SimError::AmplitudeOverflow)));
}

#[test]
fn h_struct_applies_hadamard() {
    let h = H { target: 1 };
    match h.apply(Ket::new_zero_ket(2)).unwrap() {
        GateKetResult::Kets(kets) => {
            assert_eq!(kets.len(), 2);
            assert_eq!(kets[0].bit_vec().to_bools(), vec![false, false]);
            assert_eq!(kets[1].bit_vec().to_bools(), vec![false, true]);
            assert_eq!(kets[0].amplitude, amp(1, 0, 0, 0, 1));
            assert_eq!(kets[1].amplitude, amp(1, 0, 0, 0, 1));
        }
        _ => panic!("Expected two kets."),
    }
    assert!(matches!(h.apply(Ket::new_zero_ket(1)), Err(SimError::IndexOutOfRange)));
}

#[test]
fn hadamard_superposition_of_one_qubit() {
    let state = apply_gate_to_state(State::ground(1), &Gate::H { target: 0 }).unwrap();
    assert_eq!(state.kets.len(), 2);
    let zero = state.amplitude_of(&ket(&[false], Amplitude::one())).unwrap();
    let one = state.amplitude_of(&ket(&[true], Amplitude::one())).unwrap();
    assert_eq!(zero, amp(1, 0, 0, 0, 1));
    assert_eq!(one, amp(1, 0, 0, 0, 1));
    assert!(close(&zero, Complex::new(1.0 / 2.0_f64.sqrt(), 0.0)));
    assert!(close(&one, Complex::new(1.0 / 2.0_f64.sqrt(), 0.0)));
}

#[test]
fn into_kets_lists_what_is_held() {
    let one = GateKetResult::Ket(Ket::new_zero_ket(1)).into_kets();
    assert_eq!(one.len(), 1);
    let none = GateKetResult::NotImplemented(String::new()).into_kets();
    assert!(none.is_empty());
    assert!(Gate::CX { control: 0, target: 1 }.fits_width(2));
    assert!(!Gate::CX { control: 0, target: 2 }.fits_width(2));
}
