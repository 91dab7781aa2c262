use quantum_simulator::gates::gate::{apply_gate_to_state, apply_gates_to_state, Gate};
use quantum_simulator::quantum::amplitude::Amplitude;
use quantum_simulator::quantum::bits::BitPattern;
use quantum_simulator::quantum::ket::Ket;
use quantum_simulator::quantum::state::State;

fn amp(a: i64, b: i64, c: i64, d: i64, k: u64) -> Amplitude {
    Amplitude::from_parts(a, b, c, d, k).unwrap()
}

fn ket(bits: &[bool], amplitude: Amplitude) -> Ket {
    Ket::from_bit_vec(BitPattern::from_bools(bits), amplitude)
}

/// A superposition of three basis states of three qubits.
fn sample() -> State {
    State::from_ket_vec(&vec![
        ket(&[false, true, false], amp(1, 0, 0, 0, 1)),
        ket(&[true, true, false], amp(0, 1, 0, 0, 2)),
        ket(&[true, false, true], amp(0, 0, -1, 0, 2)),
    ])
    .unwrap()
}

fn copy(state: &State) -> State {
    State::from_ket_vec(&state.kets).unwrap()
}

/// The squared magnitude of an amplitude, as a double.
fn norm_sqr(x: &Amplitude) -> f64 {
    let r = 1.0 / 2.0_f64.sqrt();
    let re = x.a as f64 + (x.b as f64 - x.d as f64) * r;
    let im = x.c as f64 + (x.b as f64 + x.d as f64) * r;
    (re * re + im * im) * 0.5_f64.powi(x.k as i32)
}

fn total(state: &State) -> f64 {
    state.kets.iter().map(|k| norm_sqr(&k.amplitude)).sum()
}

fn no_bits_twice_and_no_zero(state: &State) -> bool {
    for (i, a) in state.kets.iter().enumerate() {
        if a.amplitude.is_zero() || a.width() != state.num_qubits() {
            return false;
        }
        for b in &state.kets[i + 1..] {
            if a.same_bits(b) {
                return false;
            }
        }
    }
    true
}

#[test]
fn x_twice_gives_the_state_back() {
    for target in 0..3 {
        let gate = Gate::X { target };
        let once = apply_gate_to_state(sample(), &gate).unwrap();
        assert!(!once.are_equivalent(&sample()));
        let twice = apply_gate_to_state(once, &gate).unwrap();
        assert!(twice.are_equivalent(&sample()));
    }
}

#[test]
fn h_twice_gives_the_state_back() {
    for target in 0..3 {
        let gate = Gate::H { target };
        let once = apply_gate_to_state(sample(), &gate).unwrap();
        assert!(!once.are_equivalent(&sample()));
        let twice = apply_gate_to_state(once, &gate).unwrap();
        assert!(twice.are_equivalent(&sample()));
    }
}

#[test]
fn t_and_tdg_undo_each_other() {
    for target in 0..3 {
        let t = Gate::T { target };
        let tdg = Gate::TDgr { target };
        let there = apply_gate_to_state(sample(), &t).unwrap();
        let back = apply_gate_to_state(there, &tdg).unwrap();
        assert!(back.are_equivalent(&sample()));
        let there = apply_gate_to_state(sample(), &tdg).unwrap();
        let back = apply_gate_to_state(there, &t).unwrap();
        assert!(back.are_equivalent(&sample()));
    }
    let turned = apply_gate_to_state(sample(), &Gate::T { target: 0 }).unwrap();
    assert!(!turned.are_equivalent(&sample()));
}

#[test]
fn gates_keep_the_sum_of_squared_magnitudes() {
    let before = total(&sample());
    assert!((before - 1.0).abs() < 1e-12);
    let gates = vec![
        Gate::H { target: 0 },
        Gate::H { target: 2 },
        Gate::X { target: 1 },
        Gate::T { target: 0 },
        Gate::TDgr { target: 2 },
        Gate::CX { control: 0, target: 1 },
        Gate::Toffoli { controls: vec![0, 1], target: 2 },
    ];
    let mut state = sample();
    for gate in &gates {
        state = apply_gate_to_state(state, gate).unwrap();
        assert!((total(&state) - before).abs() < 1e-9);
        assert!(no_bits_twice_and_no_zero(&state));
    }
}

#[test]
fn states_hold_no_bits_twice_and_no_zero_amplitude() {
    let mut state = sample();
    assert!(no_bits_twice_and_no_zero(&state));
    state.add_or_insert(ket(&[true, true, false], amp(0, -1, 0, 0, 2))).unwrap();
    assert_eq!(state.kets.len(), 2);
    assert!(no_bits_twice_and_no_zero(&state));
    state.add_or_insert(ket(&[true, false, true], amp(0, 0, 1, 0, 0))).unwrap();
    assert_eq!(state.kets.len(), 2);
    assert!(no_bits_twice_and_no_zero(&state));
    state.remove(&ket(&[false, true, false], Amplitude::one()));
    assert_eq!(state.kets.len(), 1);
    assert!(no_bits_twice_and_no_zero(&state));
    state.remove_zero_amplitude_kets();
    assert_eq!(state.kets.len(), 1);
}

#[test]
fn cancellation_empties_the_state() {
    let mut state = State::new(1);
    state.add_or_insert(ket(&[true], amp(1, 0, 0, 0, 0))).unwrap();
    state.add_or_insert(ket(&[true], amp(-1, 0, 0, 0, 0))).unwrap();
    assert!(state.kets.is_empty());
}

#[test]
fn cx_scenario() {
    let state = State::from_ket_vec(&vec![ket(&[true, true], Amplitude::one())]).unwrap();
    let next = apply_gate_to_state(state, &Gate::CX { control: 0, target: 1 }).unwrap();
    assert_eq!(next.kets.len(), 1);
    assert_eq!(next.kets[0].bit_vec().to_bools(), vec![true, false]);
    assert_eq!(next.kets[0].amplitude, Amplitude::one());
}

#[test]
fn composite_of_two_x_on_the_ground_state() {
    let gate = Gate::Composite { gates: vec![Gate::X { target: 0 }, Gate::X { target: 1 }] };
    let next = apply_gate_to_state(State::ground(2), &gate).unwrap();
    let expected = State::from_ket_vec(&vec![ket(&[true, true], Amplitude::one())]).unwrap();
    assert!(next.are_equivalent(&expected));
}

#[test]
fn gates_one_after_another() {
    let gates = vec![Gate::H { target: 0 }, Gate::CX { control: 0, target: 1 }];
    let bell = apply_gates_to_state(State::ground(2), &gates).unwrap();
    let expected = State::from_ket_vec(&vec![
        ket(&[false, false], amp(1, 0, 0, 0, 1)),
        ket(&[true, true], amp(1, 0, 0, 0, 1)),
    ])
    .unwrap();
    assert!(bell.are_equivalent(&expected));
    let same = apply_gates_to_state(copy(&bell), &vec![]).unwrap();
    assert!(same.are_equivalent(&bell));
    let failed = apply_gates_to_state(State::ground(2), &vec![Gate::X { target: 0 }, Gate::X { target: 2 }]);
    assert!(failed.is_err());
}

#[test]
fn sorted_kets_are_in_the_order_of_their_bits() {
    let state = State::from_ket_vec(&vec![
        ket(&[true, true], amp(1, 0, 0, 0, 0)),
        ket(&[false, true], amp(2, 0, 0, 0, 0)),
        ket(&[true, false], amp(3, 0, 0, 0, 0)),
        ket(&[false, false], amp(4, 0, 0, 0, 0)),
    ])
    .unwrap();
    let sorted = state.sorted_kets();
    let bits: Vec<Vec<bool>> = sorted.iter().map(|k| k.bit_vec().to_bools()).collect();
    assert_eq!(
        bits,
        vec![vec![false, false], vec![false, true], vec![true, false], vec![true, true]]
    );
    let amplitudes: Vec<i64> = sorted.iter().map(|k| k.amplitude.a).collect();
    assert_eq!(amplitudes, vec![4, 2, 3, 1]);
    assert!(State::new(2).sorted_kets().is_empty());
}

#[test]
fn composite_does_what_its_gates_do_in_turn() {
    let parts = || {
        vec![
            Gate::H { target: 0 },
            Gate::T { target: 0 },
            Gate::CX { control: 0, target: 2 },
            Gate::H { target: 0 },
            Gate::Toffoli { controls: vec![0, 2], target: 1 },
            Gate::TDgr { target: 1 },
            Gate::H { target: 1 },
            Gate::X { target: 2 },
        ]
    };
    let together = apply_gate_to_state(sample(), &Gate::Composite { gates: parts() }).unwrap();
    let in_turn = apply_gates_to_state(sample(), &parts()).unwrap();
    assert!(together.are_equivalent(&in_turn));
    assert!(!together.are_equivalent(&sample()));
    assert!((total(&together) - 1.0).abs() < 1e-9);
    assert!(no_bits_twice_and_no_zero(&together));
}

#[test]
fn hadamard_acts_on_each_basis_state() {
    // (|010> / sqrt(2)) under H on qubit 1: (|000> - |010>) / 2
    let state = State::from_ket_vec(&vec![ket(&[false, true, false], amp(1, 0, 0, 0, 1))]).unwrap();
    let next = apply_gate_to_state(state, &Gate::H { target: 1 }).unwrap();
    assert_eq!(next.kets.len(), 2);
    assert_eq!(
        next.amplitude_of(&ket(&[false, false, false], Amplitude::one())),
        Some(amp(1, 0, 0, 0, 2))
    );
    assert_eq!(
        next.amplitude_of(&ket(&[false, true, false], Amplitude::one())),
        Some(amp(-1, 0, 0, 0, 2))
    );
}
