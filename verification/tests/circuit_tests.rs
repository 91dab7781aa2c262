use quantum_simulator::circuit::{
    build_gate_from_line_result, gate_line_from_matches, parse_gate_line, parse_index,
    GateLineResult,
};
use quantum_simulator::error::SimError;
use quantum_simulator::gates::gate::Gate;
use quantum_simulator::quantum::register::Register;

fn single(name: &str, target: usize) -> GateLineResult {
    GateLineResult::SingleTarget { gate_name: name.to_string(), target }
}

fn multi(name: &str, targets: Vec<usize>) -> GateLineResult {
    GateLineResult::MultiTarget { gate_name: name.to_string(), targets }
}

#[test]
fn single_qubit_gates_by_name() {
    assert_eq!(build_gate_from_line_result(single("h", 3)), Ok(Gate::H { target: 3 }));
    assert_eq!(build_gate_from_line_result(single("x", 0)), Ok(Gate::X { target: 0 }));
    assert_eq!(build_gate_from_line_result(single("t", 1)), Ok(Gate::T { target: 1 }));
    assert_eq!(build_gate_from_line_result(single("tdg", 2)), Ok(Gate::TDgr { target: 2 }));
    assert_eq!(build_gate_from_line_result(multi("x", vec![4])), Ok(Gate::X { target: 4 }));
}

#[test]
fn controlled_gates_by_name() {
    assert_eq!(
        build_gate_from_line_result(multi("cx", vec![1, 0])),
        Ok(Gate::CX { control: 1, target: 0 })
    );
    assert_eq!(
        build_gate_from_line_result(multi("ccx", vec![2, 0, 1])),
        Ok(Gate::Toffoli { controls: vec![2, 0], target: 1 })
    );
    assert_eq!(
        build_gate_from_line_result(multi("ccx", vec![2, 0])),
        Ok(Gate::Toffoli { controls: vec![2], target: 0 })
    );
}

#[test]
fn unknown_instructions_are_unsupported() {
    assert_eq!(build_gate_from_line_result(single("y", 0)), Err(SimError::UnsupportedGate));
    assert_eq!(build_gate_from_line_result(single("cx", 0)), Err(SimError::UnsupportedGate));
    assert_eq!(build_gate_from_line_result(single("", 0)), Err(SimError::UnsupportedGate));
    assert_eq!(build_gate_from_line_result(multi("cx", vec![0, 1, 2])), Err(SimError::UnsupportedGate));
    assert_eq!(build_gate_from_line_result(multi("h", vec![0, 1])), Err(SimError::UnsupportedGate));
    assert_eq!(build_gate_from_line_result(multi("ccx", vec![])), Err(SimError::UnsupportedGate));
    assert_eq!(build_gate_from_line_result(multi("h", vec![])), Err(SimError::UnsupportedGate));
}

#[test]
fn register_holds_name_and_size() {
    let r = Register { name: "q".to_string(), size: 4 };
    assert_eq!(r.name, "q");
    assert_eq!(r.size, 4);
}

fn parts(line: GateLineResult) -> (String, Vec<usize>, bool) {
    match line {
        GateLineResult::SingleTarget { gate_name, target } => (gate_name, vec![target], true),
        GateLineResult::MultiTarget { gate_name, targets } => (gate_name, targets, false),
    }
}

#[test]
fn parse_index_reads_decimal_digits() {
    assert_eq!(parse_index("0"), Some(0));
    assert_eq!(parse_index("42"), Some(42));
    assert_eq!(parse_index("007"), Some(7));
    assert_eq!(parse_index(&usize::MAX.to_string()), Some(usize::MAX));
}

#[test]
fn parse_index_refuses_what_is_no_index() {
    assert_eq!(parse_index(""), None);
    assert_eq!(parse_index("4x"), None);
    assert_eq!(parse_index("-1"), None);
    assert_eq!(parse_index("+1"), None);
    assert_eq!(parse_index(" 1"), None);
    let too_big = format!("{}0", usize::MAX);
    assert_eq!(parse_index(&too_big), None);
    let one_more = format!("{}", usize::MAX as u128 + 1);
    assert_eq!(parse_index(&one_more), None);
}

#[test]
fn parse_gate_line_reads_a_single_target() {
    let (name, operands, single) = parts(parse_gate_line("h q[3];").unwrap());
    assert_eq!(name, "h");
    assert_eq!(operands, vec![3]);
    assert!(single);
}

#[test]
fn parse_gate_line_reads_several_targets() {
    let (name, operands, single) = parts(parse_gate_line("cx q[0],q[12];").unwrap());
    assert_eq!(name, "cx");
    assert_eq!(operands, vec![0, 12]);
    assert!(!single);
    let (name, operands, single) = parts(parse_gate_line("ccx q[2], q[0], q[1];").unwrap());
    assert_eq!(name, "ccx");
    assert_eq!(operands, vec![2, 0, 1]);
    assert!(!single);
    let (name, operands, single) = parts(parse_gate_line("barrier").unwrap());
    assert_eq!(name, "barrier");
    assert!(operands.is_empty());
    assert!(!single);
}

#[test]
fn parse_gate_line_refuses_lines_without_a_name_or_with_a_huge_index() {
    assert!(parse_gate_line("  h q[3];").is_none());
    assert!(parse_gate_line("").is_none());
    assert!(parse_gate_line("x q[99999999999999999999999999];").is_none());
}

#[test]
fn parsed_lines_become_gates() {
    let gate = build_gate_from_line_result(parse_gate_line("tdg q[1];").unwrap());
    assert_eq!(gate, Ok(Gate::TDgr { target: 1 }));
    let gate = build_gate_from_line_result(parse_gate_line("cx q[1],q[0];").unwrap());
    assert_eq!(gate, Ok(Gate::CX { control: 1, target: 0 }));
}

#[test]
fn gate_line_from_matches_puts_the_line_together() {
    let line = gate_line_from_matches(
        Some("x".to_string()),
        Some(vec![Some("5".to_string())]),
    );
    assert_eq!(parts(line.unwrap()), ("x".to_string(), vec![5], true));
    let line = gate_line_from_matches(
        Some("cx".to_string()),
        Some(vec![Some("5".to_string()), Some("6".to_string())]),
    );
    assert_eq!(parts(line.unwrap()), ("cx".to_string(), vec![5, 6], false));
    assert!(gate_line_from_matches(None, Some(vec![])).is_none());
    assert!(gate_line_from_matches(Some("x".to_string()), None).is_none());
    assert!(gate_line_from_matches(Some("x".to_string()), Some(vec![None])).is_none());
    assert!(gate_line_from_matches(Some("x".to_string()), Some(vec![Some("a".to_string())])).is_none());
}
