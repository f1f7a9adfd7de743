use sm_logic::logic_gate::{IdSource, LogicGate, LogicGateMode};
use sm_logic::logic_unit::LogicUnit;
use sm_logic::utils::SignalName;

#[test]
fn inputs_are_found_by_first_name() {
    let mut unit = LogicUnit::new();
    unit.io.create_input(SignalName('A', 0), vec![1, 2]);
    unit.io.create_input(SignalName('B', 0), vec![3]);
    unit.io.create_input(SignalName('A', 0), vec![9]);
    assert_eq!(unit.io.get_input(SignalName('A', 0)).ids, vec![1, 2]);
    assert_eq!(unit.io.get_input(SignalName('B', 0)).ids, vec![3]);
}

#[test]
fn add_input_and_add_inputs_append() {
    let mut unit = LogicUnit::new();
    unit.io.create_input(SignalName('S', 0), vec![]);
    unit.io.add_input(SignalName('S', 0), 4);
    unit.io.add_inputs(SignalName('S', 0), &[5, 6]);
    unit.io.add_inputs(SignalName('X', 0), &[]);
    assert_eq!(unit.io.get_input(SignalName('S', 0)).ids, vec![4, 5, 6]);
    assert_eq!(unit.io.inputs.len(), 1);
}

#[test]
fn outputs_are_found_by_first_name() {
    let mut unit = LogicUnit::new();
    unit.io.create_output(SignalName('O', 0), 3);
    unit.io.create_output(SignalName('O', 1), 4);
    unit.io.create_output(SignalName('O', 0), 5);
    assert_eq!(unit.io.get_output(SignalName('O', 0)).id, 3);
    assert_eq!(unit.io.get_output(SignalName('O', 1)).id, 4);
}

#[test]
fn gates_get_fresh_ids_and_connect() {
    let mut ids = IdSource::new();
    let mut unit = LogicUnit::new();
    let a = unit.add_gate(&mut ids, LogicGateMode::And, false);
    let o = unit.add_gate_output(&mut ids, LogicGateMode::Or, true, SignalName('O', 0));
    assert_eq!((a, o), (1, 2));
    unit.connect(a, o);
    unit.connect(a, a);
    assert_eq!(unit.gates()[0].children, vec![2, 1]);
    assert!(unit.gates()[1].children.is_empty());
    assert!(unit.gates()[1].active);
    assert_eq!(unit.io.get_output(SignalName('O', 0)).id, 2);
}

#[test]
fn connect_to_input_drives_every_gate() {
    let mut ids = IdSource::new();
    let mut unit = LogicUnit::new();
    let a = unit.add_gate(&mut ids, LogicGateMode::And, false);
    let b = unit.add_gate(&mut ids, LogicGateMode::And, false);
    let c = unit.add_gate(&mut ids, LogicGateMode::And, false);
    unit.io.create_input(SignalName('I', 0), vec![b, c]);
    let input = unit.io.get_input(SignalName('I', 0));
    let targets = sm_logic::logic_unit::Input { name: input.name, ids: input.ids.clone() };
    unit.connect_to_input(a, &targets);
    assert_eq!(unit.gates()[0].children, vec![b, c]);
}

#[test]
fn embed_appends_gates_and_returns_interface() {
    let mut ids = IdSource::new();
    let mut outer = LogicUnit::new();
    outer.add_gate(&mut ids, LogicGateMode::Xor, false);
    let mut inner = LogicUnit::new();
    let g = inner.add_gate_output(&mut ids, LogicGateMode::Nand, true, SignalName('Q', 0));
    inner.io.create_input(SignalName('D', 0), vec![g]);
    let io = outer.embed(inner);
    assert_eq!(outer.gates().len(), 2);
    assert_eq!(outer.gates()[1].id, g);
    assert_eq!(io.get_output(SignalName('Q', 0)).id, g);
    assert_eq!(io.get_input(SignalName('D', 0)).ids, vec![g]);
    assert!(outer.io.inputs.is_empty());
}

#[test]
fn embed_gate_gives_two_inputs_and_one_output() {
    let mut ids = IdSource::new();
    let mut unit = LogicUnit::new();
    let gate = LogicGate::new(&mut ids, LogicGateMode::Nor, false);
    let io = unit.embed_gate(gate);
    assert_eq!(io.get_input(SignalName('A', 0)).ids, vec![1]);
    assert_eq!(io.get_input(SignalName('B', 0)).ids, vec![1]);
    assert_eq!(io.get_output(SignalName('Y', 0)).id, 1);
    assert_eq!(unit.gates()[0].mode, LogicGateMode::Nor);
}
