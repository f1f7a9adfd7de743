use sm_logic::assemble::Part;
use sm_logic::blueprint::{bp, Blueprint};
use sm_logic::color::Color;
use sm_logic::logic::{digit_dispay, full_adder};
use sm_logic::graph::DotLine;
use sm_logic::logic_gate::{IdSource, LogicGateMode};
use sm_logic::logic_unit::LogicUnit;
use sm_logic::utils::SignalName;
use sm_logic::pos::Pos;

#[test]
fn single_places_every_gate_at_one_spot() {
    let mut ids = IdSource::new();
    let unit = full_adder(&mut ids);
    let items = unit.assemble_single(Pos::new(1, 2, 3));
    assert_eq!(items.len(), 5);
    for (k, item) in items.iter().enumerate() {
        assert_eq!((item.pos.x, item.pos.y, item.pos.z), (1, 2, 3));
        assert_eq!(item.color, Color::single());
        match &item.part {
            Part::Gate(g) => assert_eq!(g.id, k as u32 + 1),
            Part::Switch(_) => panic!("no switch expected"),
        }
    }
}

#[test]
fn display_lays_pixels_in_rows() {
    let mut ids = IdSource::new();
    let mut unit = digit_dispay(&mut ids);
    let items = unit.assemble_display(Pos::new(0, 0, 0), 3);
    assert_eq!(items.len(), 39);
    // pixel d4 sits in column 1 of row 1
    let p4 = &items[4];
    assert_eq!((p4.pos.x, p4.pos.y, p4.pos.z), (1, -1, 0));
    assert_eq!(p4.color, Color::display());
}

#[test]
fn io_row_adds_input_gates_and_switches() {
    let mut ids = IdSource::new();
    let mut unit = full_adder(&mut ids);
    let items = unit.assemble_io(&mut ids, Pos::new(0, 0, 0), true);
    assert_eq!(items.len(), 2 + 3 + 3 * 2);
    assert_eq!(unit.gates().len(), 5 + 3);
    assert_eq!(ids.last(), 5 + 3 * 2);
    let switches = items.iter().filter(|i| matches!(i.part, Part::Switch(_))).count();
    assert_eq!(switches, 3);
    // The adder's own gates keep their ids; the input gates come after, with fresh ids.
    for (k, g) in unit.gates().iter().enumerate() {
        if k < 5 {
            assert_eq!(g.id, k as u32 + 1);
        } else {
            assert_eq!(g.id, 6 + 2 * (k as u32 - 5));
            assert_eq!(g.children, unit.io.inputs[k - 5].ids);
        }
    }
}

#[test]
fn tree_places_every_gate() {
    let mut ids = IdSource::new();
    let mut unit = full_adder(&mut ids);
    let items = unit.assemble_tree(&mut ids, Pos::new(0, 0, 0), false);
    let gates = items.iter().filter(|i| matches!(i.part, Part::Gate(_))).count();
    assert_eq!(gates, 5 + 3);
}

#[test]
fn blueprint_collects_parts_in_order() {
    let mut ids = IdSource::new();
    let unit = full_adder(&mut ids);
    let mut b = Blueprint::new();
    assert!(b.bodies().is_empty());
    b.place(unit.assemble_single(Pos::new(0, 0, 0)));
    b.place(unit.assemble_single(Pos::new(0, 1, 0)));
    assert_eq!(b.bodies().len(), 10);
    assert_eq!(b.bodies()[5].pos.y, 1);
}

#[test]
fn bp_lays_the_unit_out_with_switches() {
    let mut ids = IdSource::new();
    let unit = full_adder(&mut ids);
    let b = bp(&mut ids, unit);
    assert_eq!(b.bodies().len(), 2 + 3 + 3 * 2);
}

#[test]
fn dot_lines_list_inputs_gates_then_outputs() {
    let mut ids = IdSource::new();
    let unit = full_adder(&mut ids);
    let lines = unit.dot_lines();
    let mut expected = Vec::new();
    for i in &unit.io.inputs {
        expected.push(DotLine::InputNode(i.name));
        for &t in &i.ids {
            expected.push(DotLine::InputEdge(i.name, t));
        }
    }
    for g in unit.gates() {
        expected.push(DotLine::GateNode(g.id, g.mode, g.active));
        for &c in &g.children {
            expected.push(DotLine::GateEdge(g.id, c));
        }
    }
    for o in &unit.io.outputs {
        expected.push(DotLine::OutputNode(o.name));
        expected.push(DotLine::OutputEdge(o.id, o.name));
    }
    assert_eq!(lines, expected);
    assert_eq!(lines[0], DotLine::InputNode(SignalName('A', 0)));
    assert_eq!(*lines.last().unwrap(), DotLine::OutputEdge(unit.io.outputs[1].id, SignalName('C', 0)));
}

#[test]
fn dot_text_is_graphviz() {
    let mut ids = IdSource::new();
    let mut unit = LogicUnit::new();
    let g = unit.add_gate_output(&mut ids, LogicGateMode::Nand, true, SignalName('Ω', 12));
    unit.io.create_input(SignalName('A', 0), vec![g]);
    let text = String::from_utf8(unit.dot_text()).unwrap();
    let expected = [
        "digraph LogicUnit {\n",
        "    rankdir=LR;\n",
        "    in_A0 [label=\"A0\", shape=box, style=filled, fillcolor=lightblue];\n",
        "    in_A0 -> node_1;\n",
        "    node_1 [label=\"NAND_1\", shape=circle, style=filled, fillcolor=lightgreen];\n",
        "    out_Ω12 [label=\"Ω12\", shape=box, style=filled, fillcolor=lightyellow];\n",
        "    node_1 -> out_Ω12;\n",
        "}\n",
    ]
    .concat();
    assert_eq!(text, expected);
}
