use sm_logic::color::Color;
use sm_logic::logic_gate::{new_controller_id, IdSource, LogicGate, LogicGateMode, Switch};
use sm_logic::order::stable_positions;
use sm_logic::pos::Pos;
use sm_logic::utils::{gen_test_rom_vec, SignalName};

#[test]
fn id_source_hands_out_consecutive_ids() {
    let mut ids = IdSource::new();
    assert_eq!(ids.last(), 0);
    assert_eq!(new_controller_id(&mut ids), 1);
    assert_eq!(new_controller_id(&mut ids), 2);
    assert_eq!(ids.last(), 2);
}

#[test]
fn gate_new_takes_next_id() {
    let mut ids = IdSource::new();
    let g = LogicGate::new(&mut ids, LogicGateMode::Xor, true);
    assert_eq!(g.id, 1);
    assert!(g.active);
    assert_eq!(g.mode, LogicGateMode::Xor);
    assert!(g.children.is_empty());
    let h = LogicGate::new(&mut ids, LogicGateMode::And, false);
    assert_eq!(h.id, 2);
}

#[test]
fn gate_add_child_appends() {
    let mut ids = IdSource::new();
    let mut g = LogicGate::new(&mut ids, LogicGateMode::Or, false);
    g.add_child(7);
    g.add_child(3);
    assert_eq!(g.children, vec![7, 3]);
    let d = g.duplicate();
    assert_eq!(d.children, vec![7, 3]);
    assert_eq!(d.id, g.id);
}

#[test]
fn evaluate_each_mode() {
    let mut ids = IdSource::new();
    let and = LogicGate::new(&mut ids, LogicGateMode::And, false);
    let or = LogicGate::new(&mut ids, LogicGateMode::Or, false);
    let xor = LogicGate::new(&mut ids, LogicGateMode::Xor, false);
    let nand = LogicGate::new(&mut ids, LogicGateMode::Nand, false);
    let nor = LogicGate::new(&mut ids, LogicGateMode::Nor, false);
    let xnor = LogicGate::new(&mut ids, LogicGateMode::Xnor, false);
    let tt = [true, true];
    let tf = [true, false];
    let ff = [false, false];
    let ttt = [true, true, true];
    assert!(and.evaluate(&tt));
    assert!(!and.evaluate(&tf));
    assert!(or.evaluate(&tf));
    assert!(!or.evaluate(&ff));
    assert!(xor.evaluate(&tf));
    assert!(!xor.evaluate(&tt));
    assert!(xor.evaluate(&ttt));
    assert!(!nand.evaluate(&tt));
    assert!(nand.evaluate(&tf));
    assert!(nor.evaluate(&ff));
    assert!(!nor.evaluate(&tf));
    assert!(xnor.evaluate(&tt));
    assert!(!xnor.evaluate(&ttt));
}

#[test]
fn evaluate_without_parents_is_off() {
    let mut ids = IdSource::new();
    for mode in [
        LogicGateMode::And,
        LogicGateMode::Or,
        LogicGateMode::Xor,
        LogicGateMode::Nand,
        LogicGateMode::Nor,
        LogicGateMode::Xnor,
    ] {
        let g = LogicGate::new(&mut ids, mode, true);
        assert!(!g.evaluate(&[]));
    }
}

#[test]
fn mode_numbers() {
    assert_eq!(LogicGateMode::And.number(), 0);
    assert_eq!(LogicGateMode::Or.number(), 1);
    assert_eq!(LogicGateMode::Xor.number(), 2);
    assert_eq!(LogicGateMode::Nand.number(), 3);
    assert_eq!(LogicGateMode::Nor.number(), 4);
    assert_eq!(LogicGateMode::Xnor.number(), 5);
}

#[test]
fn switch_new_and_children() {
    let mut ids = IdSource::new();
    let mut s = Switch::new(&mut ids, true);
    s.add_child(9);
    assert_eq!(s.id(), 1);
    assert!(s.active());
    assert_eq!(s.children(), &vec![9]);
}

#[test]
fn color_hex_strings() {
    assert_eq!(Color::single().to_string(), "1E1E1E");
    assert_eq!(Color::input1().to_string(), "0000FF");
    assert_eq!(Color::input2().to_string(), "000096");
    assert_eq!(Color::output1().to_string(), "FF0000");
    assert_eq!(Color::output2().to_string(), "960000");
    assert_eq!(Color::display().to_string(), "000000");
    let c = Color { r: 0xAB, g: 0x0C, b: 0x7F };
    assert_eq!(c.to_string(), "AB0C7F");
}

#[test]
fn pos_arithmetic() {
    let p = Pos::new(1, -2, 3);
    assert_eq!((p.x, p.y, p.z), (1, -2, 3));
    let q = p.add_x(5);
    assert_eq!((q.x, q.y, q.z), (6, -2, 3));
    let r = p.plus(Pos::new(-1, 2, 10));
    assert_eq!((r.x, r.y, r.z), (0, 0, 13));
    let d = Pos::default();
    assert_eq!((d.x, d.y, d.z), (0, 0, 0));
}

#[test]
fn test_rom_image() {
    let rom = gen_test_rom_vec();
    assert_eq!(rom.len(), 1024);
    assert_eq!(rom[0], 0);
    assert_eq!(rom[1], 4);
    assert_eq!(rom[1023], 4092);
}

#[test]
fn signal_name_order() {
    assert!(SignalName('A', 7).before(&SignalName('B', 0)));
    assert!(SignalName('A', 1).before(&SignalName('A', 2)));
    assert!(!SignalName('A', 2).before(&SignalName('A', 2)));
    assert!(!SignalName('b', 0).before(&SignalName('Z', 9)));
}

#[test]
fn stable_positions_sort_and_keep_ties() {
    let keys = vec![5u64, 1, 5, 0, 1];
    assert_eq!(stable_positions(&keys), vec![3, 1, 4, 0, 2]);
    assert_eq!(stable_positions(&Vec::new()), Vec::<usize>::new());
}
