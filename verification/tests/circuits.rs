use sm_logic::logic::{
    adder_substractor_8b, alu_8b_4m, bin2bcd8b, counter_8b, decoder_1_2n, dff, dff_1tick,
    digit_dispay, full_adder, mux_2_1, mux_2n_1, mux_4_1, reg_1b, reg_8b, reg_bank_8b_8x, rom_4kb,
    sr_latch, ticker,
};
use sm_logic::logic_gate::{IdSource, LogicGateMode};
use sm_logic::logic_unit::LogicUnit;
use sm_logic::utils::{gen_test_rom_vec, SignalName};

fn children(unit: &LogicUnit, id: u32) -> Vec<u32> {
    unit.gates().iter().find(|g| g.id == id).unwrap().children.clone()
}

fn ids_are_consecutive(unit: &LogicUnit, first: u32) -> bool {
    unit.gates().iter().enumerate().all(|(k, g)| g.id == first + k as u32)
}

#[test]
fn ticker_layout() {
    let mut ids = IdSource::new();
    let unit = ticker(&mut ids);
    assert_eq!(ids.last(), 2);
    assert_eq!(children(&unit, 1), vec![2]);
    assert_eq!(unit.io.get_input(SignalName('i', 0)).ids, vec![2, 1]);
    assert_eq!(unit.io.get_output(SignalName('i', 0)).id, 2);
}

#[test]
fn full_adder_layout() {
    let mut ids = IdSource::new();
    let unit = full_adder(&mut ids);
    assert_eq!(ids.last(), 5);
    assert_eq!(children(&unit, 1), vec![4, 2]);
    assert_eq!(children(&unit, 2), vec![5]);
    assert_eq!(children(&unit, 3), vec![5]);
    assert_eq!(unit.io.get_input(SignalName('A', 0)).ids, vec![1, 3]);
    assert_eq!(unit.io.get_input(SignalName('C', 0)).ids, vec![4, 2]);
    assert_eq!(unit.io.get_output(SignalName('S', 0)).id, 4);
    assert_eq!(unit.io.get_output(SignalName('C', 0)).id, 5);
}

#[test]
fn flip_flops_and_latches() {
    let mut ids = IdSource::new();
    let d = dff(&mut ids);
    assert_eq!(d.gates().len(), 6);
    assert_eq!(d.io.get_output(SignalName('Q', 0)).id, 1);
    assert_eq!(d.io.get_input(SignalName('C', 0)).ids, vec![3, 4]);
    let t = dff_1tick(&mut ids);
    assert_eq!(t.gates().len(), 3);
    assert_eq!(children(&t, 7), vec![7, 8]);
    let r = reg_1b(&mut ids);
    assert_eq!(r.gates().len(), 7);
    assert_eq!(r.io.get_input(SignalName('W', 0)).ids, vec![14, 15]);
    let s = sr_latch(&mut ids);
    assert!(ids_are_consecutive(&s, 17));
}

#[test]
fn small_multiplexers() {
    let mut ids = IdSource::new();
    let m2 = mux_2_1(&mut ids);
    assert!(ids_are_consecutive(&m2, 1));
    let before = ids.last();
    let m4 = mux_4_1(&mut ids);
    assert_eq!(m4.gates().len(), 7);
    assert_eq!(m4.io.get_input(SignalName('S', 0)).ids, vec![before + 7, before + 3, before + 5]);
    assert_eq!(m4.io.get_output(SignalName('O', 0)).id, before + 1);
}

#[test]
fn wide_multiplexer_and_decoder() {
    let mut ids = IdSource::new();
    let m = mux_2n_1(&mut ids, 3);
    assert_eq!(m.gates().len(), 1 + 8 + 3);
    assert_eq!(m.io.inputs.len(), 3 + 8);
    assert_eq!(m.io.get_input(SignalName('I', 5)).ids, vec![2 + 5]);
    let d = decoder_1_2n(&mut ids, 2);
    assert_eq!(d.gates().len(), 2 + 4);
    assert_eq!(d.io.outputs.len(), 4);
    assert_eq!(d.io.get_output(SignalName('O', 3)).id, 12 + 1 + 2 + 3);
    assert_eq!(d.io.get_input(SignalName('I', 0)).ids, vec![15, 16, 17, 18]);
}

#[test]
fn eight_bit_register() {
    let mut ids = IdSource::new();
    let r = reg_8b(&mut ids);
    assert_eq!(r.gates().len(), 56);
    assert_eq!(r.io.get_input(SignalName('W', 0)).ids.len(), 16);
    assert_eq!(r.io.get_input(SignalName('I', 2)).ids, vec![7 * 2 + 6, 7 * 2 + 7]);
    assert_eq!(r.io.get_output(SignalName('O', 7)).id, 7 * 7 + 1);
}

#[test]
fn adder_subtractor_carry_chain() {
    let mut ids = IdSource::new();
    let u = adder_substractor_8b(&mut ids);
    assert_eq!(u.gates().len(), 48);
    assert_eq!(children(&u, 5), vec![10, 8]);
    assert!(children(&u, 48 - 1).is_empty());
    assert_eq!(children(&u, 6), vec![1, 3]);
    assert_eq!(u.io.get_input(SignalName('K', 0)).ids, vec![6, 4, 2, 12, 18, 24, 30, 36, 42, 48]);
    assert_eq!(u.io.get_output(SignalName('O', 3)).id, 6 * 3 + 4);
}

#[test]
fn counter_wiring() {
    let mut ids = IdSource::new();
    let u = counter_8b(&mut ids);
    assert_eq!(u.gates().len(), 32);
    assert_eq!(children(&u, 1), vec![9]);
    assert_eq!(children(&u, 9), vec![9, 10, 2, 3, 4, 5, 6, 7, 8]);
    assert_eq!(children(&u, 9 + 3 * 7), vec![30, 31]);
    assert_eq!(u.io.get_input(SignalName('I', 0)).ids, vec![1, 2, 3, 4, 5, 6, 7, 8]);
    assert_eq!(u.io.inputs[0].name, SignalName('S', 0));
}

#[test]
fn binary_to_bcd_wiring() {
    let mut ids = IdSource::new();
    let u = bin2bcd8b(&mut ids);
    assert_eq!(u.gates().len(), 85);
    assert_eq!(u.io.get_input(SignalName('I', 0)).ids, vec![85]);
    assert_eq!(u.io.get_output(SignalName('H', 1)).id, 12 * 5 + 12);
    assert_eq!(u.io.outputs.len(), 10);
    // Q0 of cell 0 drives A1 of cell 1 (its own drives come first).
    assert_eq!(children(&u, 4), vec![5, 12 + 1, 12 + 6, 12 + 11]);
}

#[test]
fn digit_display_patterns() {
    let mut ids = IdSource::new();
    let u = digit_dispay(&mut ids);
    assert_eq!(u.gates().len(), 39);
    // decoder output of digit 1 lights pixels 1, 3, 4, 7, 10, 13
    assert_eq!(children(&u, 20 + 1), vec![2, 4, 5, 8, 11, 14]);
    // the pattern of digit 8 has a 2 where no pixel is lit
    assert_eq!(children(&u, 20 + 8).len(), 11);
    assert_eq!(u.io.get_input(SignalName('S', 2)).ids, vec![38]);
    assert_eq!(u.io.outputs.len(), 15);
}

#[test]
fn alu_modes_are_wired() {
    let mut ids = IdSource::new();
    let u = alu_8b_4m(&mut ids);
    assert_eq!(u.gates().len(), 120);
    assert_eq!(u.gates()[104].mode, LogicGateMode::And);
    assert_eq!(u.gates()[112].mode, LogicGateMode::Nand);
    // the and of bit 0 feeds data input 2 of multiplexer 0, the nand input 3
    assert_eq!(children(&u, 105), vec![4]);
    assert_eq!(children(&u, 113), vec![5]);
    // the sum of bit 0 feeds data inputs 0 and 1
    assert_eq!(children(&u, 56 + 4), vec![2, 3]);
    assert_eq!(u.io.get_input(SignalName('A', 0)).ids, vec![57, 59, 113, 105]);
    assert_eq!(u.io.get_output(SignalName('O', 2)).id, 15);
}

#[test]
fn rom_words() {
    let mut ids = IdSource::new();
    let data = gen_test_rom_vec();
    let u = rom_4kb(&mut ids, &data);
    assert_eq!(u.gates().len(), 1130);
    // word 3 holds 12 = bits 2 and 3
    assert_eq!(children(&u, 107 + 3), vec![75 + 2, 75 + 3]);
    // column 0 and row 3 both drive word 3
    assert!(children(&u, 6).contains(&(107 + 3)));
    assert!(children(&u, 43 + 3).contains(&(107 + 3)));
    assert_eq!(u.io.inputs.len(), 11);
    let empty = rom_4kb(&mut ids, &[]);
    assert!(empty.gates()[106..].iter().all(|g| g.children.is_empty()));
}

#[test]
fn register_bank_wiring() {
    let mut ids = IdSource::new();
    let u = reg_bank_8b_8x(&mut ids);
    assert_eq!(u.gates().len(), 555);
    assert_eq!(u.io.inputs.len(), 15);
    assert_eq!(u.io.get_input(SignalName('I', 0)).ids.len(), 16);
    // output bit 0 of register 2 drives data input 2 of multiplexer 0
    let reg2 = 107 + 56 * 2;
    assert_eq!(children(&u, reg2 + 1), vec![reg2 + 4, 2 + 2]);
    assert_eq!(u.io.get_output(SignalName('O', 1)).id, 12 + 1);
}
