use sm_logic::emulator::{command_for_key, Command, Emulator};
use sm_logic::logic::{dff, dff_1tick, full_adder, mux_2_1, mux_4_1, reg_1b, sr_latch, ticker};
use sm_logic::logic_gate::{IdSource, LogicGateMode};
use sm_logic::logic_unit::LogicUnit;
use sm_logic::utils::SignalName;

fn output(emu: &Emulator, name: SignalName) -> bool {
    emu.output_states().into_iter().find(|(n, _)| *n == name).unwrap().1
}

fn set_input(emu: &mut Emulator, index: u16, value: bool) {
    if emu.inputs()[index as usize].1 != value {
        assert!(emu.click(index * 3, 1));
    }
}

#[test]
fn full_adder_adds_after_three_ticks() {
    for bits in 0u8..8 {
        let (a, b, c) = (bits & 1 == 1, bits & 2 == 2, bits & 4 == 4);
        let mut ids = IdSource::new();
        let mut emu = Emulator::new(full_adder(&mut ids));
        set_input(&mut emu, 0, a);
        set_input(&mut emu, 1, b);
        set_input(&mut emu, 2, c);
        for _ in 0..3 {
            emu.tick();
        }
        let total = a as u8 + b as u8 + c as u8;
        assert_eq!(output(&emu, SignalName('S', 0)), total % 2 == 1, "sum of {bits}");
        assert_eq!(output(&emu, SignalName('C', 0)), total >= 2, "carry of {bits}");
        assert_eq!(emu.tick_count(), 3);
    }
}

#[test]
fn emulator_sorts_inputs_by_name() {
    let mut ids = IdSource::new();
    let mut unit = LogicUnit::new();
    let g = unit.add_gate_output(&mut ids, LogicGateMode::Or, false, SignalName('O', 0));
    unit.io.create_input(SignalName('Z', 0), vec![g]);
    unit.io.create_input(SignalName('B', 1), vec![g]);
    unit.io.create_input(SignalName('B', 0), vec![g]);
    let emu = Emulator::new(unit);
    let names: Vec<SignalName> = emu.inputs().iter().map(|i| i.0).collect();
    assert_eq!(names, vec![SignalName('B', 0), SignalName('B', 1), SignalName('Z', 0)]);
    assert!(emu.inputs().iter().all(|i| !i.1));
}

#[test]
fn clicks_flip_inputs() {
    let mut ids = IdSource::new();
    let mut emu = Emulator::new(mux_2_1(&mut ids));
    assert!(emu.click(3, 1));
    assert!(emu.inputs()[1].1);
    assert!(emu.click(4, 1));
    assert!(!emu.inputs()[1].1);
    assert!(!emu.click(0, 2));
    assert!(!emu.click(300, 1));
}

#[test]
fn a_tick_updates_every_gate_at_once() {
    let mut ids = IdSource::new();
    let mut unit = LogicUnit::new();
    let a = unit.add_gate(&mut ids, LogicGateMode::Nand, false);
    let b = unit.add_gate_output(&mut ids, LogicGateMode::Nand, false, SignalName('O', 0));
    unit.connect(a, b);
    unit.connect(b, a);
    let mut emu = Emulator::new(unit);
    emu.tick();
    let rows = emu.gate_rows();
    assert_eq!(rows, vec![(a, true, SignalName('0', 0)), (b, true, SignalName('O', 0))]);
    emu.tick();
    assert_eq!(emu.gate_rows()[0].1, false);
    assert_eq!(output(&emu, SignalName('O', 0)), false);
}

#[test]
fn keys_map_to_commands() {
    assert_eq!(command_for_key('q'), Command::Quit);
    assert_eq!(command_for_key('t'), Command::Tick);
    assert_eq!(command_for_key('x'), Command::Nothing);
}

#[test]
fn mux_selects_after_three_ticks() {
    for bits in 0u8..8 {
        let (a, b, s) = (bits & 1 == 1, bits & 2 == 2, bits & 4 == 4);
        let mut ids = IdSource::new();
        let mut emu = Emulator::new(mux_2_1(&mut ids));
        let names: Vec<SignalName> = emu.inputs().iter().map(|i| i.0).collect();
        assert_eq!(names, vec![SignalName('A', 0), SignalName('B', 0), SignalName('S', 0)]);
        set_input(&mut emu, 0, a);
        set_input(&mut emu, 1, b);
        set_input(&mut emu, 2, s);
        for _ in 0..3 {
            emu.tick();
        }
        assert_eq!(output(&emu, SignalName('O', 0)), if s { b } else { a }, "mux of {bits}");
    }
}

fn run_adder(a: u8, b: u8, k: bool) -> u8 {
    let mut ids = IdSource::new();
    let mut emu = Emulator::new(sm_logic::logic::adder_substractor_8b(&mut ids));
    for i in 0..8u16 {
        set_input(&mut emu, i, (a >> i) & 1 == 1);
        set_input(&mut emu, 8 + i, (b >> i) & 1 == 1);
    }
    set_input(&mut emu, 16, k);
    for _ in 0..17 {
        emu.tick();
    }
    let outs = emu.output_states();
    assert_eq!(outs.len(), 8);
    let mut value = 0u8;
    for (i, (name, on)) in outs.iter().enumerate() {
        assert_eq!(*name, SignalName('O', i as u8));
        if *on {
            value |= 1 << i;
        }
    }
    value
}

#[test]
fn adder_subtractor_adds_and_subtracts() {
    assert_eq!(run_adder(100, 27, false), 127);
    assert_eq!(run_adder(100, 27, true), 73);
    assert_eq!(run_adder(5, 10, true), 251);
    assert_eq!(run_adder(200, 100, false), 44);
    assert_eq!(run_adder(255, 255, true), 0);
}

#[test]
fn register_writes_then_holds() {
    let mut ids = IdSource::new();
    let mut emu = Emulator::new(reg_1b(&mut ids));
    let names: Vec<SignalName> = emu.inputs().iter().map(|i| i.0).collect();
    assert_eq!(names, vec![SignalName('I', 0), SignalName('W', 0)]);
    for v in [true, false, true] {
        // write `v`
        set_input(&mut emu, 0, v);
        set_input(&mut emu, 1, true);
        for _ in 0..6 {
            emu.tick();
        }
        assert_eq!(output(&emu, SignalName('O', 0)), v, "written {v}");
        // hold it while `I` changes
        set_input(&mut emu, 1, false);
        for step in 0..10 {
            set_input(&mut emu, 0, step % 2 == 0);
            emu.tick();
            assert_eq!(output(&emu, SignalName('O', 0)), v, "held {v} at {step}");
        }
    }
}

#[test]
fn mux_4_1_selects_after_three_ticks() {
    for bits in 0u8..64 {
        let mut ids = IdSource::new();
        let mut emu = Emulator::new(mux_4_1(&mut ids));
        let names: Vec<SignalName> = emu.inputs().iter().map(|i| i.0).collect();
        assert_eq!(
            names,
            vec![
                SignalName('I', 0),
                SignalName('I', 1),
                SignalName('I', 2),
                SignalName('I', 3),
                SignalName('S', 0),
                SignalName('S', 1),
            ]
        );
        for k in 0..6u16 {
            set_input(&mut emu, k, bits >> k & 1 == 1);
        }
        for _ in 0..3 {
            emu.tick();
        }
        let sel = (bits >> 4) & 3;
        let expected = (bits >> sel) & 1 == 1;
        assert_eq!(output(&emu, SignalName('O', 0)), expected, "mux of {bits}");
    }
}

#[test]
fn ticker_pulses_once_per_change() {
    let mut ids = IdSource::new();
    let mut emu = Emulator::new(ticker(&mut ids));
    let out = SignalName('i', 0);
    emu.tick();
    assert!(!output(&emu, out));
    for v in [true, false, true] {
        set_input(&mut emu, 0, v);
        emu.tick();
        assert!(output(&emu, out), "pulse after change to {v}");
        for _ in 0..4 {
            emu.tick();
            assert!(!output(&emu, out), "quiet while {v} is held");
        }
    }
}

fn run_alu(a: u8, b: u8, mode: u8) -> u8 {
    let mut ids = IdSource::new();
    let mut emu = Emulator::new(sm_logic::logic::alu_8b_4m(&mut ids));
    let names: Vec<SignalName> = emu.inputs().iter().map(|i| i.0).collect();
    assert_eq!(names[16], SignalName('S', 0));
    assert_eq!(names[17], SignalName('S', 1));
    for i in 0..8u16 {
        assert_eq!(names[i as usize], SignalName('A', i as u8));
        set_input(&mut emu, i, (a >> i) & 1 == 1);
        set_input(&mut emu, 8 + i, (b >> i) & 1 == 1);
    }
    set_input(&mut emu, 16, mode & 1 == 1);
    set_input(&mut emu, 17, mode & 2 == 2);
    for _ in 0..19 {
        emu.tick();
    }
    let mut value = 0u8;
    for i in 0..8u8 {
        if output(&emu, SignalName('O', i)) {
            value |= 1 << i;
        }
    }
    value
}

#[test]
fn alu_computes_each_mode() {
    for (a, b) in [(100u8, 27u8), (5, 10), (200, 100), (255, 255), (0, 1), (0b1010_1100, 0b0110_0101)] {
        assert_eq!(run_alu(a, b, 0), a.wrapping_add(b), "{a} + {b}");
        assert_eq!(run_alu(a, b, 1), a.wrapping_sub(b), "{a} - {b}");
        assert_eq!(run_alu(a, b, 2), a & b, "{a} and {b}");
        assert_eq!(run_alu(a, b, 3), !(a & b), "{a} nand {b}");
    }
}

#[test]
fn dff_clocks_in_then_holds() {
    let mut ids = IdSource::new();
    let mut emu = Emulator::new(dff(&mut ids));
    let names: Vec<SignalName> = emu.inputs().iter().map(|i| i.0).collect();
    assert_eq!(names, vec![SignalName('C', 0), SignalName('D', 0)]);
    for v in [true, false, true, true, false] {
        set_input(&mut emu, 1, v);
        set_input(&mut emu, 0, true);
        for _ in 0..5 {
            emu.tick();
        }
        assert_eq!(output(&emu, SignalName('Q', 0)), v, "clocked {v}");
        set_input(&mut emu, 0, false);
        for step in 0..8 {
            set_input(&mut emu, 1, step % 3 == 0);
            emu.tick();
            assert_eq!(output(&emu, SignalName('Q', 0)), v, "held {v} at {step}");
        }
    }
}

#[test]
fn dff_1tick_sets_and_flips() {
    let mut ids = IdSource::new();
    let mut emu = Emulator::new(dff_1tick(&mut ids));
    let names: Vec<SignalName> = emu.inputs().iter().map(|i| i.0).collect();
    assert_eq!(names, vec![SignalName('C', 0), SignalName('D', 0), SignalName('F', 0)]);
    let q = SignalName('Q', 0);
    // one-tick pulse on C with D on
    set_input(&mut emu, 1, true);
    emu.tick();
    set_input(&mut emu, 0, true);
    emu.tick();
    set_input(&mut emu, 0, false);
    emu.tick();
    assert!(output(&emu, q));
    for _ in 0..4 {
        emu.tick();
        assert!(output(&emu, q));
    }
    // one-tick pulse on F flips it
    set_input(&mut emu, 2, true);
    emu.tick();
    set_input(&mut emu, 2, false);
    assert!(!output(&emu, q));
    for _ in 0..4 {
        emu.tick();
        assert!(!output(&emu, q));
    }
}

fn counter_value(emu: &Emulator) -> u8 {
    let mut value = 0u8;
    for i in 0..8u8 {
        if output(emu, SignalName('O', i)) {
            value |= 1 << i;
        }
    }
    value
}

#[test]
fn counter_increments_and_loads() {
    let mut ids = IdSource::new();
    let mut emu = Emulator::new(sm_logic::logic::counter_8b(&mut ids));
    let names: Vec<SignalName> = emu.inputs().iter().map(|i| i.0).collect();
    assert_eq!(names[8], SignalName('I', 0));
    assert_eq!(names[9], SignalName('S', 0));
    emu.tick();
    assert_eq!(counter_value(&emu), 0);
    for expected in 1..=20u8 {
        set_input(&mut emu, 8, true);
        emu.tick();
        set_input(&mut emu, 8, false);
        emu.tick();
        assert_eq!(counter_value(&emu), expected);
        emu.tick();
        assert_eq!(counter_value(&emu), expected, "holds {expected}");
    }
    // load 254, then count over the top
    for i in 0..8u16 {
        set_input(&mut emu, i, (254u8 >> i) & 1 == 1);
    }
    emu.tick();
    set_input(&mut emu, 9, true);
    emu.tick();
    set_input(&mut emu, 9, false);
    emu.tick();
    assert_eq!(counter_value(&emu), 254);
    for expected in [255u8, 0, 1] {
        set_input(&mut emu, 8, true);
        emu.tick();
        set_input(&mut emu, 8, false);
        emu.tick();
        assert_eq!(counter_value(&emu), expected);
    }
}

#[test]
fn sr_latch_sets_resets_and_holds() {
    let mut ids = IdSource::new();
    let mut emu = Emulator::new(sr_latch(&mut ids));
    let names: Vec<SignalName> = emu.inputs().iter().map(|i| i.0).collect();
    assert_eq!(names, vec![SignalName('R', 0), SignalName('S', 0)]);
    let q = SignalName('Q', 0);
    for v in [true, false, true] {
        let (set, reset) = if v { (1u16, 0u16) } else { (0u16, 1u16) };
        set_input(&mut emu, set, true);
        set_input(&mut emu, reset, false);
        for _ in 0..3 {
            emu.tick();
        }
        assert_eq!(output(&emu, q), v, "after {}", if v { "set" } else { "reset" });
        set_input(&mut emu, set, false);
        for _ in 0..5 {
            emu.tick();
            assert_eq!(output(&emu, q), v, "holds {v}");
        }
    }
}

#[test]
fn bin2bcd_converts_every_byte() {
    let mut ids = IdSource::new();
    let mut emu = Emulator::new(sm_logic::logic::bin2bcd8b(&mut ids));
    let names: Vec<SignalName> = emu.inputs().iter().map(|i| i.0).collect();
    for i in 0..8u8 {
        assert_eq!(names[i as usize], SignalName('I', i));
    }
    let digit = |emu: &Emulator, c: char, bits: u8| -> u8 {
        let mut v = 0u8;
        for i in 0..bits {
            if output(emu, SignalName(c, i)) {
                v |= 1 << i;
            }
        }
        v
    };
    for n in 0..=255u8 {
        for i in 0..8u16 {
            set_input(&mut emu, i, (n >> i) & 1 == 1);
        }
        for _ in 0..60 {
            emu.tick();
        }
        assert_eq!(digit(&emu, 'O', 4), n % 10, "ones of {n}");
        assert_eq!(digit(&emu, 'T', 4), (n / 10) % 10, "tens of {n}");
        assert_eq!(digit(&emu, 'H', 2), n / 100, "hundreds of {n}");
    }
}

#[test]
fn reg_8b_writes_then_holds() {
    let mut ids = IdSource::new();
    let mut emu = Emulator::new(sm_logic::logic::reg_8b(&mut ids));
    let names: Vec<SignalName> = emu.inputs().iter().map(|i| i.0).collect();
    assert_eq!(names[8], SignalName('W', 0));
    let read = |emu: &Emulator| -> u8 {
        let mut v = 0u8;
        for i in 0..8u8 {
            if output(emu, SignalName('O', i)) {
                v |= 1 << i;
            }
        }
        v
    };
    for value in [0b1011_0010u8, 0xff, 0, 0x5a] {
        for i in 0..8u16 {
            set_input(&mut emu, i, (value >> i) & 1 == 1);
        }
        set_input(&mut emu, 8, true);
        for _ in 0..6 {
            emu.tick();
        }
        assert_eq!(read(&emu), value, "written {value}");
        set_input(&mut emu, 8, false);
        for step in 0..6u16 {
            set_input(&mut emu, step, step % 2 == 0);
            emu.tick();
            assert_eq!(read(&emu), value, "held {value}");
        }
    }
}

#[test]
fn mux_2n_1_selects_after_three_ticks() {
    let mut ids = IdSource::new();
    let mut emu = Emulator::new(sm_logic::logic::mux_2n_1(&mut ids, 3));
    let names: Vec<SignalName> = emu.inputs().iter().map(|i| i.0).collect();
    for i in 0..8u8 {
        assert_eq!(names[i as usize], SignalName('I', i));
    }
    for k in 0..3u8 {
        assert_eq!(names[8 + k as usize], SignalName('S', k));
    }
    for data in [0b1010_0110u8, 0x01, 0x80, 0xff, 0] {
        for i in 0..8u16 {
            set_input(&mut emu, i, (data >> i) & 1 == 1);
        }
        for sel in 0..8u16 {
            for k in 0..3u16 {
                set_input(&mut emu, 8 + k, (sel >> k) & 1 == 1);
            }
            for _ in 0..3 {
                emu.tick();
            }
            assert_eq!(output(&emu, SignalName('O', 0)), (data >> sel) & 1 == 1, "data {data} sel {sel}");
        }
    }
}

#[test]
fn digit_display_shows_each_digit() {
    const ROWS: [[u8; 15]; 10] = [
        [1, 1, 1, 1, 0, 1, 1, 0, 1, 1, 0, 1, 1, 1, 1],
        [0, 1, 0, 1, 1, 0, 0, 1, 0, 0, 1, 0, 0, 1, 0],
        [0, 1, 0, 1, 0, 1, 0, 0, 1, 0, 1, 0, 1, 1, 1],
        [1, 1, 0, 0, 0, 1, 0, 1, 0, 0, 0, 1, 1, 1, 0],
        [1, 0, 1, 1, 0, 1, 1, 1, 1, 0, 0, 1, 0, 0, 1],
        [1, 1, 1, 1, 0, 0, 1, 1, 1, 0, 0, 1, 1, 1, 0],
        [1, 1, 1, 1, 0, 0, 1, 1, 1, 1, 0, 1, 1, 1, 1],
        [1, 1, 1, 0, 0, 1, 0, 1, 0, 0, 1, 0, 0, 1, 0],
        [1, 1, 1, 1, 0, 1, 0, 1, 2, 1, 0, 1, 1, 1, 1],
        [1, 1, 1, 1, 0, 1, 1, 1, 1, 0, 0, 1, 1, 1, 1],
    ];
    let mut ids = IdSource::new();
    let mut emu = Emulator::new(sm_logic::logic::digit_dispay(&mut ids));
    let names: Vec<SignalName> = emu.inputs().iter().map(|i| i.0).collect();
    assert_eq!(names[0], SignalName('I', 0));
    for enable in [true, false] {
        set_input(&mut emu, 0, enable);
        for value in 0..16u16 {
            for t in 0..4u16 {
                set_input(&mut emu, 1 + t, (value >> t) & 1 == 1);
            }
            for _ in 0..4 {
                emu.tick();
            }
            for i in 0..15u8 {
                let lit = enable && value < 10 && ROWS[value as usize][i as usize] == 1;
                assert_eq!(output(&emu, SignalName('d', i)), lit, "digit {value} pixel {i}");
            }
        }
    }
}

#[test]
fn rom_reads_the_addressed_word() {
    let data: Vec<u32> = (0..1000u32).map(|i| i.wrapping_mul(2654435761) ^ (i << 7)).collect();
    let mut ids = IdSource::new();
    let mut emu = Emulator::new(sm_logic::logic::rom_4kb(&mut ids, &data));
    let names: Vec<SignalName> = emu.inputs().iter().map(|i| i.0).collect();
    for k in 0..10u8 {
        assert_eq!(names[k as usize], SignalName('A', k + 2));
    }
    assert_eq!(names[10], SignalName('R', 0));
    let read = |emu: &Emulator| -> u32 {
        let mut v = 0u32;
        for i in 0..32u8 {
            if output(emu, SignalName('O', i)) {
                v |= 1 << i;
            }
        }
        v
    };
    set_input(&mut emu, 10, true);
    for addr in [0usize, 1, 31, 32, 33, 517, 999, 1000, 1023] {
        for k in 0..10u16 {
            set_input(&mut emu, k, (addr >> k) & 1 == 1);
        }
        for _ in 0..4 {
            emu.tick();
        }
        let expected = if addr < data.len() { data[addr] } else { 0 };
        assert_eq!(read(&emu), expected, "word {addr}");
    }
    set_input(&mut emu, 10, false);
    for _ in 0..4 {
        emu.tick();
    }
    assert_eq!(read(&emu), 0);
}

#[test]
fn register_bank_writes_then_reads() {
    let mut ids = IdSource::new();
    let mut emu = Emulator::new(sm_logic::logic::reg_bank_8b_8x(&mut ids));
    let names: Vec<SignalName> = emu.inputs().iter().map(|i| i.0).collect();
    let at = |name: SignalName| -> u16 { names.iter().position(|n| *n == name).unwrap() as u16 };
    let values = [0x12u8, 0xff, 0x00, 0xa5, 0x3c, 0x81, 0x7e, 0x40];
    // Write every register in turn.
    for (reg, value) in values.iter().enumerate() {
        for k in 0..3u8 {
            set_input(&mut emu, at(SignalName('S', k)), (reg >> k) & 1 == 1);
        }
        emu.tick();
        for i in 0..8u8 {
            set_input(&mut emu, at(SignalName('I', i)), (value >> i) & 1 == 1);
        }
        set_input(&mut emu, at(SignalName('W', 0)), true);
        for _ in 0..7 {
            emu.tick();
        }
        set_input(&mut emu, at(SignalName('W', 0)), false);
        for _ in 0..2 {
            emu.tick();
        }
    }
    // Read them all back, with the data inputs changed.
    for i in 0..8u8 {
        set_input(&mut emu, at(SignalName('I', i)), i % 2 == 0);
    }
    for (reg, value) in values.iter().enumerate() {
        for k in 0..3u8 {
            set_input(&mut emu, at(SignalName('s', k)), (reg >> k) & 1 == 1);
        }
        for _ in 0..3 {
            emu.tick();
        }
        let mut read = 0u8;
        for i in 0..8u8 {
            if output(&emu, SignalName('O', i)) {
                read |= 1 << i;
            }
        }
        assert_eq!(read, *value, "register {reg}");
    }
}
