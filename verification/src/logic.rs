use vstd::prelude::*;

use crate::logic_gate::{fresh_gate, gate_with, GateModel, IdSource, LogicGateMode};
use crate::logic_unit::{
    connect_all_model, connect_model, first_gate, first_input, first_output, has_gate, has_input, has_output,
    is_first_gate,
    is_first_input, is_first_output, lemma_first_gate, lemma_first_input, lemma_first_output,
    InputModel, LogicUnit, Output, IO,
};
use crate::utils::{Id, SignalName};
use vstd::arithmetic::power2::{lemma2_to64, lemma_pow2_strictly_increases, pow2};
use vstd::bits::lemma_usize_shl_is_mul;

verus! {

/// The signal name `c` with bit index `n`.
pub open spec fn sn(c: char, n: u8) -> SignalName {
    SignalName(c, n)
}

/// An input model.
pub open spec fn inp(name: SignalName, ids: Seq<Id>) -> InputModel {
    InputModel { name, ids }
}

/// An output model.
pub open spec fn outp(name: SignalName, id: int) -> Output {
    Output { name, id: id as Id }
}

/// A gate with id `b + k`.
pub open spec fn g(b: int, k: int, mode: LogicGateMode, active: bool, children: Seq<Id>) -> GateModel {
    gate_with((b + k) as Id, mode, active, children)
}

/// The id `b + k`.
pub open spec fn at(b: int, k: int) -> Id {
    (b + k) as Id
}

/// The first gate with id `id` sits at position `k`.
proof fn first_at(gs: Seq<GateModel>, id: Id, k: int)
    requires
        is_first_gate(gs, id, k),
    ensures
        first_gate(gs, id) == k,
        has_gate(gs, id),
{
    lemma_first_gate(gs, id, k);
}

// ---------------------------------------------------------------------------
// Ticker

/// The gates of the ticker built after id `b`.
pub open spec fn ticker_gates(b: int) -> Seq<GateModel> {
    seq![
        g(b, 1, LogicGateMode::And, false, seq![at(b, 2)]),
        g(b, 2, LogicGateMode::Xor, false, seq![]),
    ]
}

/// A ticker: output `i0` is on for one tick after each change of input `i0`.
/// Its gates take the two ids after `ids`.
pub fn ticker(ids: &mut IdSource) -> (unit: LogicUnit)
    requires
        old(ids)@ + 2 <= u32::MAX,
    ensures
        final(ids)@ == old(ids)@ + 2,
        unit@.gates == ticker_gates(old(ids)@ as int),
        unit@.inputs == seq![inp(sn('i', 0), seq![at(old(ids)@ as int, 2), at(old(ids)@ as int, 1)])],
        unit@.outputs == seq![outp(sn('i', 0), old(ids)@ as int + 2)],
{
    let ghost b = ids@ as int;
    let mut ticker = LogicUnit::new();
    let h = ticker.add_gate(ids, LogicGateMode::And, false);
    let o = ticker.add_gate_output(ids, LogicGateMode::Xor, false, SignalName('i', 0));
    ticker.io.create_input(SignalName('i', 0), vec![o, h]);
    proof {
        first_at(ticker@.gates, h, 0);
    }
    ticker.connect(h, o);
    proof {
        assert(ticker@.gates =~= ticker_gates(b));
        assert(ticker@.inputs[0].ids =~= seq![at(b, 2), at(b, 1)]);
        assert(ticker@.inputs =~= seq![inp(sn('i', 0), seq![at(b, 2), at(b, 1)])]);
    }
    ticker
}

// ---------------------------------------------------------------------------
// Full adder

/// The gates of the full adder built after id `b`: `xor1, and1, and2, xor2 (S), or (C)`.
pub open spec fn full_adder_gates(b: int) -> Seq<GateModel> {
    seq![
        g(b, 1, LogicGateMode::Xor, false, seq![at(b, 4), at(b, 2)]),
        g(b, 2, LogicGateMode::And, false, seq![at(b, 5)]),
        g(b, 3, LogicGateMode::And, false, seq![at(b, 5)]),
        g(b, 4, LogicGateMode::Xor, false, seq![]),
        g(b, 5, LogicGateMode::Or, false, seq![]),
    ]
}

/// The inputs of the full adder built after id `b`.
pub open spec fn full_adder_inputs(b: int) -> Seq<InputModel> {
    seq![
        inp(sn('A', 0), seq![at(b, 1), at(b, 3)]),
        inp(sn('B', 0), seq![at(b, 1), at(b, 3)]),
        inp(sn('C', 0), seq![at(b, 4), at(b, 2)]),
    ]
}

/// The outputs of the full adder built after id `b`.
pub open spec fn full_adder_outputs(b: int) -> Seq<Output> {
    seq![outp(sn('S', 0), b + 4), outp(sn('C', 0), b + 5)]
}

/// A full adder. Inputs `A`, `B`, `C` (carry in); outputs `S` (sum) and `C` (carry out).
/// Its gates take the five ids after `ids`.
pub fn full_adder(ids: &mut IdSource) -> (unit: LogicUnit)
    requires
        old(ids)@ + 5 <= u32::MAX,
    ensures
        final(ids)@ == old(ids)@ + 5,
        unit@.gates == full_adder_gates(old(ids)@ as int),
        unit@.inputs == full_adder_inputs(old(ids)@ as int),
        unit@.outputs == full_adder_outputs(old(ids)@ as int),
{
    let ghost b = ids@ as int;
    let mut unit = LogicUnit::new();
    let xor1 = unit.add_gate(ids, LogicGateMode::Xor, false);
    let and1 = unit.add_gate(ids, LogicGateMode::And, false);
    let and2 = unit.add_gate(ids, LogicGateMode::And, false);
    let xor2 = unit.add_gate_output(ids, LogicGateMode::Xor, false, SignalName('S', 0));
    let or = unit.add_gate_output(ids, LogicGateMode::Or, false, SignalName('C', 0));
    proof { first_at(unit@.gates, xor1, 0); }
    unit.connect(xor1, xor2);
    proof { first_at(unit@.gates, xor1, 0); }
    unit.connect(xor1, and1);
    proof { first_at(unit@.gates, and1, 1); }
    unit.connect(and1, or);
    proof { first_at(unit@.gates, and2, 2); }
    unit.connect(and2, or);
    unit.io.create_input(SignalName('A', 0), vec![xor1, and2]);
    unit.io.create_input(SignalName('B', 0), vec![xor1, and2]);
    unit.io.create_input(SignalName('C', 0), vec![xor2, and1]);
    proof {
        assert(unit@.gates =~~= full_adder_gates(b));
        assert(unit@.inputs =~~= full_adder_inputs(b));
        assert(unit@.outputs =~= full_adder_outputs(b));
    }
    unit
}

// ---------------------------------------------------------------------------
// D flip-flop

/// The gates of the D flip-flop built after id `b`:
/// `nand1 (Q), nand2, nand3, nand4, h, not`.
pub open spec fn dff_gates(b: int) -> Seq<GateModel> {
    seq![
        g(b, 1, LogicGateMode::Nand, false, seq![at(b, 5)]),
        g(b, 2, LogicGateMode::Nand, false, seq![at(b, 1)]),
        g(b, 3, LogicGateMode::Nand, false, seq![at(b, 1)]),
        g(b, 4, LogicGateMode::Nand, false, seq![at(b, 2)]),
        g(b, 5, LogicGateMode::And, false, seq![at(b, 2)]),
        g(b, 6, LogicGateMode::Nand, true, seq![at(b, 4)]),
    ]
}

/// The inputs of the D flip-flop built after id `b`.
pub open spec fn dff_inputs(b: int) -> Seq<InputModel> {
    seq![inp(sn('D', 0), seq![at(b, 3), at(b, 6)]), inp(sn('C', 0), seq![at(b, 3), at(b, 4)])]
}

/// A D flip-flop: inputs `D` (data) and `C` (clock), output `Q`.
/// Its gates take the six ids after `ids`.
pub fn dff(ids: &mut IdSource) -> (unit: LogicUnit)
    requires
        old(ids)@ + 6 <= u32::MAX,
    ensures
        final(ids)@ == old(ids)@ + 6,
        unit@.gates == dff_gates(old(ids)@ as int),
        unit@.inputs == dff_inputs(old(ids)@ as int),
        unit@.outputs == seq![outp(sn('Q', 0), old(ids)@ as int + 1)],
{
    let ghost b = ids@ as int;
    let mut unit = LogicUnit::new();
    let nand1 = unit.add_gate_output(ids, LogicGateMode::Nand, false, SignalName('Q', 0));
    let nand2 = unit.add_gate(ids, LogicGateMode::Nand, false);
    let nand3 = unit.add_gate(ids, LogicGateMode::Nand, false);
    let nand4 = unit.add_gate(ids, LogicGateMode::Nand, false);
    let h = unit.add_gate(ids, LogicGateMode::And, false);
    let not = unit.add_gate(ids, LogicGateMode::Nand, true);
    proof { first_at(unit@.gates, nand1, 0); }
    unit.connect(nand1, h);
    proof { first_at(unit@.gates, h, 4); }
    unit.connect(h, nand2);
    proof { first_at(unit@.gates, nand2, 1); }
    unit.connect(nand2, nand1);
    proof { first_at(unit@.gates, nand3, 2); }
    unit.connect(nand3, nand1);
    proof { first_at(unit@.gates, nand4, 3); }
    unit.connect(nand4, nand2);
    proof { first_at(unit@.gates, not, 5); }
    unit.connect(not, nand4);
    unit.io.create_input(SignalName('D', 0), vec![nand3, not]);
    unit.io.create_input(SignalName('C', 0), vec![nand3, nand4]);
    proof {
        assert(unit@.gates =~~= dff_gates(b));
        assert(unit@.inputs =~~= dff_inputs(b));
        assert(unit@.outputs =~= seq![outp(sn('Q', 0), b + 1)]);
    }
    unit
}

/// The gates of the one-tick D flip-flop built after id `b`: `bit (Q), xor, and`.
pub open spec fn dff_1tick_gates(b: int) -> Seq<GateModel> {
    seq![
        g(b, 1, LogicGateMode::Xor, false, seq![at(b, 1), at(b, 2)]),
        g(b, 2, LogicGateMode::Xor, false, seq![at(b, 3)]),
        g(b, 3, LogicGateMode::And, false, seq![at(b, 1)]),
    ]
}

/// The inputs of the one-tick D flip-flop built after id `b`.
pub open spec fn dff_1tick_inputs(b: int) -> Seq<InputModel> {
    seq![
        inp(sn('D', 0), seq![at(b, 2)]),
        inp(sn('C', 0), seq![at(b, 3)]),
        inp(sn('F', 0), seq![at(b, 1)]),
    ]
}

/// A D flip-flop clocked by a one-tick pulse on `C`, with a one-tick flip input `F`;
/// output `Q`. Its gates take the three ids after `ids`.
pub fn dff_1tick(ids: &mut IdSource) -> (unit: LogicUnit)
    requires
        old(ids)@ + 3 <= u32::MAX,
    ensures
        final(ids)@ == old(ids)@ + 3,
        unit@.gates == dff_1tick_gates(old(ids)@ as int),
        unit@.inputs == dff_1tick_inputs(old(ids)@ as int),
        unit@.outputs == seq![outp(sn('Q', 0), old(ids)@ as int + 1)],
{
    let ghost b = ids@ as int;
    let mut unit = LogicUnit::new();
    let bit = unit.add_gate_output(ids, LogicGateMode::Xor, false, SignalName('Q', 0));
    let xor = unit.add_gate(ids, LogicGateMode::Xor, false);
    let and = unit.add_gate(ids, LogicGateMode::And, false);
    proof { first_at(unit@.gates, bit, 0); }
    unit.connect(bit, bit);
    proof { first_at(unit@.gates, bit, 0); }
    unit.connect(bit, xor);
    proof { first_at(unit@.gates, xor, 1); }
    unit.connect(xor, and);
    proof { first_at(unit@.gates, and, 2); }
    unit.connect(and, bit);
    unit.io.create_input(SignalName('D', 0), vec![xor]);
    unit.io.create_input(SignalName('C', 0), vec![and]);
    unit.io.create_input(SignalName('F', 0), vec![bit]);
    proof {
        assert(unit@.gates =~~= dff_1tick_gates(b));
        assert(unit@.inputs =~~= dff_1tick_inputs(b));
        assert(unit@.outputs =~= seq![outp(sn('Q', 0), b + 1)]);
    }
    unit
}

// ---------------------------------------------------------------------------
// Multiplexers and latches

/// The gates of the 2:1 multiplexer built after id `b`: `or (O), and0, and1, not`.
pub open spec fn mux_2_1_gates(b: int) -> Seq<GateModel> {
    seq![
        g(b, 1, LogicGateMode::Or, false, seq![]),
        g(b, 2, LogicGateMode::And, false, seq![at(b, 1)]),
        g(b, 3, LogicGateMode::And, false, seq![at(b, 1)]),
        g(b, 4, LogicGateMode::Nand, true, seq![at(b, 2)]),
    ]
}

/// The inputs of the 2:1 multiplexer built after id `b`.
pub open spec fn mux_2_1_inputs(b: int) -> Seq<InputModel> {
    seq![
        inp(sn('A', 0), seq![at(b, 2)]),
        inp(sn('B', 0), seq![at(b, 3)]),
        inp(sn('S', 0), seq![at(b, 3), at(b, 4)]),
    ]
}

/// A 2:1 multiplexer: inputs `A`, `B`, select `S`; output `O` (`A` while `S` is off,
/// `B` while it is on).
/// Its gates take the four ids after `ids`.
pub fn mux_2_1(ids: &mut IdSource) -> (unit: LogicUnit)
    requires
        old(ids)@ + 4 <= u32::MAX,
    ensures
        final(ids)@ == old(ids)@ + 4,
        unit@.gates == mux_2_1_gates(old(ids)@ as int),
        unit@.inputs == mux_2_1_inputs(old(ids)@ as int),
        unit@.outputs == seq![outp(sn('O', 0), old(ids)@ as int + 1)],
{
    let ghost b = ids@ as int;
    let mut unit = LogicUnit::new();
    let or = unit.add_gate_output(ids, LogicGateMode::Or, false, SignalName('O', 0));
    let and0 = unit.add_gate(ids, LogicGateMode::And, false);
    let and1 = unit.add_gate(ids, LogicGateMode::And, false);
    let not = unit.add_gate(ids, LogicGateMode::Nand, true);
    proof { first_at(unit@.gates, and0, 1); }
    unit.connect(and0, or);
    proof { first_at(unit@.gates, and1, 2); }
    unit.connect(and1, or);
    proof { first_at(unit@.gates, not, 3); }
    unit.connect(not, and0);
    unit.io.create_input(SignalName('A', 0), vec![and0]);
    unit.io.create_input(SignalName('B', 0), vec![and1]);
    unit.io.create_input(SignalName('S', 0), vec![and1, not]);
    proof {
        assert(unit@.gates =~~= mux_2_1_gates(b));
        assert(unit@.inputs =~~= mux_2_1_inputs(b));
        assert(unit@.outputs =~= seq![outp(sn('O', 0), b + 1)]);
    }
    unit
}

/// The gates of the SR latch built after id `b`: `q (Q), nq, h`.
pub open spec fn sr_latch_gates(b: int) -> Seq<GateModel> {
    seq![
        g(b, 1, LogicGateMode::Nor, false, seq![at(b, 2)]),
        g(b, 2, LogicGateMode::Nor, true, seq![at(b, 3)]),
        g(b, 3, LogicGateMode::And, false, seq![at(b, 1)]),
    ]
}

/// An SR latch: inputs `S` (set) and `R` (reset), output `Q`.
/// Its gates take the three ids after `ids`.
pub fn sr_latch(ids: &mut IdSource) -> (unit: LogicUnit)
    requires
        old(ids)@ + 3 <= u32::MAX,
    ensures
        final(ids)@ == old(ids)@ + 3,
        unit@.gates == sr_latch_gates(old(ids)@ as int),
        unit@.inputs == seq![
            inp(sn('S', 0), seq![at(old(ids)@ as int, 2)]),
            inp(sn('R', 0), seq![at(old(ids)@ as int, 1)]),
        ],
        unit@.outputs == seq![outp(sn('Q', 0), old(ids)@ as int + 1)],
{
    let ghost b = ids@ as int;
    let mut unit = LogicUnit::new();
    let q = unit.add_gate_output(ids, LogicGateMode::Nor, false, SignalName('Q', 0));
    let nq = unit.add_gate(ids, LogicGateMode::Nor, true);
    let h = unit.add_gate(ids, LogicGateMode::And, false);
    proof { first_at(unit@.gates, q, 0); }
    unit.connect(q, nq);
    proof { first_at(unit@.gates, nq, 1); }
    unit.connect(nq, h);
    proof { first_at(unit@.gates, h, 2); }
    unit.connect(h, q);
    unit.io.create_input(SignalName('S', 0), vec![nq]);
    unit.io.create_input(SignalName('R', 0), vec![q]);
    proof {
        assert(unit@.gates =~~= sr_latch_gates(b));
        assert(unit@.inputs =~~= seq![inp(sn('S', 0), seq![at(b, 2)]), inp(sn('R', 0), seq![at(b, 1)])]);
        assert(unit@.outputs =~= seq![outp(sn('Q', 0), b + 1)]);
    }
    unit
}

/// The gates of the 4:1 multiplexer built after id `b`:
/// `or (O), and0, and1, and2, and3, not0, not1`.
pub open spec fn mux_4_1_gates(b: int) -> Seq<GateModel> {
    seq![
        g(b, 1, LogicGateMode::Or, false, seq![]),
        g(b, 2, LogicGateMode::And, false, seq![at(b, 1)]),
        g(b, 3, LogicGateMode::And, false, seq![at(b, 1)]),
        g(b, 4, LogicGateMode::And, false, seq![at(b, 1)]),
        g(b, 5, LogicGateMode::And, false, seq![at(b, 1)]),
        g(b, 6, LogicGateMode::Nand, true, seq![at(b, 2), at(b, 3)]),
        g(b, 7, LogicGateMode::Nand, true, seq![at(b, 2), at(b, 4)]),
    ]
}

/// The inputs of the 4:1 multiplexer built after id `b`.
pub open spec fn mux_4_1_inputs(b: int) -> Seq<InputModel> {
    seq![
        inp(sn('I', 0), seq![at(b, 2)]),
        inp(sn('I', 1), seq![at(b, 3)]),
        inp(sn('I', 2), seq![at(b, 4)]),
        inp(sn('I', 3), seq![at(b, 5)]),
        inp(sn('S', 0), seq![at(b, 7), at(b, 3), at(b, 5)]),
        inp(sn('S', 1), seq![at(b, 6), at(b, 4), at(b, 5)]),
    ]
}

/// A 4:1 multiplexer: inputs `I0..I3`, selects `S0`, `S1`; output `O`.
/// Its gates take the seven ids after `ids`.
pub fn mux_4_1(ids: &mut IdSource) -> (unit: LogicUnit)
    requires
        old(ids)@ + 7 <= u32::MAX,
    ensures
        final(ids)@ == old(ids)@ + 7,
        unit@.gates == mux_4_1_gates(old(ids)@ as int),
        unit@.inputs == mux_4_1_inputs(old(ids)@ as int),
        unit@.outputs == seq![outp(sn('O', 0), old(ids)@ as int + 1)],
{
    let ghost b = ids@ as int;
    let mut unit = LogicUnit::new();
    let or = unit.add_gate_output(ids, LogicGateMode::Or, false, SignalName('O', 0));
    let and0 = unit.add_gate(ids, LogicGateMode::And, false);
    let and1 = unit.add_gate(ids, LogicGateMode::And, false);
    let and2 = unit.add_gate(ids, LogicGateMode::And, false);
    let and3 = unit.add_gate(ids, LogicGateMode::And, false);
    let not0 = unit.add_gate(ids, LogicGateMode::Nand, true);
    let not1 = unit.add_gate(ids, LogicGateMode::Nand, true);
    proof { first_at(unit@.gates, and0, 1); }
    unit.connect(and0, or);
    proof { first_at(unit@.gates, and1, 2); }
    unit.connect(and1, or);
    proof { first_at(unit@.gates, and2, 3); }
    unit.connect(and2, or);
    proof { first_at(unit@.gates, and3, 4); }
    unit.connect(and3, or);
    proof { first_at(unit@.gates, not0, 5); }
    unit.connect(not0, and0);
    proof { first_at(unit@.gates, not0, 5); }
    unit.connect(not0, and1);
    proof { first_at(unit@.gates, not1, 6); }
    unit.connect(not1, and0);
    proof { first_at(unit@.gates, not1, 6); }
    unit.connect(not1, and2);
    unit.io.create_input(SignalName('I', 0), vec![and0]);
    unit.io.create_input(SignalName('I', 1), vec![and1]);
    unit.io.create_input(SignalName('I', 2), vec![and2]);
    unit.io.create_input(SignalName('I', 3), vec![and3]);
    unit.io.create_input(SignalName('S', 0), vec![not1, and1, and3]);
    unit.io.create_input(SignalName('S', 1), vec![not0, and2, and3]);
    proof {
        assert(unit@.gates =~~= mux_4_1_gates(b));
        assert(unit@.inputs =~~= mux_4_1_inputs(b));
        assert(unit@.outputs =~= seq![outp(sn('O', 0), b + 1)]);
    }
    unit
}

// ---------------------------------------------------------------------------
// Registers

/// The gates of the one-bit register built after id `b`:
/// `nand1 (O), nand2, h1, h2, nand3, nand4, not`.
pub open spec fn reg_1b_gates(b: int) -> Seq<GateModel> {
    seq![
        g(b, 1, LogicGateMode::Nand, false, seq![at(b, 4)]),
        g(b, 2, LogicGateMode::Nand, true, seq![at(b, 3)]),
        g(b, 3, LogicGateMode::And, true, seq![at(b, 1)]),
        g(b, 4, LogicGateMode::And, true, seq![at(b, 2)]),
        g(b, 5, LogicGateMode::Nand, true, seq![at(b, 2)]),
        g(b, 6, LogicGateMode::Nand, true, seq![at(b, 1)]),
        g(b, 7, LogicGateMode::Nand, true, seq![at(b, 5)]),
    ]
}

/// The inputs of the one-bit register built after id `b`.
pub open spec fn reg_1b_inputs(b: int) -> Seq<InputModel> {
    seq![inp(sn('I', 0), seq![at(b, 6), at(b, 7)]), inp(sn('W', 0), seq![at(b, 5), at(b, 6)])]
}

/// A one-bit register (gated RS latch): input `I`, write enable `W`, output `O`.
/// Its gates take the seven ids after `ids`.
pub fn reg_1b(ids: &mut IdSource) -> (unit: LogicUnit)
    requires
        old(ids)@ + 7 <= u32::MAX,
    ensures
        final(ids)@ == old(ids)@ + 7,
        unit@.gates == reg_1b_gates(old(ids)@ as int),
        unit@.inputs == reg_1b_inputs(old(ids)@ as int),
        unit@.outputs == seq![outp(sn('O', 0), old(ids)@ as int + 1)],
{
    let ghost b = ids@ as int;
    let mut unit = LogicUnit::new();
    let nand1 = unit.add_gate_output(ids, LogicGateMode::Nand, false, SignalName('O', 0));
    let nand2 = unit.add_gate(ids, LogicGateMode::Nand, true);
    let h1 = unit.add_gate(ids, LogicGateMode::And, true);
    let h2 = unit.add_gate(ids, LogicGateMode::And, true);
    let nand3 = unit.add_gate(ids, LogicGateMode::Nand, true);
    let nand4 = unit.add_gate(ids, LogicGateMode::Nand, true);
    let not = unit.add_gate(ids, LogicGateMode::Nand, true);
    unit.io.create_input(SignalName('I', 0), vec![nand4, not]);
    unit.io.create_input(SignalName('W', 0), vec![nand3, nand4]);
    proof { first_at(unit@.gates, nand4, 5); }
    unit.connect(nand4, nand1);
    proof { first_at(unit@.gates, nand3, 4); }
    unit.connect(nand3, nand2);
    proof { first_at(unit@.gates, not, 6); }
    unit.connect(not, nand3);
    proof { first_at(unit@.gates, nand2, 1); }
    unit.connect(nand2, h1);
    proof { first_at(unit@.gates, h1, 2); }
    unit.connect(h1, nand1);
    proof { first_at(unit@.gates, nand1, 0); }
    unit.connect(nand1, h2);
    proof { first_at(unit@.gates, h2, 3); }
    unit.connect(h2, nand2);
    proof {
        assert(unit@.gates =~~= reg_1b_gates(b));
        assert(unit@.inputs =~~= reg_1b_inputs(b));
        assert(unit@.outputs =~= seq![outp(sn('O', 0), b + 1)]);
    }
    unit
}

// ---------------------------------------------------------------------------
// Binary to BCD

/// The gates of the "add 3 if at least 5" cell built after id `b`:
/// `or1, and1, or2, xor1 (Q0), and2, not, and3, xor2, ha_c, ha_s (Q2), xor3 (Q1), xor4 (Q3)`.
pub open spec fn cond_plus_3_gates(b: int) -> Seq<GateModel> {
    seq![
        g(b, 1, LogicGateMode::Or, false, seq![at(b, 2)]),
        g(b, 2, LogicGateMode::And, false, seq![at(b, 3)]),
        g(b, 3, LogicGateMode::Or, false, seq![at(b, 4), at(b, 8), at(b, 5)]),
        g(b, 4, LogicGateMode::Xor, false, seq![at(b, 5)]),
        g(b, 5, LogicGateMode::And, false, seq![at(b, 11), at(b, 7)]),
        g(b, 6, LogicGateMode::Nand, true, seq![at(b, 7)]),
        g(b, 7, LogicGateMode::And, false, seq![at(b, 8)]),
        g(b, 8, LogicGateMode::Xor, false, seq![at(b, 9), at(b, 10)]),
        g(b, 9, LogicGateMode::And, false, seq![at(b, 12)]),
        g(b, 10, LogicGateMode::Xor, false, seq![]),
        g(b, 11, LogicGateMode::Xor, false, seq![]),
        g(b, 12, LogicGateMode::Xor, false, seq![]),
    ]
}

/// The inputs of the cell built after id `b`.
pub open spec fn cond_plus_3_inputs(b: int) -> Seq<InputModel> {
    seq![
        inp(sn('A', 0), seq![at(b, 1), at(b, 4)]),
        inp(sn('A', 1), seq![at(b, 1), at(b, 6), at(b, 11)]),
        inp(sn('A', 2), seq![at(b, 2), at(b, 9), at(b, 10)]),
        inp(sn('A', 3), seq![at(b, 3), at(b, 12)]),
    ]
}

/// The outputs of the cell built after id `b`.
pub open spec fn cond_plus_3_outputs(b: int) -> Seq<Output> {
    seq![
        outp(sn('Q', 0), b + 4),
        outp(sn('Q', 2), b + 10),
        outp(sn('Q', 1), b + 11),
        outp(sn('Q', 3), b + 12),
    ]
}

/// The double-dabble cell: `Q = A + 3` when `A >= 5`, else `Q = A` (4 bits).
/// Its gates take the twelve ids after `ids`.
#[verifier::rlimit(60)]
fn cond_plus_3(ids: &mut IdSource) -> (unit: LogicUnit)
    requires
        old(ids)@ + 12 <= u32::MAX,
    ensures
        final(ids)@ == old(ids)@ + 12,
        unit@.gates == cond_plus_3_gates(old(ids)@ as int),
        unit@.inputs == cond_plus_3_inputs(old(ids)@ as int),
        unit@.outputs == cond_plus_3_outputs(old(ids)@ as int),
{
    let ghost b = ids@ as int;
    let mut unit = LogicUnit::new();
    let or1 = unit.add_gate(ids, LogicGateMode::Or, false);
    let and1 = unit.add_gate(ids, LogicGateMode::And, false);
    let or2 = unit.add_gate(ids, LogicGateMode::Or, false);
    let xor1 = unit.add_gate_output(ids, LogicGateMode::Xor, false, SignalName('Q', 0));
    let and2 = unit.add_gate(ids, LogicGateMode::And, false);
    let not = unit.add_gate(ids, LogicGateMode::Nand, true);
    let and3 = unit.add_gate(ids, LogicGateMode::And, false);
    let xor2 = unit.add_gate(ids, LogicGateMode::Xor, false);
    let ha_c = unit.add_gate(ids, LogicGateMode::And, false);
    let ha_s = unit.add_gate_output(ids, LogicGateMode::Xor, false, SignalName('Q', 2));
    let xor3 = unit.add_gate_output(ids, LogicGateMode::Xor, false, SignalName('Q', 1));
    let xor4 = unit.add_gate_output(ids, LogicGateMode::Xor, false, SignalName('Q', 3));
    unit.io.create_input(SignalName('A', 0), vec![or1, xor1]);
    unit.io.create_input(SignalName('A', 1), vec![or1, not, xor3]);
    unit.io.create_input(SignalName('A', 2), vec![and1, ha_c, ha_s]);
    unit.io.create_input(SignalName('A', 3), vec![or2, xor4]);
    proof { first_at(unit@.gates, or1, 0); }
    unit.connect(or1, and1);
    proof { first_at(unit@.gates, and1, 1); }
    unit.connect(and1, or2);
    proof { first_at(unit@.gates, or2, 2); }
    unit.connect(or2, xor1);
    proof { first_at(unit@.gates, or2, 2); }
    unit.connect(or2, xor2);
    proof { first_at(unit@.gates, or2, 2); }
    unit.connect(or2, and2);
    proof { first_at(unit@.gates, xor1, 3); }
    unit.connect(xor1, and2);
    proof { first_at(unit@.gates, and2, 4); }
    unit.connect(and2, xor3);
    proof { first_at(unit@.gates, and2, 4); }
    unit.connect(and2, and3);
    proof { first_at(unit@.gates, not, 5); }
    unit.connect(not, and3);
    proof { first_at(unit@.gates, and3, 6); }
    unit.connect(and3, xor2);
    proof { first_at(unit@.gates, xor2, 7); }
    unit.connect(xor2, ha_c);
    proof { first_at(unit@.gates, xor2, 7); }
    unit.connect(xor2, ha_s);
    proof { first_at(unit@.gates, ha_c, 8); }
    unit.connect(ha_c, xor4);
    proof {
        assert(unit@.gates =~~= cond_plus_3_gates(b));
        assert(unit@.inputs =~~= cond_plus_3_inputs(b));
        assert(unit@.outputs =~= cond_plus_3_outputs(b));
    }
    unit
}

// ---------------------------------------------------------------------------
// Multiplexer and decoder of any width

/// Bit `j` of `i` is set.
pub open spec fn bit_of(i: int, j: int) -> bool {
    ((i as usize) >> (j as usize)) & 1 == 1
}

/// The ids `first + i`, for `i` from `0` to `count - 1`, where bit `j` of `i` is `val`, in
/// increasing order.
pub open spec fn select_ids(first: int, j: int, val: bool, count: int) -> Seq<Id>
    decreases count,
{
    if count <= 0 {
        Seq::empty()
    } else {
        let prev = select_ids(first, j, val, count - 1);
        if bit_of(count - 1, j) == val {
            prev.push((first + count - 1) as Id)
        } else {
            prev
        }
    }
}

/// Gate ids are `b + 1, b + 2, ...` in order.
pub open spec fn ids_from(gs: Seq<GateModel>, b: int) -> bool {
    forall|k: int| 0 <= k < gs.len() ==> #[trigger] gs[k].id == b + 1 + k
}

/// With ids `b + 1, b + 2, ...`, gate `b + 1 + k` sits at position `k`.
proof fn first_in_order(gs: Seq<GateModel>, b: int, k: int)
    requires
        ids_from(gs, b),
        0 <= k < gs.len(),
    ensures
        first_gate(gs, (b + 1 + k) as Id) == k,
        has_gate(gs, (b + 1 + k) as Id),
        gs[k].id == (b + 1 + k) as Id,
{
    assert(gs[k].id == b + 1 + k);
    assert forall|j: int| 0 <= j < k implies gs[j].id != (b + 1 + k) as Id by {
        assert(gs[j].id == b + 1 + j);
    }
    lemma_first_gate(gs, (b + 1 + k) as Id, k);
}

/// `2^n` as a `usize`, for the widths the multiplexer and the decoder accept.
proof fn lemma_shift_pow2(n: usize)
    requires
        pow2(n as nat) <= u32::MAX,
    ensures
        n < 32,
        (1usize << n) == pow2(n as nat),
{
    lemma2_to64();
    if n >= 32 {
        lemma_pow2_strictly_increases(32, n as nat);
    }
    lemma_usize_shl_is_mul(1, n);
}

/// The gates of the `2^n : 1` multiplexer built after id `b`: the output `or`, then one
/// `and` per data input, then one inverter per select line.
pub open spec fn mux_2n_1_gates(b: int, n: int) -> Seq<GateModel> {
    let big = pow2(n as nat) as int;
    Seq::new(
        (1 + big + n) as nat,
        |k: int|
            if k == 0 {
                g(b, 1, LogicGateMode::Or, false, seq![])
            } else if k <= big {
                g(b, k + 1, LogicGateMode::And, false, seq![at(b, 1)])
            } else {
                g(b, k + 1, LogicGateMode::Nand, true, select_ids(b + 2, k - 1 - big, false, big))
            },
    )
}

/// The inputs of the `2^n : 1` multiplexer built after id `b`: the selects `S0 .. S(n-1)`,
/// then the data inputs `I0, I1, ...` (the index taken modulo 256).
pub open spec fn mux_2n_1_inputs(b: int, n: int) -> Seq<InputModel> {
    let big = pow2(n as nat) as int;
    Seq::new(
        (n + big) as nat,
        |k: int|
            if k < n {
                inp(sn('S', k as u8), seq![at(b, 2 + big + k)] + select_ids(b + 2, k, true, big))
            } else {
                inp(sn('I', (k - n) as u8), seq![at(b, 2 + k - n)])
            },
    )
}

/// A `2^n : 1` multiplexer: data inputs `I0 .. I(2^n - 1)`, selects `S0 .. S(n-1)`,
/// output `O`. Data input `i` reaches `O` when the selects spell `i` in binary.
/// Its gates take the `1 + 2^n + n` ids after `ids`.
pub fn mux_2n_1(ids: &mut IdSource, n: usize) -> (unit: LogicUnit)
    requires
        old(ids)@ + 1 + pow2(n as nat) + n <= u32::MAX,
    ensures
        final(ids)@ == old(ids)@ + 1 + pow2(n as nat) + n,
        unit@.gates == mux_2n_1_gates(old(ids)@ as int, n as int),
        unit@.inputs == mux_2n_1_inputs(old(ids)@ as int, n as int),
        unit@.outputs == seq![outp(sn('O', 0), old(ids)@ as int + 1)],
{
    let ghost b = ids@ as int;
    proof {
        lemma_shift_pow2(n);
    }
    let mut unit = LogicUnit::new();
    let num_inputs: usize = 1 << n;
    let ghost big = num_inputs as int;
    let ghost expected = mux_2n_1_gates(b, n as int);

    let or = unit.add_gate_output(ids, LogicGateMode::Or, false, SignalName('O', 0));

    let mut and_ids: Vec<Id> = Vec::new();
    let mut i: usize = 0;
    while i < num_inputs
        invariant
            num_inputs == big,
            big == pow2(n as nat),
            expected == mux_2n_1_gates(b, n as int),
            b + 1 + big + n <= u32::MAX,
            i <= big,
            ids@ == b + 1 + i,
            or == b + 1,
            unit@.gates.len() == 1 + i,
            ids_from(unit@.gates, b),
            forall|k: int| 0 <= k < 1 + i ==> #[trigger] unit@.gates[k] =~~= expected[k],
            and_ids@.len() == i,
            forall|k: int| 0 <= k < i ==> #[trigger] and_ids@[k] == b + 2 + k,
            unit@.inputs == Seq::<InputModel>::empty(),
            unit@.outputs == seq![outp(sn('O', 0), b + 1)],
        decreases big - i,
    {
        let and = unit.add_gate(ids, LogicGateMode::And, false);
        and_ids.push(and);
        proof {
            first_in_order(unit@.gates, b, i as int + 1);
        }
        let ghost before = unit@.gates;
        unit.connect(and, or);
        proof {
            assert(ids_from(unit@.gates, b));
            assert(expected.len() == 1 + big + n);
            assert(unit@.gates[i + 1] =~~= expected[i + 1]);
            assert forall|k: int| 0 <= k < 1 + i + 1 implies #[trigger] unit@.gates[k] =~~= expected[k] by {
                if k < i + 1 {
                    assert(unit@.gates[k] == before[k]);
                }
            }
        }
        i += 1;
    }

    let mut not_ids: Vec<Id> = Vec::new();
    let mut j: usize = 0;
    while j < n
        invariant
            num_inputs == big,
            big == pow2(n as nat),
            expected == mux_2n_1_gates(b, n as int),
            b + 1 + big + n <= u32::MAX,
            j <= n,
            ids@ == b + 1 + big + j,
            unit@.gates.len() == 1 + big + j,
            ids_from(unit@.gates, b),
            forall|k: int| 0 <= k < 1 + big ==> #[trigger] unit@.gates[k] =~~= expected[k],
            forall|k: int|
                1 + big <= k < 1 + big + j ==> #[trigger] unit@.gates[k] =~~= g(
                    b,
                    k + 1,
                    LogicGateMode::Nand,
                    true,
                    seq![],
                ),
            and_ids@.len() == big,
            forall|k: int| 0 <= k < big ==> #[trigger] and_ids@[k] == b + 2 + k,
            not_ids@.len() == j,
            forall|k: int| 0 <= k < j ==> #[trigger] not_ids@[k] == b + 2 + big + k,
            unit@.inputs == Seq::<InputModel>::empty(),
            unit@.outputs == seq![outp(sn('O', 0), b + 1)],
        decreases n - j,
    {
        let not = unit.add_gate(ids, LogicGateMode::Nand, true);
        not_ids.push(not);
        j += 1;
    }

    let mut select_connections: Vec<Vec<Id>> = Vec::new();
    let mut j: usize = 0;
    while j < n
        invariant
            j <= n,
            not_ids@.len() == n,
            select_connections@.len() == j,
            forall|k: int| 0 <= k < j ==> (#[trigger] select_connections@[k])@ == seq![not_ids@[k]],
        decreases n - j,
    {
        let mut row: Vec<Id> = Vec::new();
        row.push(not_ids[j]);
        select_connections.push(row);
        j += 1;
    }

    let mut i: usize = 0;
    while i < num_inputs
        invariant
            num_inputs == big,
            big == pow2(n as nat),
            expected == mux_2n_1_gates(b, n as int),
            n < 32,
            b + 1 + big + n <= u32::MAX,
            i <= big,
            ids@ == b + 1 + big + n,
            unit@.gates.len() == 1 + big + n,
            ids_from(unit@.gates, b),
            forall|k: int| 0 <= k < 1 + big ==> #[trigger] unit@.gates[k] =~~= expected[k],
            forall|k: int|
                1 + big <= k < 1 + big + n ==> #[trigger] unit@.gates[k] =~~= g(
                    b,
                    k + 1,
                    LogicGateMode::Nand,
                    true,
                    select_ids(b + 2, k - 1 - big, false, i as int),
                ),
            and_ids@.len() == big,
            forall|k: int| 0 <= k < big ==> #[trigger] and_ids@[k] == b + 2 + k,
            not_ids@.len() == n,
            forall|k: int| 0 <= k < n ==> #[trigger] not_ids@[k] == b + 2 + big + k,
            select_connections@.len() == n,
            forall|k: int|
                0 <= k < n ==> (#[trigger] select_connections@[k])@ == seq![not_ids@[k]]
                    + select_ids(b + 2, k, true, i as int),
            unit@.inputs == Seq::<InputModel>::empty(),
            unit@.outputs == seq![outp(sn('O', 0), b + 1)],
        decreases big - i,
    {
        let and = and_ids[i];
        let mut j: usize = 0;
        while j < n
            invariant
                num_inputs == big,
                big == pow2(n as nat),
                expected == mux_2n_1_gates(b, n as int),
                n < 32,
                b + 1 + big + n <= u32::MAX,
                i < big,
                j <= n,
                and == b + 2 + i,
                ids@ == b + 1 + big + n,
                unit@.gates.len() == 1 + big + n,
                ids_from(unit@.gates, b),
                forall|k: int| 0 <= k < 1 + big ==> #[trigger] unit@.gates[k] =~~= expected[k],
                forall|k: int|
                    1 + big <= k < 1 + big + n ==> #[trigger] unit@.gates[k] =~~= g(
                        b,
                        k + 1,
                        LogicGateMode::Nand,
                        true,
                        select_ids(
                            b + 2,
                            k - 1 - big,
                            false,
                            if k - 1 - big < j {
                                i + 1
                            } else {
                                i as int
                            },
                        ),
                    ),
                and_ids@.len() == big,
                forall|k: int| 0 <= k < big ==> #[trigger] and_ids@[k] == b + 2 + k,
                not_ids@.len() == n,
                forall|k: int| 0 <= k < n ==> #[trigger] not_ids@[k] == b + 2 + big + k,
                select_connections@.len() == n,
                forall|k: int|
                    0 <= k < n ==> (#[trigger] select_connections@[k])@ == seq![not_ids@[k]]
                        + select_ids(
                        b + 2,
                        k,
                        true,
                        if k < j {
                            i + 1
                        } else {
                            i as int
                        },
                    ),
                unit@.inputs == Seq::<InputModel>::empty(),
                unit@.outputs == seq![outp(sn('O', 0), b + 1)],
            decreases n - j,
        {
            if (i >> j) & 1 == 1 {
                let ghost before = select_connections@;
                let mut row = select_connections.remove(j);
                row.push(and);
                select_connections.insert(j, row);
                proof {
                    assert forall|k: int| 0 <= k < n implies (#[trigger] select_connections@[k])@
                        == seq![not_ids@[k]] + select_ids(
                        b + 2,
                        k,
                        true,
                        if k < j + 1 {
                            i + 1
                        } else {
                            i as int
                        },
                    ) by {
                        if k == j {
                            assert(bit_of(i as int, j as int));
                            assert(select_ids(b + 2, k, true, i + 1) == select_ids(b + 2, k, true, i as int).push(and));
                        } else {
                            assert(select_connections@[k] == before[k]);
                        }
                    }
                    assert forall|k: int| 1 + big <= k < 1 + big + n implies #[trigger] unit@.gates[k] =~~= g(
                        b,
                        k + 1,
                        LogicGateMode::Nand,
                        true,
                        select_ids(b + 2, k - 1 - big, false, if k - 1 - big < j + 1 { i + 1 } else { i as int }),
                    ) by {
                        if k - 1 - big == j {
                            assert(!bit_of(i as int, j as int) == false);
                            assert(select_ids(b + 2, j as int, false, i + 1) == select_ids(b + 2, j as int, false, i as int));
                        }
                    }
                }
            } else {
                proof {
                    first_in_order(unit@.gates, b, 1 + big + j);
                }
                let ghost before = unit@.gates;
                unit.connect(not_ids[j], and);
                proof {
                    assert(ids_from(unit@.gates, b));
                    assert forall|k: int| 1 + big <= k < 1 + big + n implies #[trigger] unit@.gates[k] =~~= g(
                        b,
                        k + 1,
                        LogicGateMode::Nand,
                        true,
                        select_ids(b + 2, k - 1 - big, false, if k - 1 - big < j + 1 { i + 1 } else { i as int }),
                    ) by {
                        if k - 1 - big == j {
                            assert(!bit_of(i as int, j as int));
                            assert(select_ids(b + 2, j as int, false, i + 1) == select_ids(b + 2, j as int, false, i as int).push(and));
                        } else {
                            assert(unit@.gates[k] == before[k]);
                        }
                    }
                    assert forall|k: int| 0 <= k < n implies (#[trigger] select_connections@[k])@
                        == seq![not_ids@[k]] + select_ids(
                        b + 2,
                        k,
                        true,
                        if k < j + 1 {
                            i + 1
                        } else {
                            i as int
                        },
                    ) by {
                        if k == j {
                            assert(select_ids(b + 2, k, true, i + 1) == select_ids(b + 2, k, true, i as int));
                        }
                    }
                }
            }
            j += 1;
        }
        i += 1;
    }
    proof {
        assert(unit@.gates =~~= mux_2n_1_gates(b, n as int));
    }
    let ghost gates_done = unit@.gates;

    let mut j: usize = 0;
    while j < n
        invariant
            j <= n,
            n < 32,
            big == pow2(n as nat),
            select_connections@.len() == n,
            not_ids@.len() == n,
            forall|k: int| 0 <= k < n ==> #[trigger] not_ids@[k] == b + 2 + big + k,
            forall|k: int|
                0 <= k < n ==> (#[trigger] select_connections@[k])@ == seq![not_ids@[k]]
                    + select_ids(b + 2, k, true, big),
            unit@.inputs.len() == j,
            forall|k: int| 0 <= k < j ==> #[trigger] unit@.inputs[k] =~~= mux_2n_1_inputs(b, n as int)[k],
            unit@.gates == gates_done,
            unit@.outputs == seq![outp(sn('O', 0), b + 1)],
        decreases n - j,
    {
        let row = select_connections[j].clone();
        unit.io.create_input(SignalName('S', j as u8), row);
        j += 1;
    }

    let mut i: usize = 0;
    while i < num_inputs
        invariant
            i <= big,
            num_inputs == big,
            big == pow2(n as nat),
            expected == mux_2n_1_gates(b, n as int),
            and_ids@.len() == big,
            forall|k: int| 0 <= k < big ==> #[trigger] and_ids@[k] == b + 2 + k,
            unit@.inputs.len() == n + i,
            forall|k: int| 0 <= k < n + i ==> #[trigger] unit@.inputs[k] =~~= mux_2n_1_inputs(b, n as int)[k],
            unit@.gates == gates_done,
            unit@.outputs == seq![outp(sn('O', 0), b + 1)],
        decreases big - i,
    {
        unit.io.create_input(SignalName('I', i as u8), vec![and_ids[i]]);
        i += 1;
    }
    proof {
        assert(unit@.inputs =~~= mux_2n_1_inputs(b, n as int));
    }
    unit
}

/// The gates of the `n`-to-`2^n` decoder built after id `b`: one inverter per select
/// line, then one `and` per output.
pub open spec fn decoder_1_2n_gates(b: int, n: int) -> Seq<GateModel> {
    let big = pow2(n as nat) as int;
    Seq::new(
        (n + big) as nat,
        |k: int|
            if k < n {
                g(b, k + 1, LogicGateMode::Nand, true, select_ids(b + 1 + n, k, false, big))
            } else {
                g(b, k + 1, LogicGateMode::And, false, seq![])
            },
    )
}

/// The inputs of the decoder built after id `b`: the selects `S0 .. S(n-1)`, then the
/// enable input `I`.
pub open spec fn decoder_1_2n_inputs(b: int, n: int) -> Seq<InputModel> {
    let big = pow2(n as nat) as int;
    Seq::new(
        (n + 1) as nat,
        |k: int|
            if k < n {
                inp(sn('S', k as u8), select_ids(b + 1 + n, k, true, big).push(at(b, 1 + k)))
            } else {
                inp(sn('I', 0), Seq::new(big as nat, |i: int| at(b, 1 + n + i)))
            },
    )
}

/// The outputs of the decoder built after id `b`: `O0, O1, ...` (the index taken modulo
/// 256).
pub open spec fn decoder_1_2n_outputs(b: int, n: int) -> Seq<Output> {
    let big = pow2(n as nat) as int;
    Seq::new(big as nat, |i: int| outp(sn('O', i as u8), b + 1 + n + i))
}

/// An `n`-to-`2^n` decoder: selects `S0 .. S(n-1)`, enable `I`, outputs
/// `O0 .. O(2^n - 1)`; output `i` is on when `I` is on and the selects spell `i`.
/// Its gates take the `n + 2^n` ids after `ids`.
pub fn decoder_1_2n(ids: &mut IdSource, n: usize) -> (unit: LogicUnit)
    requires
        old(ids)@ + pow2(n as nat) + n <= u32::MAX,
    ensures
        final(ids)@ == old(ids)@ + pow2(n as nat) + n,
        unit@.gates == decoder_1_2n_gates(old(ids)@ as int, n as int),
        unit@.inputs == decoder_1_2n_inputs(old(ids)@ as int, n as int),
        unit@.outputs == decoder_1_2n_outputs(old(ids)@ as int, n as int),
{
    let ghost b = ids@ as int;
    proof {
        lemma_shift_pow2(n);
    }
    let mut unit = LogicUnit::new();
    let num_outputs: usize = 1 << n;
    let ghost big = num_outputs as int;
    let ghost expected = decoder_1_2n_gates(b, n as int);
    let ghost outs = decoder_1_2n_outputs(b, n as int);

    let mut not_gates: Vec<Id> = Vec::new();
    let mut j: usize = 0;
    while j < n
        invariant
            num_outputs == big,
            big == pow2(n as nat),
            b + big + n <= u32::MAX,
            j <= n,
            ids@ == b + j,
            unit@.gates.len() == j,
            ids_from(unit@.gates, b),
            forall|k: int| 0 <= k < j ==> #[trigger] unit@.gates[k] =~~= g(b, k + 1, LogicGateMode::Nand, true, seq![]),
            not_gates@.len() == j,
            forall|k: int| 0 <= k < j ==> #[trigger] not_gates@[k] == b + 1 + k,
            unit@.inputs == Seq::<InputModel>::empty(),
            unit@.outputs == Seq::<Output>::empty(),
        decreases n - j,
    {
        let not = unit.add_gate(ids, LogicGateMode::Nand, true);
        not_gates.push(not);
        j += 1;
    }

    let mut and_gates: Vec<Id> = Vec::new();
    let mut i: usize = 0;
    while i < num_outputs
        invariant
            num_outputs == big,
            big == pow2(n as nat),
            n < 32,
            outs == decoder_1_2n_outputs(b, n as int),
            b + big + n <= u32::MAX,
            i <= big,
            ids@ == b + n + i,
            unit@.gates.len() == n + i,
            ids_from(unit@.gates, b),
            forall|k: int| 0 <= k < n ==> #[trigger] unit@.gates[k] =~~= g(b, k + 1, LogicGateMode::Nand, true, seq![]),
            forall|k: int| n <= k < n + i ==> #[trigger] unit@.gates[k] =~~= g(b, k + 1, LogicGateMode::And, false, seq![]),
            not_gates@.len() == n,
            forall|k: int| 0 <= k < n ==> #[trigger] not_gates@[k] == b + 1 + k,
            and_gates@.len() == i,
            forall|k: int| 0 <= k < i ==> #[trigger] and_gates@[k] == b + 1 + n + k,
            unit@.inputs == Seq::<InputModel>::empty(),
            unit@.outputs.len() == i,
            forall|k: int| 0 <= k < i ==> #[trigger] unit@.outputs[k] == outs[k],
        decreases big - i,
    {
        let and = unit.add_gate_output(ids, LogicGateMode::And, false, SignalName('O', i as u8));
        and_gates.push(and);
        i += 1;
    }
    proof {
        assert(unit@.outputs =~= outs);
    }

    let mut direct_connections: Vec<Vec<Id>> = Vec::new();
    let mut j: usize = 0;
    while j < n
        invariant
            j <= n,
            direct_connections@.len() == j,
            forall|k: int| 0 <= k < j ==> (#[trigger] direct_connections@[k])@ == Seq::<Id>::empty(),
        decreases n - j,
    {
        direct_connections.push(Vec::new());
        j += 1;
    }

    let mut i: usize = 0;
    while i < num_outputs
        invariant
            num_outputs == big,
            big == pow2(n as nat),
            n < 32,
            b + big + n <= u32::MAX,
            i <= big,
            unit@.gates.len() == n + big,
            ids_from(unit@.gates, b),
            forall|k: int| 0 <= k < n ==> #[trigger] unit@.gates[k] =~~= g(
                b,
                k + 1,
                LogicGateMode::Nand,
                true,
                select_ids(b + 1 + n, k, false, i as int),
            ),
            forall|k: int| n <= k < n + big ==> #[trigger] unit@.gates[k] =~~= g(b, k + 1, LogicGateMode::And, false, seq![]),
            not_gates@.len() == n,
            forall|k: int| 0 <= k < n ==> #[trigger] not_gates@[k] == b + 1 + k,
            and_gates@.len() == big,
            forall|k: int| 0 <= k < big ==> #[trigger] and_gates@[k] == b + 1 + n + k,
            direct_connections@.len() == n,
            forall|k: int| 0 <= k < n ==> (#[trigger] direct_connections@[k])@ == select_ids(b + 1 + n, k, true, i as int),
            unit@.inputs == Seq::<InputModel>::empty(),
            unit@.outputs == outs,
        decreases big - i,
    {
        let and = and_gates[i];
        let mut j: usize = 0;
        while j < n
            invariant
                num_outputs == big,
                big == pow2(n as nat),
                n < 32,
                b + big + n <= u32::MAX,
                i < big,
                j <= n,
                and == b + 1 + n + i,
                unit@.gates.len() == n + big,
                ids_from(unit@.gates, b),
                forall|k: int| 0 <= k < n ==> #[trigger] unit@.gates[k] =~~= g(
                    b,
                    k + 1,
                    LogicGateMode::Nand,
                    true,
                    select_ids(b + 1 + n, k, false, if k < j { i + 1 } else { i as int }),
                ),
                forall|k: int| n <= k < n + big ==> #[trigger] unit@.gates[k] =~~= g(b, k + 1, LogicGateMode::And, false, seq![]),
                not_gates@.len() == n,
                forall|k: int| 0 <= k < n ==> #[trigger] not_gates@[k] == b + 1 + k,
                and_gates@.len() == big,
                forall|k: int| 0 <= k < big ==> #[trigger] and_gates@[k] == b + 1 + n + k,
                direct_connections@.len() == n,
                forall|k: int| 0 <= k < n ==> (#[trigger] direct_connections@[k])@ == select_ids(
                    b + 1 + n,
                    k,
                    true,
                    if k < j { i + 1 } else { i as int },
                ),
                unit@.inputs == Seq::<InputModel>::empty(),
                unit@.outputs == outs,
            decreases n - j,
        {
            if (i >> j) & 1 == 1 {
                let ghost before = direct_connections@;
                let mut row = direct_connections.remove(j);
                row.push(and);
                direct_connections.insert(j, row);
                proof {
                    assert forall|k: int| 0 <= k < n implies (#[trigger] direct_connections@[k])@
                        == select_ids(b + 1 + n, k, true, if k < j + 1 { i + 1 } else { i as int }) by {
                        if k == j {
                            assert(bit_of(i as int, j as int));
                            assert(select_ids(b + 1 + n, k, true, i + 1) == select_ids(b + 1 + n, k, true, i as int).push(and));
                        } else {
                            assert(direct_connections@[k] == before[k]);
                        }
                    }
                    assert forall|k: int| 0 <= k < n implies #[trigger] unit@.gates[k] =~~= g(
                        b,
                        k + 1,
                        LogicGateMode::Nand,
                        true,
                        select_ids(b + 1 + n, k, false, if k < j + 1 { i + 1 } else { i as int }),
                    ) by {
                        if k == j {
                            assert(select_ids(b + 1 + n, k, false, i + 1) == select_ids(b + 1 + n, k, false, i as int));
                        }
                    }
                }
            } else {
                proof {
                    first_in_order(unit@.gates, b, j as int);
                }
                let ghost before = unit@.gates;
                unit.connect(not_gates[j], and);
                proof {
                    assert(ids_from(unit@.gates, b));
                    assert forall|k: int| 0 <= k < n implies #[trigger] unit@.gates[k] =~~= g(
                        b,
                        k + 1,
                        LogicGateMode::Nand,
                        true,
                        select_ids(b + 1 + n, k, false, if k < j + 1 { i + 1 } else { i as int }),
                    ) by {
                        if k == j {
                            assert(!bit_of(i as int, j as int));
                            assert(select_ids(b + 1 + n, k, false, i + 1) == select_ids(b + 1 + n, k, false, i as int).push(and));
                        } else {
                            assert(unit@.gates[k] == before[k]);
                        }
                    }
                    assert forall|k: int| n <= k < n + big implies #[trigger] unit@.gates[k] =~~= g(b, k + 1, LogicGateMode::And, false, seq![]) by {
                        assert(unit@.gates[k] == before[k]);
                    }
                    assert forall|k: int| 0 <= k < n implies (#[trigger] direct_connections@[k])@
                        == select_ids(b + 1 + n, k, true, if k < j + 1 { i + 1 } else { i as int }) by {
                        if k == j {
                            assert(select_ids(b + 1 + n, k, true, i + 1) == select_ids(b + 1 + n, k, true, i as int));
                        }
                    }
                }
            }
            j += 1;
        }
        i += 1;
    }
    proof {
        assert(unit@.gates =~~= decoder_1_2n_gates(b, n as int));
    }
    let ghost gates_done = unit@.gates;
    let ghost expected_inputs = decoder_1_2n_inputs(b, n as int);

    let mut j: usize = 0;
    while j < n
        invariant
            j <= n,
            n < 32,
            big == pow2(n as nat),
            expected_inputs == decoder_1_2n_inputs(b, n as int),
            direct_connections@.len() == n,
            not_gates@.len() == n,
            forall|k: int| 0 <= k < n ==> #[trigger] not_gates@[k] == b + 1 + k,
            forall|k: int| 0 <= k < n ==> (#[trigger] direct_connections@[k])@ == select_ids(b + 1 + n, k, true, big),
            unit@.inputs.len() == j,
            forall|k: int| 0 <= k < j ==> #[trigger] unit@.inputs[k] =~~= expected_inputs[k],
            unit@.gates == gates_done,
            unit@.outputs == outs,
        decreases n - j,
    {
        let mut connections = direct_connections[j].clone();
        connections.push(not_gates[j]);
        unit.io.create_input(SignalName('S', j as u8), connections);
        j += 1;
    }
    let all = and_gates.clone();
    proof {
        assert(all@ =~= Seq::new(big as nat, |i: int| at(b, 1 + n + i)));
    }
    unit.io.create_input(SignalName('I', 0), all);
    proof {
        assert(unit@.inputs =~~= expected_inputs);
    }
    unit
}

// ---------------------------------------------------------------------------
// Eight-bit register

/// The gates of the first `r` one-bit registers built one after the other after id `b`.
pub open spec fn reg_8b_gates(b: int, r: int) -> Seq<GateModel>
    decreases r,
{
    if r <= 0 {
        Seq::empty()
    } else {
        reg_8b_gates(b, r - 1) + reg_1b_gates(b + 7 * (r - 1))
    }
}

/// The write-enable gates of the first `r` one-bit registers built after id `b`.
pub open spec fn reg_8b_write_ids(b: int, r: int) -> Seq<Id>
    decreases r,
{
    if r <= 0 {
        Seq::empty()
    } else {
        reg_8b_write_ids(b, r - 1) + seq![at(b, 7 * (r - 1) + 5), at(b, 7 * (r - 1) + 6)]
    }
}

/// The inputs of the eight-bit register built after id `b`: `W`, then `I0 .. I7`.
pub open spec fn reg_8b_inputs(b: int) -> Seq<InputModel> {
    seq![inp(sn('W', 0), reg_8b_write_ids(b, 8))] + Seq::new(
        8,
        |i: int| inp(sn('I', i as u8), seq![at(b, 7 * i + 6), at(b, 7 * i + 7)]),
    )
}

/// The outputs of the eight-bit register built after id `b`: `O0 .. O7`.
pub open spec fn reg_8b_outputs(b: int) -> Seq<Output> {
    Seq::new(8, |i: int| outp(sn('O', i as u8), b + 7 * i + 1))
}

/// An eight-bit register: eight one-bit registers, inputs `I0 .. I7` and a common write
/// enable `W`, outputs `O0 .. O7`. Its gates take the 56 ids after `ids`.
pub fn reg_8b(ids: &mut IdSource) -> (unit: LogicUnit)
    requires
        old(ids)@ + 56 <= u32::MAX,
    ensures
        final(ids)@ == old(ids)@ + 56,
        unit@.gates == reg_8b_gates(old(ids)@ as int, 8),
        unit@.inputs == reg_8b_inputs(old(ids)@ as int),
        unit@.outputs == reg_8b_outputs(old(ids)@ as int),
{
    let ghost b = ids@ as int;
    let mut unit = LogicUnit::new();
    let mut regs: Vec<IO> = Vec::new();
    let mut r: usize = 0;
    while r < 8
        invariant
            r <= 8,
            b + 56 <= u32::MAX,
            ids@ == b + 7 * r,
            unit@.gates =~~= reg_8b_gates(b, r as int),
            unit@.inputs == Seq::<InputModel>::empty(),
            unit@.outputs == Seq::<Output>::empty(),
            regs@.len() == r,
            forall|j: int|
                0 <= j < r ==> (#[trigger] regs@[j])@.inputs == reg_1b_inputs(b + 7 * j) && regs@[j]@.outputs
                    == seq![outp(sn('O', 0), b + 7 * j + 1)],
        decreases 8 - r,
    {
        let sub = reg_1b(ids);
        let io = unit.embed(sub);
        regs.push(io);
        r += 1;
    }
    let mut w: Vec<Id> = Vec::new();
    let mut r: usize = 0;
    while r < 8
        invariant
            r <= 8,
            regs@.len() == 8,
            forall|j: int|
                0 <= j < 8 ==> (#[trigger] regs@[j])@.inputs == reg_1b_inputs(b + 7 * j) && regs@[j]@.outputs
                    == seq![outp(sn('O', 0), b + 7 * j + 1)],
            w@ == reg_8b_write_ids(b, r as int),
        decreases 8 - r,
    {
        let ghost ins = regs@[r as int]@.inputs;
        proof {
            assert(ins == reg_1b_inputs(b + 7 * r));
            lemma_first_input(ins, SignalName('W', 0), 1);
            assert(has_input(ins, SignalName('W', 0)));
        }
        let wi = regs[r].get_input(SignalName('W', 0));
        let mut t: usize = 0;
        let ghost w0 = w@;
        while t < wi.ids.len()
            invariant
                t <= wi.ids@.len(),
                w@ == w0 + wi.ids@.take(t as int),
            decreases wi.ids@.len() - t,
        {
            w.push(wi.ids[t]);
            proof {
                assert(wi.ids@.take(t as int + 1) =~= wi.ids@.take(t as int).push(wi.ids@[t as int]));
            }
            t += 1;
        }
        proof {
            assert(wi.ids@.take(wi.ids@.len() as int) =~= wi.ids@);
            assert(w@ =~= reg_8b_write_ids(b, r as int + 1));
        }
        r += 1;
    }
    unit.io.create_input(SignalName('W', 0), w);
    let ghost gates_done = unit@.gates;
    let mut i: u8 = 0;
    while i < 8
        invariant
            i <= 8,
            regs@.len() == 8,
            forall|j: int|
                0 <= j < 8 ==> (#[trigger] regs@[j])@.inputs == reg_1b_inputs(b + 7 * j) && regs@[j]@.outputs
                    == seq![outp(sn('O', 0), b + 7 * j + 1)],
            unit@.gates == gates_done,
            unit@.inputs.len() == 1 + i,
            forall|k: int| 0 <= k < 1 + i ==> #[trigger] unit@.inputs[k] =~~= reg_8b_inputs(b)[k],
            unit@.outputs.len() == i,
            forall|k: int| 0 <= k < i ==> #[trigger] unit@.outputs[k] == reg_8b_outputs(b)[k],
        decreases 8 - i,
    {
        let ghost ins = regs@[i as int]@.inputs;
        let ghost outs = regs@[i as int]@.outputs;
        proof {
            assert(ins == reg_1b_inputs(b + 7 * i));
            lemma_first_input(ins, SignalName('I', 0), 0);
            lemma_first_output(outs, SignalName('O', 0), 0);
        }
        let ii = regs[i as usize].get_input(SignalName('I', 0)).ids.clone();
        unit.io.create_input(SignalName('I', i), ii);
        let o = regs[i as usize].get_output(SignalName('O', 0)).id;
        unit.io.create_output(SignalName('O', i), o);
        i += 1;
    }
    proof {
        assert(unit@.inputs =~~= reg_8b_inputs(b));
        assert(unit@.outputs =~= reg_8b_outputs(b));
    }
    unit
}

// ---------------------------------------------------------------------------
// Eight-bit adder and subtractor

/// Gate `t` (0 to 5) of bit `i` of the adder-subtractor built after id `b`, once `bits`
/// bits are built: the full adder's `xor1, and1, and2, xor2 (S), or (C)`, then the
/// inverter `xor` on input `B`. The carry of every bit but the last drives the next one.
pub open spec fn adder_sub_gate(b: int, i: int, t: int, bits: int) -> GateModel {
    let c = b + 6 * i;
    if t == 0 {
        g(c, 1, LogicGateMode::Xor, false, seq![at(c, 4), at(c, 2)])
    } else if t == 1 {
        g(c, 2, LogicGateMode::And, false, seq![at(c, 5)])
    } else if t == 2 {
        g(c, 3, LogicGateMode::And, false, seq![at(c, 5)])
    } else if t == 3 {
        g(c, 4, LogicGateMode::Xor, false, seq![])
    } else if t == 4 {
        g(c, 5, LogicGateMode::Or, false, if i + 1 < bits { seq![at(c, 10), at(c, 8)] } else { seq![] })
    } else {
        g(c, 6, LogicGateMode::Xor, false, seq![at(c, 1), at(c, 3)])
    }
}

/// The gates of the first `bits` bits of the adder-subtractor built after id `b`.
pub open spec fn adder_sub_gates(b: int, bits: int) -> Seq<GateModel> {
    Seq::new((6 * bits) as nat, |k: int| adder_sub_gate(b, k / 6, k % 6, bits))
}

/// Input `k` of the adder-subtractor built after id `b`: `A i` for even `k = 2 i`, which
/// drives the full adder of bit `i`, and `B i` for odd `k = 2 i + 1`, which drives its
/// inverter.
pub open spec fn adder_sub_input(b: int, k: int) -> InputModel {
    let i = k / 2;
    let c = b + 6 * i;
    if k % 2 == 0 {
        inp(sn('A', i as u8), seq![at(c, 1), at(c, 3)])
    } else {
        inp(sn('B', i as u8), seq![at(c, 6)])
    }
}

/// The gates driven by `K` once `bits` bits are built: every inverter, with the carry in
/// of bit 0 right after the first.
pub open spec fn adder_sub_k_ids(b: int, bits: int) -> Seq<Id> {
    seq![at(b, 6), at(b, 4), at(b, 2)] + Seq::new((bits - 1) as nat, |i: int| at(b, 6 * i + 12))
}

/// The inputs of the adder-subtractor built after id `b`: `A0, B0, .. A7, B7`, then `K`.
pub open spec fn adder_sub_inputs(b: int) -> Seq<InputModel> {
    Seq::new(16, |k: int| adder_sub_input(b, k)).push(inp(sn('K', 0), adder_sub_k_ids(b, 8)))
}

/// The outputs of the first `bits` bits of the adder-subtractor built after id `b`:
/// `O i` is the sum of the full adder of bit `i`.
pub open spec fn adder_sub_outputs(b: int, bits: int) -> Seq<Output> {
    Seq::new(bits as nat, |i: int| outp(sn('O', i as u8), b + 6 * i + 4))
}

/// Gate ids of the adder-subtractor run `b + 1, b + 2, ...`.
proof fn lemma_adder_sub_ids(b: int, n: int)
    requires
        0 <= n,
        0 <= b,
        b + 6 * n <= u32::MAX,
    ensures
        ids_from(adder_sub_gates(b, n), b),
{
    let gs = adder_sub_gates(b, n);
    assert forall|k: int| 0 <= k < gs.len() implies #[trigger] gs[k].id == b + 1 + k by {
        let i = k / 6;
        let t = k % 6;
        assert(k == 6 * i + t && 0 <= t < 6);
        assert(gs[k] == adder_sub_gate(b, i, t, n));
    }
}

/// One bit more of the adder-subtractor: a full adder and an inverter after the `n` bits
/// built, the inverter driving input `B` of the full adder and the previous carry driving
/// its carry in.
proof fn lemma_adder_sub_step(b: int, n: int)
    requires
        0 <= n < 8,
        0 <= b,
        b + 48 <= u32::MAX,
    ensures
        ({
            let c = b + 6 * n;
            let g2 = (adder_sub_gates(b, n) + full_adder_gates(c)).push(
                fresh_gate(at(c, 6), LogicGateMode::Xor, false),
            );
            let g3 = connect_all_model(g2, at(c, 6), seq![at(c, 1), at(c, 3)]);
            &&& ids_from(g2, b)
            &&& g2.len() == 6 * n + 6
            &&& ids_from(g3, b)
            &&& g3.len() == 6 * n + 6
            &&& n == 0 ==> g3 =~~= adder_sub_gates(b, 1)
            &&& n > 0 ==> connect_all_model(g3, at(c, -1), seq![at(c, 4), at(c, 2)]) =~~= adder_sub_gates(
                b,
                n + 1,
            )
        }),
{
    let c = b + 6 * n;
    let g0 = adder_sub_gates(b, n);
    let g2 = (g0 + full_adder_gates(c)).push(fresh_gate(at(c, 6), LogicGateMode::Xor, false));
    lemma_adder_sub_ids(b, n);
    assert forall|k: int| 0 <= k < g2.len() implies #[trigger] g2[k].id == b + 1 + k by {
        if k < 6 * n {
            assert(g2[k] == g0[k]);
        } else if k < 6 * n + 5 {
            assert(g2[k] == full_adder_gates(c)[k - 6 * n]);
        }
    }
    first_in_order(g2, b, 6 * n + 5);
    let g3 = connect_all_model(g2, at(c, 6), seq![at(c, 1), at(c, 3)]);
    assert forall|k: int| 0 <= k < g3.len() implies #[trigger] g3[k].id == b + 1 + k by {
        assert(g3[k].id == g2[k].id);
    }
    let target = adder_sub_gates(b, n + 1);
    assert forall|k: int| 0 <= k < 6 * n implies #[trigger] g0[k] == adder_sub_gate(b, k / 6, k % 6, n) by {}
    assert forall|k: int| 6 * n <= k < 6 * n + 6 implies k / 6 == n && #[trigger] (k % 6) == k - 6 * n by {}
    if n == 0 {
        assert forall|k: int| 0 <= k < 6 implies #[trigger] g3[k] =~~= target[k] by {}
        assert(g3 =~~= target);
    } else {
        first_in_order(g3, b, 6 * n - 2);
        let g4 = connect_all_model(g3, at(c, -1), seq![at(c, 4), at(c, 2)]);
        assert forall|k: int| 0 <= k < 6 * n + 6 implies #[trigger] g4[k] =~~= target[k] by {
            if k < 6 * n {
                assert(k == 6 * (k / 6) + k % 6);
                if k != 6 * n - 2 {
                    assert(g4[k] == g0[k]);
                }
            }
        }
        assert(g4 =~~= target);
    }
}

/// An eight-bit adder and subtractor: `O = A + B` while `K` is off and `O = A - B` while
/// `K` is on (`K` inverts `B` and carries one into bit 0). Its gates take the 48 ids
/// after `ids`.
pub fn adder_substractor_8b(ids: &mut IdSource) -> (unit: LogicUnit)
    requires
        old(ids)@ + 48 <= u32::MAX,
    ensures
        final(ids)@ == old(ids)@ + 48,
        unit@.gates == adder_sub_gates(old(ids)@ as int, 8),
        unit@.inputs == adder_sub_inputs(old(ids)@ as int),
        unit@.outputs == adder_sub_outputs(old(ids)@ as int, 8),
{
    let ghost b = ids@ as int;
    let mut unit = LogicUnit::new();
    let mut cout_buf: Option<Id> = None;
    let mut k_ids: Vec<Id> = Vec::new();
    let mut idx: u8 = 0;
    proof {
        assert(unit@.gates =~~= adder_sub_gates(b, 0));
        assert(unit@.inputs =~~= Seq::new(0, |k: int| adder_sub_input(b, k)));
        assert(unit@.outputs =~= adder_sub_outputs(b, 0));
    }
    while idx < 8
        invariant
            idx <= 8,
            0 <= b,
            b + 48 <= u32::MAX,
            ids@ == b + 6 * idx,
            unit@.gates =~~= adder_sub_gates(b, idx as int),
            unit@.inputs =~~= Seq::new((2 * idx) as nat, |k: int| adder_sub_input(b, k)),
            unit@.outputs == adder_sub_outputs(b, idx as int),
            idx == 0 ==> cout_buf is None && k_ids@.len() == 0,
            idx > 0 ==> cout_buf == Some(at(b, 6 * (idx - 1) + 5)) && k_ids@ == adder_sub_k_ids(
                b,
                idx as int,
            ),
        decreases 8 - idx,
    {
        let ghost c = b + 6 * idx;
        let ghost g0 = unit@.gates;
        let ghost in0 = unit@.inputs;
        let fa = full_adder(ids);
        let io = unit.embed(fa);
        proof {
            lemma_first_input(io@.inputs, SignalName('A', 0), 0);
            lemma_first_input(io@.inputs, SignalName('B', 0), 1);
            lemma_first_input(io@.inputs, SignalName('C', 0), 2);
            lemma_first_output(io@.outputs, SignalName('S', 0), 0);
            lemma_first_output(io@.outputs, SignalName('C', 0), 1);
        }
        let cin = io.get_input(SignalName('C', 0));
        let a = io.get_input(SignalName('A', 0));
        let bi = io.get_input(SignalName('B', 0));
        let s = io.get_output(SignalName('S', 0)).id;
        let cout = io.get_output(SignalName('C', 0)).id;
        let xor = unit.add_gate(ids, LogicGateMode::Xor, false);
        proof {
            lemma_adder_sub_step(b, idx as int);
            assert(g0 == adder_sub_gates(b, idx as int));
            first_in_order(unit@.gates, b, 6 * idx + 5);
        }
        unit.connect_to_input(xor, bi);
        let ghost g3 = unit@.gates;
        unit.io.create_input(SignalName('A', idx), a.ids.clone());
        unit.io.create_input(SignalName('B', idx), vec![xor]);
        k_ids.push(xor);
        match cout_buf {
            Some(v) => {
                proof {
                    first_in_order(g3, b, 6 * (idx - 1) + 4);
                }
                unit.connect_to_input(v, cin);
            },
            None => {
                let mut t: usize = 0;
                let ghost k0 = k_ids@;
                while t < cin.ids.len()
                    invariant
                        t <= cin.ids@.len(),
                        k_ids@ == k0 + cin.ids@.take(t as int),
                    decreases cin.ids@.len() - t,
                {
                    k_ids.push(cin.ids[t]);
                    proof {
                        assert(cin.ids@.take(t as int + 1) =~= cin.ids@.take(t as int).push(cin.ids@[t as int]));
                    }
                    t += 1;
                }
                proof {
                    assert(cin.ids@.take(cin.ids@.len() as int) =~= cin.ids@);
                }
            },
        }
        cout_buf = Some(cout);
        unit.io.create_output(SignalName('O', idx), s);
        proof {
            let n = idx as int;
            assert(unit@.gates =~~= adder_sub_gates(b, n + 1));
            assert(unit@.inputs =~~= Seq::new((2 * n + 2) as nat, |k: int| adder_sub_input(b, k))) by {
                assert(in0 =~~= Seq::new((2 * n) as nat, |k: int| adder_sub_input(b, k)));
            }
            assert(unit@.outputs =~= adder_sub_outputs(b, n + 1));
            if n == 0 {
                assert(k_ids@ =~= adder_sub_k_ids(b, 1));
            } else {
                assert(k_ids@ =~= adder_sub_k_ids(b, n + 1));
            }
        }
        idx += 1;
    }
    unit.io.create_input(SignalName('K', 0), k_ids);
    proof {
        assert(unit@.inputs =~~= adder_sub_inputs(b));
    }
    unit
}

// ---------------------------------------------------------------------------
// Eight-bit counter

/// How many increment gates the flip-flop of bit `j` drives once `i` increment gates are
/// wired and, in the pass for gate `i`, the flip-flops of the bits below `m` are done.
pub open spec fn counter_extra(j: int, i: int, m: int) -> int {
    if j < m {
        i - j
    } else if j < i {
        i - j - 1
    } else {
        0
    }
}

/// Gate `k` of the counter built after id `b`: the eight increment gates `and` first, then
/// a one-tick flip-flop `bit (Q), xor, and` per bit. The first `a` increment gates drive
/// the flip input of their bit; the flip-flop of bit `j` drives the increment gates of the
/// bits above it (as many as `counter_extra` says).
pub open spec fn counter_gate(b: int, k: int, a: int, i: int, m: int) -> GateModel {
    if k < 8 {
        g(b, k + 1, LogicGateMode::And, false, if k < a { seq![at(b, 9 + 3 * k)] } else { seq![] })
    } else {
        let j = (k - 8) / 3;
        let t = (k - 8) % 3;
        let c = b + 8 + 3 * j;
        if t == 0 {
            g(
                c,
                1,
                LogicGateMode::Xor,
                false,
                seq![at(c, 1), at(c, 2)] + Seq::new(
                    counter_extra(j, i, m) as nat,
                    |s: int| at(b, j + 2 + s),
                ),
            )
        } else if t == 1 {
            g(c, 2, LogicGateMode::Xor, false, seq![at(c, 3)])
        } else {
            g(c, 3, LogicGateMode::And, false, seq![at(c, 1)])
        }
    }
}

/// The 32 gates of the counter built after id `b`, wired as far as `a`, `i`, `m` say.
pub open spec fn counter_gates_at(b: int, a: int, i: int, m: int) -> Seq<GateModel> {
    Seq::new(32, |k: int| counter_gate(b, k, a, i, m))
}

/// The gates of the counter built after id `b`.
pub open spec fn counter_8b_gates(b: int) -> Seq<GateModel> {
    counter_gates_at(b, 8, 8, 0)
}

/// The inputs of the counter built after id `b` once `m` bits are built: `S`, which drives
/// the clock of every flip-flop, then `D0 ..`.
pub open spec fn counter_inputs_upto(b: int, m: int) -> Seq<InputModel> {
    seq![inp(sn('S', 0), Seq::new(m as nat, |j: int| at(b, 11 + 3 * j)))] + Seq::new(
        m as nat,
        |j: int| inp(sn('D', j as u8), seq![at(b, 10 + 3 * j)]),
    )
}

/// The inputs of the counter built after id `b`: `S, D0 .. D7`, then `I`, which drives the
/// eight increment gates.
pub open spec fn counter_8b_inputs(b: int) -> Seq<InputModel> {
    counter_inputs_upto(b, 8).push(inp(sn('I', 0), Seq::new(8, |k: int| at(b, k + 1))))
}

/// The outputs of the counter built after id `b` once `m` bits are built: `O j` is the
/// flip-flop of bit `j`.
pub open spec fn counter_outputs_upto(b: int, m: int) -> Seq<Output> {
    Seq::new(m as nat, |j: int| outp(sn('O', j as u8), b + 9 + 3 * j))
}

/// Gate ids of the counter run `b + 1, b + 2, ...`.
proof fn lemma_counter_ids(b: int, a: int, i: int, m: int)
    requires
        0 <= b,
        b + 32 <= u32::MAX,
    ensures
        ids_from(counter_gates_at(b, a, i, m), b),
{
    let gs = counter_gates_at(b, a, i, m);
    assert forall|k: int| 0 <= k < gs.len() implies #[trigger] gs[k].id == b + 1 + k by {
        if k >= 8 {
            let j = (k - 8) / 3;
            let t = (k - 8) % 3;
            assert(k - 8 == 3 * j + t && 0 <= t < 3);
        }
    }
}

/// The flip-flop of bit `m` is built after the first `m` ones.
proof fn lemma_counter_embed(b: int, m: int)
    requires
        0 <= m < 8,
    ensures
        counter_gates_at(b, 0, 0, 0).take(8 + 3 * m) + dff_1tick_gates(b + 8 + 3 * m)
            =~~= counter_gates_at(b, 0, 0, 0).take(8 + 3 * m + 3),
{
    let gs = counter_gates_at(b, 0, 0, 0);
    let c = b + 8 + 3 * m;
    assert forall|k: int| 8 + 3 * m <= k < 8 + 3 * m + 3 implies (k - 8) / 3 == m && #[trigger] ((k - 8) % 3) == k - 8 - 3 * m by {}
    assert(gs[8 + 3 * m].children =~= seq![at(c, 1), at(c, 2)]);
}

/// Increment gate `i` drives the flip input of bit `i`.
proof fn lemma_counter_wire_and(b: int, i: int)
    requires
        0 <= i < 8,
        0 <= b,
        b + 32 <= u32::MAX,
    ensures
        has_gate(counter_gates_at(b, i, i, 0), at(b, i + 1)),
        connect_all_model(counter_gates_at(b, i, i, 0), at(b, i + 1), seq![at(b, 9 + 3 * i)])
            =~~= counter_gates_at(b, i + 1, i, 0),
{
    let gs = counter_gates_at(b, i, i, 0);
    lemma_counter_ids(b, i, i, 0);
    first_in_order(gs, b, i);
    let r = connect_all_model(gs, at(b, i + 1), seq![at(b, 9 + 3 * i)]);
    let t = counter_gates_at(b, i + 1, i, 0);
    assert forall|k: int| 0 <= k < 32 implies #[trigger] r[k] =~~= t[k] by {
        if k == i {
            assert(r[k].children =~= seq![at(b, 9 + 3 * i)]);
        }
    }
}

/// The flip-flop of bit `m` drives increment gate `i`.
proof fn lemma_counter_wire_bit(b: int, i: int, m: int)
    requires
        0 <= m < i < 8,
        0 <= b,
        b + 32 <= u32::MAX,
    ensures
        has_gate(counter_gates_at(b, i + 1, i, m), at(b, 9 + 3 * m)),
        connect_model(counter_gates_at(b, i + 1, i, m), at(b, 9 + 3 * m), at(b, i + 1))
            =~~= counter_gates_at(b, i + 1, i, m + 1),
{
    let gs = counter_gates_at(b, i + 1, i, m);
    lemma_counter_ids(b, i + 1, i, m);
    first_in_order(gs, b, 8 + 3 * m);
    let r = connect_model(gs, at(b, 9 + 3 * m), at(b, i + 1));
    let t = counter_gates_at(b, i + 1, i, m + 1);
    assert((8 + 3 * m - 8) / 3 == m && (8 + 3 * m - 8) % 3 == 0);
    assert forall|k: int| 0 <= k < 32 implies #[trigger] r[k] =~~= t[k] by {
        if k >= 8 {
            let j = (k - 8) / 3;
            let u = (k - 8) % 3;
            assert(k - 8 == 3 * j + u && 0 <= u < 3);
            if k == 8 + 3 * m {
                let c = b + 8 + 3 * m;
                assert(r[k].children =~= seq![at(c, 1), at(c, 2)] + Seq::new(
                    (i - m) as nat,
                    |s: int| at(b, m + 2 + s),
                ));
            }
        }
    }
}

/// An eight-bit counter. `I` (one tick) adds one; `S` (one tick) loads `D0 .. D7`;
/// outputs `O0 .. O7`. Its gates take the 32 ids after `ids`.
pub fn counter_8b(ids: &mut IdSource) -> (unit: LogicUnit)
    requires
        old(ids)@ + 32 <= u32::MAX,
    ensures
        final(ids)@ == old(ids)@ + 32,
        unit@.gates == counter_8b_gates(old(ids)@ as int),
        unit@.inputs == counter_8b_inputs(old(ids)@ as int),
        unit@.outputs == counter_outputs_upto(old(ids)@ as int, 8),
{
    let ghost b = ids@ as int;
    let ghost base = counter_gates_at(b, 0, 0, 0);
    let mut unit = LogicUnit::new();
    let mut ands: Vec<Id> = Vec::new();
    let mut k: usize = 0;
    while k < 8
        invariant
            k <= 8,
            0 <= b,
            b + 32 <= u32::MAX,
            ids@ == b + k,
            base == counter_gates_at(b, 0, 0, 0),
            unit@.gates =~~= base.take(k as int),
            unit@.inputs == Seq::<InputModel>::empty(),
            unit@.outputs == Seq::<Output>::empty(),
            ands@ =~= Seq::new(k as nat, |j: int| at(b, j + 1)),
        decreases 8 - k,
    {
        let and = unit.add_gate(ids, LogicGateMode::And, false);
        ands.push(and);
        k += 1;
    }
    unit.io.create_input(SignalName('S', 0), vec![]);
    let mut bits: Vec<IO> = Vec::new();
    let mut m: u8 = 0;
    proof {
        assert(unit@.inputs =~~= counter_inputs_upto(b, 0));
        assert(unit@.outputs =~= counter_outputs_upto(b, 0));
    }
    while m < 8
        invariant
            m <= 8,
            0 <= b,
            b + 32 <= u32::MAX,
            ids@ == b + 8 + 3 * m,
            base == counter_gates_at(b, 0, 0, 0),
            unit@.gates =~~= base.take(8 + 3 * m),
            unit@.inputs =~~= counter_inputs_upto(b, m as int),
            unit@.outputs == counter_outputs_upto(b, m as int),
            bits@.len() == m,
            forall|j: int|
                0 <= j < m ==> (#[trigger] bits@[j])@.inputs == dff_1tick_inputs(b + 8 + 3 * j)
                    && bits@[j]@.outputs == seq![outp(sn('Q', 0), b + 9 + 3 * j)],
        decreases 8 - m,
    {
        let ghost before = unit@.inputs;
        let sub = dff_1tick(ids);
        let io = unit.embed(sub);
        proof {
            lemma_counter_embed(b, m as int);
            lemma_first_input(io@.inputs, SignalName('D', 0), 0);
            lemma_first_input(io@.inputs, SignalName('C', 0), 1);
            lemma_first_output(io@.outputs, SignalName('Q', 0), 0);
            lemma_first_input(unit@.inputs, SignalName('S', 0), 0);
            assert(unit@.inputs[0].name == SignalName('S', 0));
            assert(has_input(unit.io@.inputs, SignalName('S', 0)));
            assert(io@.outputs[0].name == SignalName('Q', 0));
            assert(has_output(io@.outputs, SignalName('Q', 0)));
        }
        unit.io.add_inputs(SignalName('S', 0), &io.get_input(SignalName('C', 0)).ids);
        unit.io.create_input(SignalName('D', m), io.get_input(SignalName('D', 0)).ids.clone());
        unit.io.create_output(SignalName('O', m), io.get_output(SignalName('Q', 0)).id);
        bits.push(io);
        proof {
            assert(unit@.inputs =~~= counter_inputs_upto(b, m + 1)) by {
                assert(before[0].ids =~= Seq::new(m as nat, |j: int| at(b, 11 + 3 * j)));
            }
            assert(unit@.outputs =~= counter_outputs_upto(b, m + 1));
        }
        m += 1;
    }
    unit.io.create_input(SignalName('I', 0), ands.clone());
    let ghost inputs_done = unit@.inputs;
    let ghost outputs_done = unit@.outputs;
    proof {
        assert(base.take(32) =~= base);
        assert(unit@.gates =~~= counter_gates_at(b, 0, 0, 0));
        assert(inputs_done =~~= counter_8b_inputs(b));
    }
    let mut buf: Vec<Id> = Vec::new();
    let mut i: usize = 0;
    while i < 8
        invariant
            i <= 8,
            0 <= b,
            b + 32 <= u32::MAX,
            unit@.gates =~~= counter_gates_at(b, i as int, i as int, 0),
            unit@.inputs == inputs_done,
            unit@.outputs == outputs_done,
            ands@ =~= Seq::new(8, |j: int| at(b, j + 1)),
            bits@.len() == 8,
            forall|j: int|
                0 <= j < 8 ==> (#[trigger] bits@[j])@.inputs == dff_1tick_inputs(b + 8 + 3 * j)
                    && bits@[j]@.outputs == seq![outp(sn('Q', 0), b + 9 + 3 * j)],
            buf@ =~= Seq::new(i as nat, |j: int| at(b, 9 + 3 * j)),
        decreases 8 - i,
    {
        let ghost ins = bits@[i as int]@.inputs;
        let ghost outs = bits@[i as int]@.outputs;
        proof {
            lemma_first_input(ins, SignalName('F', 0), 2);
            lemma_first_output(outs, SignalName('Q', 0), 0);
            lemma_counter_wire_and(b, i as int);
        }
        unit.connect_to_input(ands[i], bits[i].get_input(SignalName('F', 0)));
        let mut m: usize = 0;
        while m < buf.len()
            invariant
                m <= buf@.len(),
                i < 8,
                0 <= b,
                b + 32 <= u32::MAX,
                buf@ =~= Seq::new(i as nat, |j: int| at(b, 9 + 3 * j)),
                ands@ =~= Seq::new(8, |j: int| at(b, j + 1)),
                unit@.gates =~~= counter_gates_at(b, i as int + 1, i as int, m as int),
                unit@.inputs == inputs_done,
                unit@.outputs == outputs_done,
            decreases buf@.len() - m,
        {
            proof {
                lemma_counter_wire_bit(b, i as int, m as int);
            }
            unit.connect(buf[m], ands[i]);
            m += 1;
        }
        proof {
            assert(counter_gates_at(b, i as int + 1, i as int, i as int) =~~= counter_gates_at(
                b,
                i as int + 1,
                i as int + 1,
                0,
            ));
        }
        proof {
            assert(outs[0].name == SignalName('Q', 0));
            assert(has_output(outs, SignalName('Q', 0)));
        }
        buf.push(bits[i].get_output(SignalName('Q', 0)).id);
        i += 1;
    }
    unit
}

// ---------------------------------------------------------------------------
// Eight-bit binary to BCD

/// Which gate of a double-dabble cell carries output `Q qn`.
pub open spec fn q_role(qn: int) -> int {
    if qn == 0 {
        3
    } else if qn == 1 {
        10
    } else if qn == 2 {
        9
    } else {
        11
    }
}

/// The position of output `Q qn` among the outputs of a double-dabble cell.
pub open spec fn q_slot(qn: int) -> int {
    if qn == 0 {
        0
    } else if qn == 1 {
        2
    } else if qn == 2 {
        1
    } else {
        3
    }
}

/// Connection `n` of the converter, in the order they are made: output `Q qn` of cell `p`
/// drives input `A an` of cell `t`, as `(p, qn, t, an)`.
pub open spec fn bcd_conn(n: int) -> (int, int, int, int) {
    if n < 12 {
        (n / 3, n % 3, n / 3 + 1, n % 3 + 1)
    } else if n == 12 {
        (0, 3, 5, 2)
    } else if n == 13 {
        (1, 3, 5, 1)
    } else if n == 14 {
        (2, 3, 5, 0)
    } else if n == 15 {
        (3, 3, 6, 0)
    } else if n == 16 {
        (5, 2, 6, 3)
    } else if n == 17 {
        (5, 1, 6, 2)
    } else {
        (5, 0, 6, 1)
    }
}

/// The connection that starts at gate `r` of cell `p`, or `-1` if none does.
pub open spec fn bcd_src_index(p: int, r: int) -> int {
    if 0 <= p < 4 && r == 3 {
        3 * p
    } else if 0 <= p < 4 && r == 10 {
        3 * p + 1
    } else if 0 <= p < 4 && r == 9 {
        3 * p + 2
    } else if 0 <= p < 4 && r == 11 {
        12 + p
    } else if p == 5 && r == 9 {
        16
    } else if p == 5 && r == 10 {
        17
    } else if p == 5 && r == 3 {
        18
    } else {
        -1
    }
}

/// The gates that gate `r` of cell `p` drives besides its own, once `n` connections are
/// made.
pub open spec fn bcd_extra(b: int, p: int, r: int, n: int) -> Seq<Id> {
    let m = bcd_src_index(p, r);
    if 0 <= m < n {
        let (_, _, t, an) = bcd_conn(m);
        cond_plus_3_inputs(b + 12 * t)[an].ids
    } else {
        Seq::empty()
    }
}

/// Gate `k` of the converter built after id `b` once `n` connections are made: the gates
/// of seven double-dabble cells, then the `and` that passes bit 0 through.
pub open spec fn bcd_gate(b: int, k: int, n: int) -> GateModel {
    if k < 84 {
        let p = k / 12;
        let r = k % 12;
        let base = cond_plus_3_gates(b + 12 * p)[r];
        GateModel { children: base.children + bcd_extra(b, p, r, n), ..base }
    } else {
        g(b, 85, LogicGateMode::And, false, seq![])
    }
}

/// The gates of the converter built after id `b` once `n` connections are made.
pub open spec fn bcd_gates_after(b: int, n: int) -> Seq<GateModel> {
    Seq::new(85, |k: int| bcd_gate(b, k, n))
}

/// The gates of the converter built after id `b`.
pub open spec fn bin2bcd8b_gates(b: int) -> Seq<GateModel> {
    bcd_gates_after(b, 19)
}

/// The gates that input `A an` of cell `p` drives.
pub open spec fn cell_in(b: int, p: int, an: int) -> Seq<Id> {
    cond_plus_3_inputs(b + 12 * p)[an].ids
}

/// The id carrying output `Q qn` of cell `p`.
pub open spec fn cell_out(b: int, p: int, qn: int) -> int {
    b + 12 * p + q_role(qn) + 1
}

/// The inputs of the converter built after id `b`: `I0 .. I7`, least significant first.
pub open spec fn bin2bcd8b_inputs(b: int) -> Seq<InputModel> {
    seq![
        inp(sn('I', 0), seq![at(b, 85)]),
        inp(sn('I', 1), cell_in(b, 4, 0)),
        inp(sn('I', 2), cell_in(b, 3, 0)),
        inp(sn('I', 3), cell_in(b, 2, 0)),
        inp(sn('I', 4), cell_in(b, 1, 0)),
        inp(sn('I', 5), cell_in(b, 0, 0)),
        inp(sn('I', 6), cell_in(b, 0, 1)),
        inp(sn('I', 7), cell_in(b, 0, 2)),
    ]
}

/// The outputs of the converter built after id `b`: ones `O0 .. O3`, tens `T0 .. T3`,
/// hundreds `H0, H1`.
pub open spec fn bin2bcd8b_outputs(b: int) -> Seq<Output> {
    seq![
        outp(sn('O', 0), b + 85),
        outp(sn('O', 1), cell_out(b, 4, 0)),
        outp(sn('O', 2), cell_out(b, 4, 1)),
        outp(sn('O', 3), cell_out(b, 4, 2)),
        outp(sn('T', 0), cell_out(b, 4, 3)),
        outp(sn('T', 1), cell_out(b, 6, 0)),
        outp(sn('T', 2), cell_out(b, 6, 1)),
        outp(sn('T', 3), cell_out(b, 6, 2)),
        outp(sn('H', 0), cell_out(b, 6, 3)),
        outp(sn('H', 1), cell_out(b, 5, 3)),
    ]
}

/// Gate ids of the converter run `b + 1, b + 2, ...`.
proof fn lemma_bcd_ids(b: int, n: int)
    requires
        0 <= b,
        b + 85 <= u32::MAX,
    ensures
        ids_from(bcd_gates_after(b, n), b),
{
    let gs = bcd_gates_after(b, n);
    assert forall|k: int| 0 <= k < gs.len() implies #[trigger] gs[k].id == b + 1 + k by {
        if k < 84 {
            let p = k / 12;
            let r = k % 12;
            assert(k == 12 * p + r && 0 <= r < 12);
            assert(cond_plus_3_gates(b + 12 * p)[r].id == b + 12 * p + r + 1);
        }
    }
}

/// Cell `p` comes after the first `p`.
proof fn lemma_bcd_embed(b: int, p: int)
    requires
        0 <= p < 7,
    ensures
        bcd_gates_after(b, 0).take(12 * p) + cond_plus_3_gates(b + 12 * p) =~~= bcd_gates_after(
            b,
            0,
        ).take(12 * p + 12),
{
    let gs = bcd_gates_after(b, 0);
    assert forall|k: int| 12 * p <= k < 12 * p + 12 implies k / 12 == p && #[trigger] (k % 12) == k - 12 * p by {}
    assert forall|k: int| 12 * p <= k < 12 * p + 12 implies #[trigger] gs[k] =~~= cond_plus_3_gates(b + 12 * p)[k - 12 * p] by {
        assert(bcd_extra(b, p, k - 12 * p, 0) =~= Seq::<Id>::empty());
    }
}

/// Connection `n` turns the gates after `n` connections into those after `n + 1`.
proof fn lemma_bcd_step(b: int, n: int)
    requires
        0 <= n < 19,
        0 <= b,
        b + 85 <= u32::MAX,
    ensures
        ({
            let (p, qn, t, an) = bcd_conn(n);
            &&& 0 <= p < 7 && 0 <= qn < 4 && 0 <= t < 7 && 0 <= an < 4
            &&& has_gate(bcd_gates_after(b, n), cell_out(b, p, qn) as Id)
            &&& connect_all_model(bcd_gates_after(b, n), cell_out(b, p, qn) as Id, cell_in(b, t, an))
                =~~= bcd_gates_after(b, n + 1)
        }),
{
    let (p, qn, t, an) = bcd_conn(n);
    let gs = bcd_gates_after(b, n);
    let src = 12 * p + q_role(qn);
    lemma_bcd_ids(b, n);
    first_in_order(gs, b, src);
    assert(src / 12 == p && src % 12 == q_role(qn));
    assert(bcd_src_index(p, q_role(qn)) == n);
    let r = connect_all_model(gs, cell_out(b, p, qn) as Id, cell_in(b, t, an));
    let target = bcd_gates_after(b, n + 1);
    assert forall|k: int| 0 <= k < 85 implies #[trigger] r[k] =~~= target[k] by {
        if k < 84 {
            let kp = k / 12;
            let kr = k % 12;
            assert(k == 12 * kp + kr && 0 <= kr < 12);
            if k != src {
                assert(bcd_src_index(kp, kr) != n);
                assert(bcd_extra(b, kp, kr, n) =~= bcd_extra(b, kp, kr, n + 1));
            } else {
                assert(bcd_extra(b, p, q_role(qn), n) =~= Seq::<Id>::empty());
            }
        }
    }
}

/// Makes connection `n`: output `Q qn` of cell `p` drives input `A an` of cell `t`.
fn bcd_wire(
    unit: &mut LogicUnit,
    cells: &Vec<IO>,
    p: usize,
    qn: u8,
    t: usize,
    an: u8,
    Ghost(b): Ghost<int>,
    Ghost(n): Ghost<int>,
)
    requires
        0 <= n < 19,
        bcd_conn(n) == (p as int, qn as int, t as int, an as int),
        0 <= b,
        b + 85 <= u32::MAX,
        cells@.len() == 7,
        forall|j: int|
            0 <= j < 7 ==> (#[trigger] cells@[j])@.inputs == cond_plus_3_inputs(b + 12 * j)
                && cells@[j]@.outputs == cond_plus_3_outputs(b + 12 * j),
        old(unit)@.gates =~~= bcd_gates_after(b, n),
    ensures
        final(unit)@.gates =~~= bcd_gates_after(b, n + 1),
        final(unit)@.inputs == old(unit)@.inputs,
        final(unit)@.outputs == old(unit)@.outputs,
{
    proof {
        lemma_bcd_step(b, n);
        let outs = cells@[p as int]@.outputs;
        let ins = cells@[t as int]@.inputs;
        lemma_first_output(outs, SignalName('Q', qn), q_slot(qn as int));
        lemma_first_input(ins, SignalName('A', an), an as int);
        assert(outs[q_slot(qn as int)].name == SignalName('Q', qn));
        assert(has_output(outs, SignalName('Q', qn)));
        assert(ins[an as int].name == SignalName('A', an));
        assert(has_input(ins, SignalName('A', an)));
    }
    let from = cells[p].get_output(SignalName('Q', qn)).id;
    unit.connect_to_input(from, cells[t].get_input(SignalName('A', an)));
}

/// Declares the inputs of the converter.
fn bcd_inputs(unit: &mut LogicUnit, pluses: &Vec<IO>, o0: Id, Ghost(b): Ghost<int>)
    requires
        o0 == b + 85,
        old(unit)@.inputs == Seq::<InputModel>::empty(),
        pluses@.len() == 7,
        forall|j: int|
            0 <= j < 7 ==> (#[trigger] pluses@[j])@.inputs == cond_plus_3_inputs(b + 12 * j)
                && pluses@[j]@.outputs == cond_plus_3_outputs(b + 12 * j),
    ensures
        final(unit)@.inputs =~~= bin2bcd8b_inputs(b),
        final(unit)@.outputs == old(unit)@.outputs,
        final(unit)@.gates == old(unit)@.gates,
{
    unit.io.create_input(SignalName('I', 0), vec![o0]);
    proof {
        assert forall|j: int| 0 <= j < 7 implies has_input(#[trigger] pluses@[j]@.inputs, SignalName('A', 0))
            && has_input(pluses@[j]@.inputs, SignalName('A', 1)) && has_input(
            pluses@[j]@.inputs,
            SignalName('A', 2),
        ) && first_input(pluses@[j]@.inputs, SignalName('A', 0)) == 0 && first_input(
            pluses@[j]@.inputs,
            SignalName('A', 1),
        ) == 1 && first_input(pluses@[j]@.inputs, SignalName('A', 2)) == 2 by {
            let ins = pluses@[j]@.inputs;
            lemma_first_input(ins, SignalName('A', 0), 0);
            lemma_first_input(ins, SignalName('A', 1), 1);
            lemma_first_input(ins, SignalName('A', 2), 2);
            assert(ins[0].name == SignalName('A', 0));
            assert(ins[1].name == SignalName('A', 1));
            assert(ins[2].name == SignalName('A', 2));
        }
    }
    unit.io.create_input(SignalName('I', 1), pluses[4].get_input(SignalName('A', 0)).ids.clone());
    unit.io.create_input(SignalName('I', 2), pluses[3].get_input(SignalName('A', 0)).ids.clone());
    unit.io.create_input(SignalName('I', 3), pluses[2].get_input(SignalName('A', 0)).ids.clone());
    unit.io.create_input(SignalName('I', 4), pluses[1].get_input(SignalName('A', 0)).ids.clone());
    unit.io.create_input(SignalName('I', 5), pluses[0].get_input(SignalName('A', 0)).ids.clone());
    unit.io.create_input(SignalName('I', 6), pluses[0].get_input(SignalName('A', 1)).ids.clone());
    unit.io.create_input(SignalName('I', 7), pluses[0].get_input(SignalName('A', 2)).ids.clone());
}

/// Output `Q qn` of the cell built after id `c` is its gate `q_role(qn)`.
proof fn lemma_cell_out(outs: Seq<Output>, c: int, qn: u8)
    requires
        outs == cond_plus_3_outputs(c),
        qn < 4,
        0 <= c,
        c + 12 <= u32::MAX,
    ensures
        has_output(outs, SignalName('Q', qn)),
        outs[first_output(outs, SignalName('Q', qn))].id == c + q_role(qn as int) + 1,
{
    lemma_first_output(outs, SignalName('Q', qn), q_slot(qn as int));
    assert(outs[q_slot(qn as int)].name == SignalName('Q', qn));
}

/// Declares the outputs of the converter after `O0`.
fn bcd_outputs(unit: &mut LogicUnit, pluses: &Vec<IO>, Ghost(b): Ghost<int>)
    requires
        0 <= b,
        b + 85 <= u32::MAX,
        old(unit)@.outputs == seq![outp(sn('O', 0), b + 85)],
        pluses@.len() == 7,
        forall|j: int|
            0 <= j < 7 ==> (#[trigger] pluses@[j])@.inputs == cond_plus_3_inputs(b + 12 * j)
                && pluses@[j]@.outputs == cond_plus_3_outputs(b + 12 * j),
    ensures
        final(unit)@.outputs =~= bin2bcd8b_outputs(b),
        final(unit)@.inputs == old(unit)@.inputs,
        final(unit)@.gates == old(unit)@.gates,
{
    proof {
        lemma_cell_out(pluses@[4]@.outputs, b + 48, 0);
        lemma_cell_out(pluses@[4]@.outputs, b + 48, 1);
        lemma_cell_out(pluses@[4]@.outputs, b + 48, 2);
        lemma_cell_out(pluses@[4]@.outputs, b + 48, 3);
        lemma_cell_out(pluses@[6]@.outputs, b + 72, 0);
        lemma_cell_out(pluses@[6]@.outputs, b + 72, 1);
        lemma_cell_out(pluses@[6]@.outputs, b + 72, 2);
        lemma_cell_out(pluses@[6]@.outputs, b + 72, 3);
        lemma_cell_out(pluses@[5]@.outputs, b + 60, 3);
    }
    let ghost before = unit@.outputs;
    let o1 = pluses[4].get_output(SignalName('Q', 0)).id;
    let o2 = pluses[4].get_output(SignalName('Q', 1)).id;
    let o3 = pluses[4].get_output(SignalName('Q', 2)).id;
    let t0 = pluses[4].get_output(SignalName('Q', 3)).id;
    let t1 = pluses[6].get_output(SignalName('Q', 0)).id;
    let t2 = pluses[6].get_output(SignalName('Q', 1)).id;
    let t3 = pluses[6].get_output(SignalName('Q', 2)).id;
    let h0 = pluses[6].get_output(SignalName('Q', 3)).id;
    let h1 = pluses[5].get_output(SignalName('Q', 3)).id;
    assert(o1 == cell_out(b, 4, 0) && o2 == cell_out(b, 4, 1) && o3 == cell_out(b, 4, 2));
    assert(t0 == cell_out(b, 4, 3) && t1 == cell_out(b, 6, 0) && t2 == cell_out(b, 6, 1));
    assert(t3 == cell_out(b, 6, 2) && h0 == cell_out(b, 6, 3) && h1 == cell_out(b, 5, 3));
    unit.io.create_output(SignalName('O', 1), o1);
    unit.io.create_output(SignalName('O', 2), o2);
    unit.io.create_output(SignalName('O', 3), o3);
    unit.io.create_output(SignalName('T', 0), t0);
    unit.io.create_output(SignalName('T', 1), t1);
    unit.io.create_output(SignalName('T', 2), t2);
    unit.io.create_output(SignalName('T', 3), t3);
    unit.io.create_output(SignalName('H', 0), h0);
    unit.io.create_output(SignalName('H', 1), h1);
}

/// An eight-bit binary to BCD converter (double dabble): inputs `I0 .. I7`; outputs ones
/// `O0 .. O3`, tens `T0 .. T3`, hundreds `H0, H1`. Its gates take the 85 ids after `ids`.
pub fn bin2bcd8b(ids: &mut IdSource) -> (unit: LogicUnit)
    requires
        old(ids)@ + 85 <= u32::MAX,
    ensures
        final(ids)@ == old(ids)@ + 85,
        unit@.gates == bin2bcd8b_gates(old(ids)@ as int),
        unit@.inputs == bin2bcd8b_inputs(old(ids)@ as int),
        unit@.outputs == bin2bcd8b_outputs(old(ids)@ as int),
{
    let ghost b = ids@ as int;
    let ghost base = bcd_gates_after(b, 0);
    let mut unit = LogicUnit::new();
    let mut pluses: Vec<IO> = Vec::new();
    let mut p: usize = 0;
    while p < 7
        invariant
            p <= 7,
            0 <= b,
            b + 85 <= u32::MAX,
            ids@ == b + 12 * p,
            base == bcd_gates_after(b, 0),
            unit@.gates =~~= base.take(12 * p),
            unit@.inputs == Seq::<InputModel>::empty(),
            unit@.outputs == Seq::<Output>::empty(),
            pluses@.len() == p,
            forall|j: int|
                0 <= j < p ==> (#[trigger] pluses@[j])@.inputs == cond_plus_3_inputs(b + 12 * j)
                    && pluses@[j]@.outputs == cond_plus_3_outputs(b + 12 * j),
        decreases 7 - p,
    {
        let sub = cond_plus_3(ids);
        let io = unit.embed(sub);
        proof {
            lemma_bcd_embed(b, p as int);
        }
        pluses.push(io);
        p += 1;
    }
    let o0 = unit.add_gate_output(ids, LogicGateMode::And, false, SignalName('O', 0));
    proof {
        assert(unit@.gates =~~= bcd_gates_after(b, 0));
    }
    bcd_inputs(&mut unit, &pluses, o0, Ghost(b));
    let ghost inputs_done = unit@.inputs;
    let ghost outputs_done = unit@.outputs;
    let mut i: usize = 0;
    while i < 4
        invariant
            i <= 4,
            0 <= b,
            b + 85 <= u32::MAX,
            pluses@.len() == 7,
            forall|j: int|
                0 <= j < 7 ==> (#[trigger] pluses@[j])@.inputs == cond_plus_3_inputs(b + 12 * j)
                    && pluses@[j]@.outputs == cond_plus_3_outputs(b + 12 * j),
            unit@.gates =~~= bcd_gates_after(b, 3 * i),
            unit@.inputs == inputs_done,
            unit@.outputs == outputs_done,
        decreases 4 - i,
    {
        bcd_wire(&mut unit, &pluses, i, 0, i + 1, 1, Ghost(b), Ghost(3 * i as int));
        bcd_wire(&mut unit, &pluses, i, 1, i + 1, 2, Ghost(b), Ghost(3 * i + 1));
        bcd_wire(&mut unit, &pluses, i, 2, i + 1, 3, Ghost(b), Ghost(3 * i + 2));
        i += 1;
    }
    bcd_wire(&mut unit, &pluses, 0, 3, 5, 2, Ghost(b), Ghost(12));
    bcd_wire(&mut unit, &pluses, 1, 3, 5, 1, Ghost(b), Ghost(13));
    bcd_wire(&mut unit, &pluses, 2, 3, 5, 0, Ghost(b), Ghost(14));
    bcd_wire(&mut unit, &pluses, 3, 3, 6, 0, Ghost(b), Ghost(15));
    bcd_wire(&mut unit, &pluses, 5, 2, 6, 3, Ghost(b), Ghost(16));
    bcd_wire(&mut unit, &pluses, 5, 1, 6, 2, Ghost(b), Ghost(17));
    bcd_wire(&mut unit, &pluses, 5, 0, 6, 1, Ghost(b), Ghost(18));
    bcd_outputs(&mut unit, &pluses, Ghost(b));
    proof {
        assert(unit@.inputs =~~= bin2bcd8b_inputs(b));
        assert(unit@.outputs =~= bin2bcd8b_outputs(b));
    }
    unit
}

// ---------------------------------------------------------------------------
// Seven-segment style digit display

/// The 3 x 5 pixel pattern of digit `n`, row by row: pixel `i` is lit where the entry is
/// `1`.
pub open spec fn digit_row(n: int) -> Seq<u8> {
    if n == 0 {
        seq![1, 1, 1, 1, 0, 1, 1, 0, 1, 1, 0, 1, 1, 1, 1]
    } else if n == 1 {
        seq![0, 1, 0, 1, 1, 0, 0, 1, 0, 0, 1, 0, 0, 1, 0]
    } else if n == 2 {
        seq![0, 1, 0, 1, 0, 1, 0, 0, 1, 0, 1, 0, 1, 1, 1]
    } else if n == 3 {
        seq![1, 1, 0, 0, 0, 1, 0, 1, 0, 0, 0, 1, 1, 1, 0]
    } else if n == 4 {
        seq![1, 0, 1, 1, 0, 1, 1, 1, 1, 0, 0, 1, 0, 0, 1]
    } else if n == 5 {
        seq![1, 1, 1, 1, 0, 0, 1, 1, 1, 0, 0, 1, 1, 1, 0]
    } else if n == 6 {
        seq![1, 1, 1, 1, 0, 0, 1, 1, 1, 1, 0, 1, 1, 1, 1]
    } else if n == 7 {
        seq![1, 1, 1, 0, 0, 1, 0, 1, 0, 0, 1, 0, 0, 1, 0]
    } else if n == 8 {
        seq![1, 1, 1, 1, 0, 1, 0, 1, 2, 1, 0, 1, 1, 1, 1]
    } else {
        seq![1, 1, 1, 1, 0, 1, 1, 1, 1, 0, 0, 1, 1, 1, 1]
    }
}

/// The pixel pattern of digit `n`.
fn digit_pixels(n: usize) -> (row: [u8; 15])
    requires
        n < 10,
    ensures
        row@ == digit_row(n as int),
{
    let row: [u8; 15] = if n == 0 {
        [1, 1, 1, 1, 0, 1, 1, 0, 1, 1, 0, 1, 1, 1, 1]
    } else if n == 1 {
        [0, 1, 0, 1, 1, 0, 0, 1, 0, 0, 1, 0, 0, 1, 0]
    } else if n == 2 {
        [0, 1, 0, 1, 0, 1, 0, 0, 1, 0, 1, 0, 1, 1, 1]
    } else if n == 3 {
        [1, 1, 0, 0, 0, 1, 0, 1, 0, 0, 0, 1, 1, 1, 0]
    } else if n == 4 {
        [1, 0, 1, 1, 0, 1, 1, 1, 1, 0, 0, 1, 0, 0, 1]
    } else if n == 5 {
        [1, 1, 1, 1, 0, 0, 1, 1, 1, 0, 0, 1, 1, 1, 0]
    } else if n == 6 {
        [1, 1, 1, 1, 0, 0, 1, 1, 1, 1, 0, 1, 1, 1, 1]
    } else if n == 7 {
        [1, 1, 1, 0, 0, 1, 0, 1, 0, 0, 1, 0, 0, 1, 0]
    } else if n == 8 {
        [1, 1, 1, 1, 0, 1, 0, 1, 2, 1, 0, 1, 1, 1, 1]
    } else {
        [1, 1, 1, 1, 0, 1, 1, 1, 1, 0, 0, 1, 1, 1, 1]
    };
    proof {
        assert(row@ =~= digit_row(n as int));
    }
    row
}

/// The pixels lit by digit `n` among the first `i`: the ids of their `or` gates, in order.
pub open spec fn lit_ids(b: int, n: int, i: int) -> Seq<Id>
    decreases i,
{
    if i <= 0 {
        Seq::empty()
    } else if digit_row(n)[i - 1] == 1 {
        lit_ids(b, n, i - 1).push(at(b, i))
    } else {
        lit_ids(b, n, i - 1)
    }
}

/// Gate `k` of the display built after id `b` once digits below `n`, and the first `i`
/// pixels of digit `n`, are wired: fifteen pixel `or`s, the 4-to-16 decoder (four
/// inverters, sixteen `and`s, one per digit), then one `and` per select line.
pub open spec fn display_gate(b: int, k: int, n: int, i: int) -> GateModel {
    if k < 15 {
        g(b, k + 1, LogicGateMode::Or, false, seq![])
    } else if k < 19 {
        g(b, k + 1, LogicGateMode::Nand, true, select_ids(b + 20, k - 15, false, 16))
    } else if k < 35 {
        let m = k - 19;
        g(
            b,
            k + 1,
            LogicGateMode::And,
            false,
            if m < n {
                lit_ids(b, m, 15)
            } else if m == n {
                lit_ids(b, m, i)
            } else {
                seq![]
            },
        )
    } else {
        g(b, k + 1, LogicGateMode::And, false, select_ids(b + 20, k - 35, true, 16).push(at(b, k - 19)))
    }
}

/// The 39 gates of the display built after id `b`, wired as far as `n` and `i` say.
pub open spec fn display_gates(b: int, n: int, i: int) -> Seq<GateModel> {
    Seq::new(39, |k: int| display_gate(b, k, n, i))
}

/// The gates of the display built after id `b`: the decoder output of digit `n` lights
/// the pixels of its pattern.
pub open spec fn digit_dispay_gates(b: int) -> Seq<GateModel> {
    display_gates(b, 10, 0)
}

/// The inputs of the display built after id `b`: the enable `I`, then the selects
/// `S0 .. S3` (the digit in binary).
pub open spec fn digit_dispay_inputs(b: int) -> Seq<InputModel> {
    seq![inp(sn('I', 0), Seq::new(16, |i: int| at(b, 20 + i)))] + Seq::new(
        4,
        |t: int| inp(sn('S', t as u8), seq![at(b, 36 + t)]),
    )
}

/// The outputs of the display built after id `b` once `i` pixels are built: pixel `d i`.
pub open spec fn digit_dispay_outputs(b: int, i: int) -> Seq<Output> {
    Seq::new(i as nat, |j: int| outp(sn('d', j as u8), b + 1 + j))
}

/// Gate ids of the display run `b + 1, b + 2, ...`.
proof fn lemma_display_ids(b: int, n: int, i: int)
    requires
        0 <= b,
        b + 39 <= u32::MAX,
    ensures
        ids_from(display_gates(b, n, i), b),
{
}

/// The decoder follows the fifteen pixel gates.
proof fn lemma_display_embed(b: int)
    ensures
        pow2(4) == 16,
        display_gates(b, 0, 0).take(15) + decoder_1_2n_gates(b + 15, 4) =~~= display_gates(
            b,
            0,
            0,
        ).take(35),
{
    lemma2_to64();
    let lhs = display_gates(b, 0, 0).take(15) + decoder_1_2n_gates(b + 15, 4);
    let rhs = display_gates(b, 0, 0).take(35);
    assert forall|k: int| 0 <= k < 35 implies #[trigger] lhs[k] =~~= rhs[k] by {
        if 19 <= k {
            assert(lit_ids(b, k - 19, 0) =~= Seq::<Id>::empty());
        }
    }
}

/// Select gate `t` drives the decoder's select `S t`.
proof fn lemma_display_select(b: int, t: int)
    requires
        0 <= t < 4,
        0 <= b,
        b + 39 <= u32::MAX,
    ensures
        has_gate(display_gates(b, 0, 0).take(35 + t).push(fresh_gate(at(b, 36 + t), LogicGateMode::And, false)), at(b, 36 + t)),
        connect_all_model(
            display_gates(b, 0, 0).take(35 + t).push(fresh_gate(at(b, 36 + t), LogicGateMode::And, false)),
            at(b, 36 + t),
            select_ids(b + 20, t, true, 16).push(at(b, 16 + t)),
        ) =~~= display_gates(b, 0, 0).take(36 + t),
{
    let gs = display_gates(b, 0, 0).take(35 + t).push(fresh_gate(at(b, 36 + t), LogicGateMode::And, false));
    lemma_display_ids(b, 0, 0);
    assert(ids_from(gs, b)) by {
        assert forall|k: int| 0 <= k < gs.len() implies #[trigger] gs[k].id == b + 1 + k by {
            if k < 35 + t {
                assert(gs[k] == display_gates(b, 0, 0)[k]);
            }
        }
    }
    first_in_order(gs, b, 35 + t);
}

/// Pixel `i` of digit `n` is lit: the digit's decoder output drives its `or`.
proof fn lemma_display_light(b: int, n: int, i: int)
    requires
        0 <= n < 10,
        0 <= i < 15,
        digit_row(n)[i] == 1,
        0 <= b,
        b + 39 <= u32::MAX,
    ensures
        has_gate(display_gates(b, n, i), at(b, 20 + n)),
        connect_model(display_gates(b, n, i), at(b, 20 + n), at(b, i + 1)) =~~= display_gates(b, n, i + 1),
{
    lemma_display_ids(b, n, i);
    first_in_order(display_gates(b, n, i), b, 19 + n);
    assert(lit_ids(b, n, i + 1) == lit_ids(b, n, i).push(at(b, i + 1)));
}

/// Pixel `i` of digit `n` is dark: nothing changes.
proof fn lemma_display_dark(b: int, n: int, i: int)
    requires
        0 <= n < 10,
        0 <= i < 15,
        digit_row(n)[i] != 1,
    ensures
        display_gates(b, n, i) =~~= display_gates(b, n, i + 1),
{
    assert(lit_ids(b, n, i + 1) == lit_ids(b, n, i));
}

/// A digit display: fifteen pixels `d0 .. d14` (3 wide, 5 high), enable `I`, selects
/// `S0 .. S3`; while `I` is on, the pixels of the digit spelled by the selects light up.
/// Its gates take the 39 ids after `ids`.
pub fn digit_dispay(ids: &mut IdSource) -> (unit: LogicUnit)
    requires
        old(ids)@ + 39 <= u32::MAX,
    ensures
        final(ids)@ == old(ids)@ + 39,
        unit@.gates == digit_dispay_gates(old(ids)@ as int),
        unit@.inputs == digit_dispay_inputs(old(ids)@ as int),
        unit@.outputs == digit_dispay_outputs(old(ids)@ as int, 15),
{
    let ghost b = ids@ as int;
    let ghost base = display_gates(b, 0, 0);
    let mut unit = LogicUnit::new();
    let mut output_ids: Vec<Id> = Vec::new();
    let mut i: u8 = 0;
    while i < 15
        invariant
            i <= 15,
            0 <= b,
            b + 39 <= u32::MAX,
            ids@ == b + i,
            base == display_gates(b, 0, 0),
            unit@.gates =~~= base.take(i as int),
            unit@.inputs == Seq::<InputModel>::empty(),
            unit@.outputs =~= digit_dispay_outputs(b, i as int),
            output_ids@ =~= Seq::new(i as nat, |j: int| at(b, j + 1)),
        decreases 15 - i,
    {
        let id = unit.add_gate_output(ids, LogicGateMode::Or, false, SignalName('d', i));
        output_ids.push(id);
        i += 1;
    }
    proof {
        lemma_display_embed(b);
    }
    let sub = decoder_1_2n(ids, 4);
    let dec = unit.embed(sub);
    let ghost dins = dec@.inputs;
    let ghost douts = dec@.outputs;
    proof {
        assert(dins == decoder_1_2n_inputs(b + 15, 4));
        assert(dins[4].name == SignalName('I', 0));
        lemma_first_input(dins, SignalName('I', 0), 4);
    }
    unit.io.create_input(SignalName('I', 0), dec.get_input(SignalName('I', 0)).ids.clone());
    let mut t: u8 = 0;
    while t < 4
        invariant
            t <= 4,
            0 <= b,
            b + 39 <= u32::MAX,
            ids@ == b + 35 + t,
            base == display_gates(b, 0, 0),
            dins == decoder_1_2n_inputs(b + 15, 4),
            dins == dec@.inputs,
            pow2(4) == 16,
            unit@.gates =~~= base.take(35 + t),
            unit@.inputs =~~= digit_dispay_inputs(b).take(1 + t),
            unit@.outputs =~= digit_dispay_outputs(b, 15),
        decreases 4 - t,
    {
        let tg = unit.add_gate(ids, LogicGateMode::And, false);
        unit.io.create_input(SignalName('S', t), vec![tg]);
        proof {
            lemma_display_select(b, t as int);
            assert(dins[t as int].name == SignalName('S', t));
            lemma_first_input(dins, SignalName('S', t), t as int);
            assert(dins[t as int].ids =~= select_ids(b + 20, t as int, true, 16).push(at(b, 16 + t)));
        }
        unit.connect_to_input(tg, dec.get_input(SignalName('S', t)));
        proof {
            assert(unit@.inputs =~~= digit_dispay_inputs(b).take(2 + t));
        }
        t += 1;
    }
    let ghost inputs_done = unit@.inputs;
    proof {
        assert(base.take(39) =~= base);
        assert(inputs_done =~~= digit_dispay_inputs(b));
    }
    let mut n: usize = 0;
    while n < 10
        invariant
            n <= 10,
            0 <= b,
            b + 39 <= u32::MAX,
            douts == dec@.outputs,
            douts == decoder_1_2n_outputs(b + 15, 4),
            pow2(4) == 16,
            output_ids@ =~= Seq::new(15, |j: int| at(b, j + 1)),
            unit@.gates =~~= display_gates(b, n as int, 0),
            unit@.inputs == inputs_done,
            unit@.outputs =~= digit_dispay_outputs(b, 15),
        decreases 10 - n,
    {
        let row = digit_pixels(n);
        proof {
            assert(douts[n as int].name == SignalName('O', n as u8));
            lemma_first_output(douts, SignalName('O', n as u8), n as int);
        }
        let from = dec.get_output(SignalName('O', n as u8)).id;
        let mut i: usize = 0;
        while i < 15
            invariant
                i <= 15,
                n < 10,
                0 <= b,
                b + 39 <= u32::MAX,
                from == at(b, 20 + n),
                row@ == digit_row(n as int),
                output_ids@ =~= Seq::new(15, |j: int| at(b, j + 1)),
                unit@.gates =~~= display_gates(b, n as int, i as int),
                unit@.inputs == inputs_done,
                unit@.outputs =~= digit_dispay_outputs(b, 15),
            decreases 15 - i,
        {
            if row[i] == 1 {
                proof {
                    lemma_display_light(b, n as int, i as int);
                }
                unit.connect(from, output_ids[i]);
            } else {
                proof {
                    lemma_display_dark(b, n as int, i as int);
                }
            }
            i += 1;
        }
        proof {
            assert(display_gates(b, n as int, 15) =~~= display_gates(b, n as int + 1, 0));
        }
        n += 1;
    }
    unit
}

// ---------------------------------------------------------------------------
// Eight-bit ALU

/// With ids `b + 1, b + 2, ...`, connecting gate `k` to `tos` appends `tos` to its
/// children, and the ids stay as they are.
proof fn lemma_connect_in_order(gs: Seq<GateModel>, b: int, k: int, tos: Seq<Id>)
    requires
        ids_from(gs, b),
        0 <= k < gs.len(),
    ensures
        has_gate(gs, (b + 1 + k) as Id),
        connect_all_model(gs, (b + 1 + k) as Id, tos) == (if tos.len() == 0 {
            gs
        } else {
            gs.update(k, GateModel { children: gs[k].children + tos, ..gs[k] })
        }),
        ids_from(connect_all_model(gs, (b + 1 + k) as Id, tos), b),
        connect_all_model(gs, (b + 1 + k) as Id, tos).len() == gs.len(),
{
    first_in_order(gs, b, k);
    let r = connect_all_model(gs, (b + 1 + k) as Id, tos);
    assert forall|j: int| 0 <= j < r.len() implies #[trigger] r[j].id == b + 1 + j by {
        assert(r[j].id == gs[j].id);
    }
}

/// The gates that select line `sel` of the first `n` multiplexers of the ALU built after
/// id `b` drive, in order.
pub open spec fn alu_s_ids(b: int, sel: int, n: int) -> Seq<Id>
    decreases n,
{
    if n <= 0 {
        Seq::empty()
    } else {
        alu_s_ids(b, sel, n - 1) + mux_4_1_inputs(b + 7 * (n - 1))[4 + sel].ids
    }
}

/// Gate `k` of the ALU built after id `b` once the first `n` bits are wired: eight 4:1
/// multiplexers, the adder-subtractor, eight `and`s, eight `nand`s. Multiplexer `i`
/// chooses among the sum (inputs 0 and 1), the `and` (2) and the `nand` (3) of bit `i`.
pub open spec fn alu_gate(b: int, k: int, n: int) -> GateModel {
    if k < 56 {
        mux_4_1_gates(b + 7 * (k / 7))[k % 7]
    } else if k < 104 {
        let base = adder_sub_gates(b + 56, 8)[k - 56];
        let i = (k - 56) / 6;
        if (k - 56) % 6 == 3 && i < n {
            GateModel { children: seq![at(b, 7 * i + 2), at(b, 7 * i + 3)], ..base }
        } else {
            base
        }
    } else if k < 112 {
        let i = k - 104;
        g(b, k + 1, LogicGateMode::And, false, if i < n { seq![at(b, 7 * i + 4)] } else { seq![] })
    } else {
        let i = k - 112;
        g(b, k + 1, LogicGateMode::Nand, false, if i < n { seq![at(b, 7 * i + 5)] } else { seq![] })
    }
}

/// The 120 gates of the ALU built after id `b` once the first `n` bits are wired.
pub open spec fn alu_gates(b: int, n: int) -> Seq<GateModel> {
    Seq::new(120, |k: int| alu_gate(b, k, n))
}

/// The gates of the ALU built after id `b`.
pub open spec fn alu_8b_4m_gates(b: int) -> Seq<GateModel> {
    alu_gates(b, 8)
}

/// Data input `k` of the ALU built after id `b`: `A i` for `k = 2 i`, `B i` for
/// `k = 2 i + 1`; each drives its input of the adder-subtractor, the `nand` and the `and`
/// of bit `i`.
pub open spec fn alu_ab_input(b: int, k: int) -> InputModel {
    let i = k / 2;
    let own = adder_sub_input(b + 56, k);
    InputModel { ids: own.ids + seq![at(b, 113 + i), at(b, 105 + i)], ..own }
}

/// The inputs of the ALU built after id `b` once `n` bits are wired: the opcode `S0, S1`,
/// then `A0, B0, ..`.
pub open spec fn alu_inputs_upto(b: int, n: int) -> Seq<InputModel> {
    seq![
        inp(sn('S', 0), adder_sub_k_ids(b + 56, 8) + alu_s_ids(b, 0, n)),
        inp(sn('S', 1), alu_s_ids(b, 1, n)),
    ] + Seq::new((2 * n) as nat, |k: int| alu_ab_input(b, k))
}

/// The outputs of the ALU built after id `b` once `n` bits are wired: `O i` is the output
/// of multiplexer `i`.
pub open spec fn alu_outputs_upto(b: int, n: int) -> Seq<Output> {
    Seq::new(n as nat, |i: int| outp(sn('O', i as u8), b + 7 * i + 1))
}

/// Gate ids of the ALU run `b + 1, b + 2, ...`.
pub proof fn lemma_alu_ids(b: int, n: int)
    requires
        0 <= b,
        b + 120 <= u32::MAX,
    ensures
        ids_from(alu_gates(b, n), b),
{
    let gs = alu_gates(b, n);
    assert forall|k: int| 0 <= k < gs.len() implies #[trigger] gs[k].id == b + 1 + k by {
        if k < 56 {
            assert(k == 7 * (k / 7) + k % 7 && 0 <= k % 7 < 7);
        } else if k < 104 {
            lemma_adder_sub_ids(b + 56, 8);
            assert(adder_sub_gates(b + 56, 8)[k - 56].id == b + 56 + 1 + (k - 56));
        }
    }
}

/// The parts of the ALU follow one another.
proof fn lemma_alu_parts(b: int)
    requires
        0 <= b,
        b + 120 <= u32::MAX,
    ensures
        forall|m: int|
            0 <= m < 8 ==> #[trigger] alu_gates(b, 0).take(7 * m) + mux_4_1_gates(b + 7 * m)
                =~~= alu_gates(b, 0).take(7 * m + 7),
        alu_gates(b, 0).take(56) + adder_sub_gates(b + 56, 8) =~~= alu_gates(b, 0).take(104),
{
    let gs = alu_gates(b, 0);
    assert forall|m: int| 0 <= m < 8 implies #[trigger] alu_gates(b, 0).take(7 * m) + mux_4_1_gates(
        b + 7 * m,
    ) =~~= alu_gates(b, 0).take(7 * m + 7) by {
        assert forall|k: int| 7 * m <= k < 7 * m + 7 implies k / 7 == m && #[trigger] (k % 7) == k - 7 * m by {}
    }
}

/// Wiring bit `i` of the ALU: the sum drives inputs 0 and 1 of multiplexer `i`, the
/// `and` input 2, the `nand` input 3.
#[verifier::rlimit(50)]
proof fn lemma_alu_wire(b: int, i: int)
    requires
        0 <= i < 8,
        0 <= b,
        b + 120 <= u32::MAX,
    ensures
        ({
            let sum = at(b, 56 + 6 * i + 4);
            let g0 = alu_gates(b, i);
            let g1 = connect_all_model(g0, sum, seq![at(b, 7 * i + 2)]);
            let g2 = connect_all_model(g1, sum, seq![at(b, 7 * i + 3)]);
            let g3 = connect_all_model(g2, at(b, 105 + i), seq![at(b, 7 * i + 4)]);
            let g4 = connect_all_model(g3, at(b, 113 + i), seq![at(b, 7 * i + 5)]);
            &&& has_gate(g0, sum)
            &&& has_gate(g1, sum)
            &&& has_gate(g2, at(b, 105 + i))
            &&& has_gate(g3, at(b, 113 + i))
            &&& g4 =~~= alu_gates(b, i + 1)
        }),
{
    let sum = at(b, 56 + 6 * i + 4);
    let g0 = alu_gates(b, i);
    lemma_alu_ids(b, i);
    let ks = 56 + 6 * i + 3;
    lemma_connect_in_order(g0, b, ks, seq![at(b, 7 * i + 2)]);
    let g1 = connect_all_model(g0, sum, seq![at(b, 7 * i + 2)]);
    lemma_connect_in_order(g1, b, ks, seq![at(b, 7 * i + 3)]);
    let g2 = connect_all_model(g1, sum, seq![at(b, 7 * i + 3)]);
    lemma_connect_in_order(g2, b, 104 + i, seq![at(b, 7 * i + 4)]);
    let g3 = connect_all_model(g2, at(b, 105 + i), seq![at(b, 7 * i + 4)]);
    lemma_connect_in_order(g3, b, 112 + i, seq![at(b, 7 * i + 5)]);
    let g4 = connect_all_model(g3, at(b, 113 + i), seq![at(b, 7 * i + 5)]);
    let t = alu_gates(b, i + 1);
    assert((ks - 56) / 6 == i && (ks - 56) % 6 == 3);
    assert(adder_sub_gates(b + 56, 8)[ks - 56].children =~= Seq::<Id>::empty());
    assert(g4[ks].children =~= t[ks].children);
    assert(g4[112 + i].children =~= t[112 + i].children);
    assert(g4[104 + i].children =~= t[104 + i].children);
    assert forall|k: int| 56 <= k < 104 && k != ks implies #[trigger] g0[k] == t[k] by {
        let j = (k - 56) / 6;
        let r = (k - 56) % 6;
        assert(k - 56 == 6 * j + r && 0 <= r < 6);
    }
    assert forall|k: int| 0 <= k < 120 implies #[trigger] g4[k] =~~= t[k] by {
        if k < 56 {
            assert(g4[k] == g0[k]);
        } else if k < 104 && k != ks {
            assert(g4[k] == g0[k]);
        } else if k >= 104 && k != 112 + i && k != 104 + i {
            assert(g4[k] == g0[k]);
        }
    }
}

/// Wires bit `i` of the ALU and declares its inputs `A i`, `B i` and output `O i`.
#[verifier::rlimit(50)]
fn alu_bit(
    unit: &mut LogicUnit,
    arithmetic: &IO,
    muxes: &Vec<IO>,
    ands: &Vec<Id>,
    nands: &Vec<Id>,
    i: usize,
    Ghost(b): Ghost<int>,
)
    requires
        i < 8,
        0 <= b,
        b + 120 <= u32::MAX,
        arithmetic@.inputs == adder_sub_inputs(b + 56),
        arithmetic@.outputs == adder_sub_outputs(b + 56, 8),
        muxes@.len() == 8,
        forall|j: int|
            0 <= j < 8 ==> (#[trigger] muxes@[j])@.inputs == mux_4_1_inputs(b + 7 * j)
                && muxes@[j]@.outputs == seq![outp(sn('O', 0), b + 7 * j + 1)],
        ands@ =~= Seq::new(8, |j: int| at(b, 105 + j)),
        nands@ =~= Seq::new(8, |j: int| at(b, 113 + j)),
        old(unit)@.gates =~~= alu_gates(b, i as int),
        old(unit)@.inputs =~~= alu_inputs_upto(b, i as int),
        old(unit)@.outputs =~= alu_outputs_upto(b, i as int),
    ensures
        final(unit)@.gates =~~= alu_gates(b, i + 1),
        final(unit)@.inputs =~~= alu_inputs_upto(b, i + 1),
        final(unit)@.outputs =~= alu_outputs_upto(b, i + 1),
{
    let ghost ains = arithmetic@.inputs;
    let ghost aouts = arithmetic@.outputs;
    let ghost mins = muxes@[i as int]@.inputs;
    let ghost mouts = muxes@[i as int]@.outputs;
    let ghost in0 = unit@.inputs;
    proof {
        assert(ains[2 * i as int].name == SignalName('A', i as u8));
        assert(ains[2 * i + 1].name == SignalName('B', i as u8));
        assert forall|j: int| 0 <= j < 2 * i implies #[trigger] ains[j].name != SignalName('A', i as u8) by {}
        assert forall|j: int| 0 <= j < 2 * i + 1 implies #[trigger] ains[j].name != SignalName('B', i as u8) by {}
        lemma_first_input(ains, SignalName('A', i as u8), 2 * i as int);
        lemma_first_input(ains, SignalName('B', i as u8), 2 * i + 1);
        assert(aouts[i as int].name == SignalName('O', i as u8));
        lemma_first_output(aouts, SignalName('O', i as u8), i as int);
        lemma_first_input(mins, SignalName('I', 0), 0);
        lemma_first_input(mins, SignalName('I', 1), 1);
        lemma_first_input(mins, SignalName('I', 2), 2);
        lemma_first_input(mins, SignalName('I', 3), 3);
        lemma_first_input(mins, SignalName('S', 0), 4);
        lemma_first_input(mins, SignalName('S', 1), 5);
        assert(mins[0].name == SignalName('I', 0));
        assert(mins[1].name == SignalName('I', 1));
        assert(mins[2].name == SignalName('I', 2));
        assert(mins[3].name == SignalName('I', 3));
        assert(mins[4].name == SignalName('S', 0));
        assert(mins[5].name == SignalName('S', 1));
        assert(mouts[0].name == SignalName('O', 0));
        lemma_first_output(mouts, SignalName('O', 0), 0);
        lemma_alu_wire(b, i as int);
    }
    let mut a = arithmetic.get_input(SignalName('A', i as u8)).ids.clone();
    a.push(nands[i]);
    a.push(ands[i]);
    let mut bb = arithmetic.get_input(SignalName('B', i as u8)).ids.clone();
    bb.push(nands[i]);
    bb.push(ands[i]);
    unit.io.create_input(SignalName('A', i as u8), a);
    unit.io.create_input(SignalName('B', i as u8), bb);
    let sum = arithmetic.get_output(SignalName('O', i as u8)).id;
    unit.connect_to_input(sum, muxes[i].get_input(SignalName('I', 0)));
    unit.connect_to_input(sum, muxes[i].get_input(SignalName('I', 1)));
    unit.connect_to_input(ands[i], muxes[i].get_input(SignalName('I', 2)));
    unit.connect_to_input(nands[i], muxes[i].get_input(SignalName('I', 3)));
    unit.io.create_output(SignalName('O', i as u8), muxes[i].get_output(SignalName('O', 0)).id);
    proof {
        assert(has_input(unit@.inputs, SignalName('S', 0))) by {
            assert(unit@.inputs[0].name == SignalName('S', 0));
        }
        assert(has_input(unit@.inputs, SignalName('S', 1))) by {
            assert(unit@.inputs[1].name == SignalName('S', 1));
        }
        lemma_first_input(unit@.inputs, SignalName('S', 0), 0);
        lemma_first_input(unit@.inputs, SignalName('S', 1), 1);
    }
    let ghost in1 = unit@.inputs;
    unit.io.add_inputs(SignalName('S', 0), &muxes[i].get_input(SignalName('S', 0)).ids);
    proof {
        assert(unit@.inputs[1] == in1[1]);
        assert(has_input(unit@.inputs, SignalName('S', 1))) by {
            assert(unit@.inputs[1].name == SignalName('S', 1));
        }
        lemma_first_input(unit@.inputs, SignalName('S', 1), 1);
    }
    unit.io.add_inputs(SignalName('S', 1), &muxes[i].get_input(SignalName('S', 1)).ids);
    proof {
        let kk = adder_sub_k_ids(b + 56, 8);
        assert(kk + alu_s_ids(b, 0, i + 1) =~= (kk + alu_s_ids(b, 0, i as int)) + mins[4].ids);
        assert(unit@.inputs =~~= alu_inputs_upto(b, i + 1)) by {
            assert(in0 =~~= alu_inputs_upto(b, i as int));
        }
        assert(unit@.outputs =~= alu_outputs_upto(b, i + 1));
    }
}

/// An eight-bit ALU with four operations, chosen by `S1 S0`: `00` adds, `01` subtracts
/// (`A - B`), `10` gives `A and B`, `11` gives `A nand B`, bit by bit on `A0 .. A7`,
/// `B0 .. B7`; output `O0 .. O7`. Its gates take the 120 ids after `ids`.
pub fn alu_8b_4m(ids: &mut IdSource) -> (unit: LogicUnit)
    requires
        old(ids)@ + 120 <= u32::MAX,
    ensures
        final(ids)@ == old(ids)@ + 120,
        unit@.gates == alu_8b_4m_gates(old(ids)@ as int),
        unit@.inputs == alu_inputs_upto(old(ids)@ as int, 8),
        unit@.outputs == alu_outputs_upto(old(ids)@ as int, 8),
{
    let ghost b = ids@ as int;
    let ghost base = alu_gates(b, 0);
    proof {
        lemma_alu_parts(b);
    }
    let mut unit = LogicUnit::new();
    let n: usize = 8;
    let mut muxes: Vec<IO> = Vec::new();
    let mut m: usize = 0;
    while m < n
        invariant
            n == 8,
            m <= 8,
            0 <= b,
            b + 120 <= u32::MAX,
            ids@ == b + 7 * m,
            base == alu_gates(b, 0),
            forall|j: int|
                0 <= j < 8 ==> #[trigger] alu_gates(b, 0).take(7 * j) + mux_4_1_gates(b + 7 * j)
                    =~~= alu_gates(b, 0).take(7 * j + 7),
            unit@.gates =~~= base.take(7 * m),
            unit@.inputs == Seq::<InputModel>::empty(),
            unit@.outputs == Seq::<Output>::empty(),
            muxes@.len() == m,
            forall|j: int|
                0 <= j < m ==> (#[trigger] muxes@[j])@.inputs == mux_4_1_inputs(b + 7 * j)
                    && muxes@[j]@.outputs == seq![outp(sn('O', 0), b + 7 * j + 1)],
        decreases 8 - m,
    {
        let sub = mux_4_1(ids);
        let io = unit.embed(sub);
        proof {
            assert(alu_gates(b, 0).take(7 * m) + mux_4_1_gates(b + 7 * m) =~~= alu_gates(b, 0).take(7 * m + 7));
        }
        muxes.push(io);
        m += 1;
    }
    let sub = adder_substractor_8b(ids);
    let arithmetic = unit.embed(sub);
    let ghost ains = arithmetic@.inputs;
    let ghost aouts = arithmetic@.outputs;
    let mut ands: Vec<Id> = Vec::new();
    let mut k: usize = 0;
    while k < n
        invariant
            n == 8,
            k <= 8,
            0 <= b,
            b + 120 <= u32::MAX,
            ids@ == b + 104 + k,
            base == alu_gates(b, 0),
            unit@.gates =~~= base.take(104 + k),
            unit@.inputs == Seq::<InputModel>::empty(),
            unit@.outputs == Seq::<Output>::empty(),
            ands@ =~= Seq::new(k as nat, |j: int| at(b, 105 + j)),
        decreases 8 - k,
    {
        let x = unit.add_gate(ids, LogicGateMode::And, false);
        ands.push(x);
        k += 1;
    }
    let mut nands: Vec<Id> = Vec::new();
    let mut k: usize = 0;
    while k < n
        invariant
            n == 8,
            k <= 8,
            0 <= b,
            b + 120 <= u32::MAX,
            ids@ == b + 112 + k,
            base == alu_gates(b, 0),
            unit@.gates =~~= base.take(112 + k),
            unit@.inputs == Seq::<InputModel>::empty(),
            unit@.outputs == Seq::<Output>::empty(),
            nands@ =~= Seq::new(k as nat, |j: int| at(b, 113 + j)),
        decreases 8 - k,
    {
        let x = unit.add_gate(ids, LogicGateMode::Nand, false);
        nands.push(x);
        k += 1;
    }
    proof {
        assert(base.take(120) =~= base);
        assert(ains == adder_sub_inputs(b + 56));
        assert(ains[16].name == SignalName('K', 0));
        lemma_first_input(ains, SignalName('K', 0), 16);
    }
    unit.io.create_input(SignalName('S', 0), arithmetic.get_input(SignalName('K', 0)).ids.clone());
    unit.io.create_input(SignalName('S', 1), vec![]);
    let mut i: usize = 0;
    proof {
        assert(unit@.inputs =~~= alu_inputs_upto(b, 0));
        assert(unit@.outputs =~= alu_outputs_upto(b, 0));
    }
    while i < n
        invariant
            n == 8,
            i <= 8,
            0 <= b,
            b + 120 <= u32::MAX,
            ains == arithmetic@.inputs,
            ains == adder_sub_inputs(b + 56),
            aouts == arithmetic@.outputs,
            aouts == adder_sub_outputs(b + 56, 8),
            muxes@.len() == 8,
            forall|j: int|
                0 <= j < 8 ==> (#[trigger] muxes@[j])@.inputs == mux_4_1_inputs(b + 7 * j)
                    && muxes@[j]@.outputs == seq![outp(sn('O', 0), b + 7 * j + 1)],
            ands@ =~= Seq::new(8, |j: int| at(b, 105 + j)),
            nands@ =~= Seq::new(8, |j: int| at(b, 113 + j)),
            unit@.gates =~~= alu_gates(b, i as int),
            unit@.inputs =~~= alu_inputs_upto(b, i as int),
            unit@.outputs =~= alu_outputs_upto(b, i as int),
        decreases 8 - i,
    {
        alu_bit(&mut unit, &arithmetic, &muxes, &ands, &nands, i, Ghost(b));
        i += 1;
    }
    unit
}

// ---------------------------------------------------------------------------
// 4 KiB ROM

/// Word `i` of the ROM image `data`, zero past its end.
pub open spec fn rom_value(data: Seq<u32>, i: int) -> u32 {
    if 0 <= i < data.len() {
        data[i]
    } else {
        0
    }
}

/// The output `or`s that a word `v` drives among bits `0 .. t`: bit `j` set drives output
/// `O j`, in order.
pub open spec fn rom_bits(b: int, v: u32, t: int) -> Seq<Id>
    decreases t,
{
    if t <= 0 {
        Seq::empty()
    } else if (v >> ((t - 1) as u32)) & 1 == 1 {
        rom_bits(b, v, t - 1).push(at(b, 75 + t - 1))
    } else {
        rom_bits(b, v, t - 1)
    }
}

/// How many words of column `c` (words `32 c .. 32 c + 31`) exist once `n` words are
/// built.
pub open spec fn rom_col_count(c: int, n: int) -> int {
    if n <= 32 * c {
        0
    } else if n >= 32 * c + 32 {
        32
    } else {
        n - 32 * c
    }
}

/// How many words of row `r` (words `r, r + 32, ..`) exist once `n` words are built.
pub open spec fn rom_row_count(r: int, n: int) -> int {
    if n <= r {
        0
    } else {
        (n - r - 1) / 32 + 1
    }
}

/// Gate `k` of the ROM built after id `b` once `n` words are built and the last of them
/// drives its first `t` bits: the column decoder, the row decoder, the 32 output `or`s,
/// then one `and` per word. Word `i` sits in column `i / 32` and row `i % 32`; both
/// decoder outputs drive its `and`, which drives the outputs of its set bits.
pub open spec fn rom_gate(b: int, data: Seq<u32>, k: int, n: int, t: int) -> GateModel {
    if k < 37 {
        let base = decoder_1_2n_gates(b, 5)[k];
        if k < 5 {
            base
        } else {
            let c = k - 5;
            GateModel {
                children: Seq::new(rom_col_count(c, n) as nat, |r: int| at(b, 107 + 32 * c + r)),
                ..base
            }
        }
    } else if k < 74 {
        let base = decoder_1_2n_gates(b + 37, 5)[k - 37];
        if k < 42 {
            base
        } else {
            let r = k - 42;
            GateModel {
                children: Seq::new(rom_row_count(r, n) as nat, |c: int| at(b, 107 + 32 * c + r)),
                ..base
            }
        }
    } else if k < 106 {
        g(b, k + 1, LogicGateMode::Or, false, seq![])
    } else {
        let i = k - 106;
        g(
            b,
            k + 1,
            LogicGateMode::And,
            false,
            rom_bits(b, rom_value(data, i), if i == n - 1 { t } else { 32 }),
        )
    }
}

/// The gates of the ROM built after id `b` once `n` words are built, the last driving its
/// first `t` bits.
pub open spec fn rom_gates(b: int, data: Seq<u32>, n: int, t: int) -> Seq<GateModel> {
    Seq::new((106 + n) as nat, |k: int| rom_gate(b, data, k, n, t))
}

/// The gates of the ROM with image `data` built after id `b`.
pub open spec fn rom_4kb_gates(b: int, data: Seq<u32>) -> Seq<GateModel> {
    rom_gates(b, data, 1024, 32)
}

/// The inputs of the ROM built after id `b`: the word address `A2 .. A11` (`A2 .. A6`
/// pick the row, `A7 .. A11` the column), then the read enable `R`.
pub open spec fn rom_4kb_inputs(b: int) -> Seq<InputModel> {
    Seq::new(
        10,
        |k: int|
            inp(
                sn('A', (k + 2) as u8),
                if k + 2 > 6 {
                    decoder_1_2n_inputs(b, 5)[k - 5].ids
                } else {
                    decoder_1_2n_inputs(b + 37, 5)[k].ids
                },
            ),
    ).push(
        inp(sn('R', 0), decoder_1_2n_inputs(b, 5)[5].ids + decoder_1_2n_inputs(b + 37, 5)[5].ids),
    )
}

/// The outputs of the ROM built after id `b` once `t` of them are built: bit `O t` of the
/// word read.
pub open spec fn rom_4kb_outputs(b: int, t: int) -> Seq<Output> {
    Seq::new(t as nat, |j: int| outp(sn('O', j as u8), b + 75 + j))
}

/// Gate ids of the ROM run `b + 1, b + 2, ...`.
proof fn lemma_rom_ids(b: int, data: Seq<u32>, n: int, t: int)
    requires
        0 <= b,
        0 <= n,
        b + 106 + n <= u32::MAX,
    ensures
        ids_from(rom_gates(b, data, n, t), b),
{
    lemma2_to64();
}

/// The two decoders and the output gates come first.
proof fn lemma_rom_parts(b: int, data: Seq<u32>)
    ensures
        pow2(5) == 32,
        decoder_1_2n_gates(b, 5) + decoder_1_2n_gates(b + 37, 5) =~~= rom_gates(b, data, 0, 32).take(74),
{
    lemma2_to64();
    let lhs = decoder_1_2n_gates(b, 5) + decoder_1_2n_gates(b + 37, 5);
    let rhs = rom_gates(b, data, 0, 32).take(74);
    assert forall|k: int| 0 <= k < 74 implies #[trigger] lhs[k] =~~= rhs[k] by {
        if 5 <= k < 37 {
            assert(rhs[k].children =~= Seq::<Id>::empty());
        } else if 42 <= k {
            assert(rhs[k].children =~= Seq::<Id>::empty());
        }
    }
}

/// Word `n` joins: its `and` is added and driven by its column and its row.
proof fn lemma_rom_word(b: int, data: Seq<u32>, n: int)
    requires
        0 <= n < 1024,
        0 <= b,
        b + 1130 <= u32::MAX,
    ensures
        ({
            let g1 = rom_gates(b, data, n, 32).push(fresh_gate(at(b, 107 + n), LogicGateMode::And, false));
            let g2 = connect_model(g1, at(b, 6 + n / 32), at(b, 107 + n));
            &&& has_gate(g1, at(b, 6 + n / 32))
            &&& has_gate(g2, at(b, 43 + n % 32))
            &&& connect_model(g2, at(b, 43 + n % 32), at(b, 107 + n)) =~~= rom_gates(b, data, n + 1, 0)
        }),
{
    lemma2_to64();
    let g0 = rom_gates(b, data, n, 32);
    let g1 = g0.push(fresh_gate(at(b, 107 + n), LogicGateMode::And, false));
    lemma_rom_ids(b, data, n, 32);
    assert(ids_from(g1, b)) by {
        assert forall|k: int| 0 <= k < g1.len() implies #[trigger] g1[k].id == b + 1 + k by {
            if k < g0.len() {
                assert(g1[k] == g0[k]);
            }
        }
    }
    let c = n / 32;
    let r = n % 32;
    assert(n == 32 * c + r && 0 <= r < 32 && 0 <= c < 32);
    lemma_connect_in_order(g1, b, 5 + c, seq![at(b, 107 + n)]);
    let g2 = connect_model(g1, at(b, 6 + c), at(b, 107 + n));
    assert(g2 == connect_all_model(g1, at(b, 6 + c), seq![at(b, 107 + n)])) by {
        first_in_order(g1, b, 5 + c);
        assert(g1[5 + c].children.push(at(b, 107 + n)) =~= g1[5 + c].children + seq![at(b, 107 + n)]);
    }
    lemma_connect_in_order(g2, b, 42 + r, seq![at(b, 107 + n)]);
    let g3 = connect_model(g2, at(b, 43 + r), at(b, 107 + n));
    assert(g3 == connect_all_model(g2, at(b, 43 + r), seq![at(b, 107 + n)])) by {
        first_in_order(g2, b, 42 + r);
        assert(g2[42 + r].children.push(at(b, 107 + n)) =~= g2[42 + r].children + seq![at(b, 107 + n)]);
    }
    let t = rom_gates(b, data, n + 1, 0);
    assert(rom_row_count(r, n) == c);
    assert(rom_col_count(c, n) == r);
    assert forall|k: int| 0 <= k < 106 + n + 1 implies #[trigger] g3[k] =~~= t[k] by {
        if 5 <= k < 37 {
            if k == 5 + c {
                assert(g3[k].children =~= t[k].children);
            } else {
                assert(rom_col_count(k - 5, n) == rom_col_count(k - 5, n + 1));
            }
        } else if 42 <= k < 74 {
            if k == 42 + r {
                assert(g3[k].children =~= t[k].children);
            } else {
                assert(rom_row_count(k - 42, n) == rom_row_count(k - 42, n + 1));
            }
        } else if k == 106 + n {
            assert(g3[k].children =~= Seq::<Id>::empty());
        }
    }
}

/// Bit `t` of word `n`, when set, makes its `and` drive output `O t`.
proof fn lemma_rom_bit(b: int, data: Seq<u32>, n: int, t: int)
    requires
        0 <= n < 1024,
        0 <= t < 32,
        0 <= b,
        b + 1130 <= u32::MAX,
    ensures
        (rom_value(data, n) >> (t as u32)) & 1 == 1 ==> has_gate(rom_gates(b, data, n + 1, t), at(b, 107 + n))
            && connect_model(rom_gates(b, data, n + 1, t), at(b, 107 + n), at(b, 75 + t)) =~~= rom_gates(
            b,
            data,
            n + 1,
            t + 1,
        ),
        (rom_value(data, n) >> (t as u32)) & 1 != 1 ==> rom_gates(b, data, n + 1, t) =~~= rom_gates(
            b,
            data,
            n + 1,
            t + 1,
        ),
{
    lemma_rom_ids(b, data, n + 1, t);
    first_in_order(rom_gates(b, data, n + 1, t), b, 106 + n);
}

/// A 4 KiB ROM holding the 1024 words of `data` (zero past its end): while `R` is on,
/// `O0 .. O31` show the word at address `A2 .. A11`. Its gates take the 1130 ids after
/// `ids`.
pub fn rom_4kb(ids: &mut IdSource, data: &[u32]) -> (unit: LogicUnit)
    requires
        old(ids)@ + 1130 <= u32::MAX,
    ensures
        final(ids)@ == old(ids)@ + 1130,
        unit@.gates == rom_4kb_gates(old(ids)@ as int, data@),
        unit@.inputs == rom_4kb_inputs(old(ids)@ as int),
        unit@.outputs == rom_4kb_outputs(old(ids)@ as int, 32),
{
    let ghost b = ids@ as int;
    proof {
        lemma_rom_parts(b, data@);
    }
    let mut unit = LogicUnit::new();
    let sub = decoder_1_2n(ids, 5);
    let col_dec = unit.embed(sub);
    let sub = decoder_1_2n(ids, 5);
    let row_dec = unit.embed(sub);
    let ghost cins = col_dec@.inputs;
    let ghost rins = row_dec@.inputs;
    let ghost couts = col_dec@.outputs;
    let ghost routs = row_dec@.outputs;
    let mut i: u8 = 2;
    while i < 12
        invariant
            2 <= i <= 12,
            pow2(5) == 32,
            cins == col_dec@.inputs,
            rins == row_dec@.inputs,
            cins == decoder_1_2n_inputs(b, 5),
            rins == decoder_1_2n_inputs(b + 37, 5),
            unit@.inputs =~~= rom_4kb_inputs(b).take(i - 2),
            unit@.outputs == Seq::<Output>::empty(),
            unit@.gates =~~= decoder_1_2n_gates(b, 5) + decoder_1_2n_gates(b + 37, 5),
        decreases 12 - i,
    {
        if i > 6 {
            proof {
                assert(cins[i - 7].name == SignalName('S', (i - 7) as u8));
                lemma_first_input(cins, SignalName('S', (i - 7) as u8), i - 7);
            }
            unit.io.create_input(SignalName('A', i), col_dec.get_input(SignalName('S', i - 7)).ids.clone());
        } else {
            proof {
                assert(rins[i - 2].name == SignalName('S', (i - 2) as u8));
                lemma_first_input(rins, SignalName('S', (i - 2) as u8), i - 2);
            }
            unit.io.create_input(SignalName('A', i), row_dec.get_input(SignalName('S', i - 2)).ids.clone());
        }
        i += 1;
    }
    proof {
        assert(cins[5].name == SignalName('I', 0));
        lemma_first_input(cins, SignalName('I', 0), 5);
        assert(rins[5].name == SignalName('I', 0));
        lemma_first_input(rins, SignalName('I', 0), 5);
    }
    unit.io.create_input(SignalName('R', 0), col_dec.get_input(SignalName('I', 0)).ids.clone());
    proof {
        assert(unit@.inputs[10].name == SignalName('R', 0));
        lemma_first_input(unit@.inputs, SignalName('R', 0), 10);
    }
    unit.io.add_inputs(SignalName('R', 0), &row_dec.get_input(SignalName('I', 0)).ids.clone());
    proof {
        assert(unit@.inputs =~~= rom_4kb_inputs(b));
    }
    let ghost inputs_done = unit@.inputs;
    let mut output_ids: Vec<Id> = Vec::new();
    let mut t: u8 = 0;
    while t < 32
        invariant
            t <= 32,
            0 <= b,
            b + 1130 <= u32::MAX,
            ids@ == b + 74 + t,
            unit@.gates =~~= rom_gates(b, data@, 0, 32).take(74 + t),
            unit@.inputs == inputs_done,
            unit@.outputs =~= rom_4kb_outputs(b, t as int),
            output_ids@ =~= Seq::new(t as nat, |j: int| at(b, 75 + j)),
        decreases 32 - t,
    {
        let o = unit.add_gate_output(ids, LogicGateMode::Or, false, SignalName('O', t));
        output_ids.push(o);
        t += 1;
    }
    proof {
        assert(rom_gates(b, data@, 0, 32).take(106) =~= rom_gates(b, data@, 0, 32));
    }
    let mut n: usize = 0;
    while n < 1024
        invariant
            n <= 1024,
            0 <= b,
            b + 1130 <= u32::MAX,
            pow2(5) == 32,
            ids@ == b + 106 + n,
            couts == col_dec@.outputs,
            routs == row_dec@.outputs,
            couts == decoder_1_2n_outputs(b, 5),
            routs == decoder_1_2n_outputs(b + 37, 5),
            unit@.gates =~~= rom_gates(b, data@, n as int, 32),
            unit@.inputs == inputs_done,
            unit@.outputs =~= rom_4kb_outputs(b, 32),
            output_ids@ =~= Seq::new(32, |j: int| at(b, 75 + j)),
        decreases 1024 - n,
    {
        let col = n / 32;
        let row = n % 32;
        let value: u32 = if n < data.len() { data[n] } else { 0 };
        let and = unit.add_gate(ids, LogicGateMode::And, false);
        proof {
            lemma_rom_word(b, data@, n as int);
            assert(couts[col as int].name == SignalName('O', col as u8));
            lemma_first_output(couts, SignalName('O', col as u8), col as int);
            assert(routs[row as int].name == SignalName('O', row as u8));
            lemma_first_output(routs, SignalName('O', row as u8), row as int);
        }
        unit.connect(col_dec.get_output(SignalName('O', col as u8)).id, and);
        unit.connect(row_dec.get_output(SignalName('O', row as u8)).id, and);
        let mut t: u32 = 0;
        while t < 32
            invariant
                t <= 32,
                n < 1024,
                0 <= b,
                b + 1130 <= u32::MAX,
                and == at(b, 107 + n),
                value == rom_value(data@, n as int),
                output_ids@ =~= Seq::new(32, |j: int| at(b, 75 + j)),
                unit@.gates =~~= rom_gates(b, data@, n + 1, t as int),
                unit@.inputs == inputs_done,
                unit@.outputs =~= rom_4kb_outputs(b, 32),
            decreases 32 - t,
        {
            proof {
                lemma_rom_bit(b, data@, n as int, t as int);
            }
            if (value >> t) & 1 == 1 {
                unit.connect(and, output_ids[t as usize]);
            }
            t += 1;
        }
        n += 1;
    }
    unit
}

// ---------------------------------------------------------------------------
// Register bank: eight eight-bit registers

/// Gate `q` of `r` one-bit registers built one after the other after id `b` is gate
/// `q % 7` of register `q / 7`.
pub proof fn lemma_reg_8b_index(b: int, r: int, q: int)
    requires
        0 <= q < 7 * r,
    ensures
        reg_8b_gates(b, r).len() == 7 * r,
        reg_8b_gates(b, r)[q] == reg_1b_gates(b + 7 * (q / 7))[q % 7],
    decreases r,
{
    lemma_reg_8b_len(b, r);
    lemma_reg_8b_len(b, r - 1);
    if q < 7 * (r - 1) {
        lemma_reg_8b_index(b, r - 1, q);
    } else {
        assert(q / 7 == r - 1 && q % 7 == q - 7 * (r - 1));
    }
}

/// `r` one-bit registers have `7 r` gates.
pub proof fn lemma_reg_8b_len(b: int, r: int)
    ensures
        reg_8b_gates(b, r).len() == if r <= 0 { 0 } else { 7 * r },
    decreases r,
{
    if r > 0 {
        lemma_reg_8b_len(b, r - 1);
    }
}

/// The gates that select line `k` of the first `m` read multiplexers drive, in order.
pub open spec fn bank_s_ids(b: int, k: int, m: int) -> Seq<Id>
    decreases m,
{
    if m <= 0 {
        Seq::empty()
    } else {
        bank_s_ids(b, k, m - 1) + mux_2n_1_inputs(b + 12 * (m - 1), 3)[k].ids
    }
}

/// The gates that data input `I i` drives in the first `cnt` registers, in order.
pub open spec fn bank_i_ids(b: int, i: int, cnt: int) -> Seq<Id>
    decreases cnt,
{
    if cnt <= 0 {
        Seq::empty()
    } else {
        bank_i_ids(b, i, cnt - 1) + reg_8b_inputs(b + 107 + 56 * (cnt - 1))[1 + i].ids
    }
}

/// Register `j` has its output bit `i` wired to read multiplexer `i`, once registers below
/// `rj` and the bits below `ri` of register `rj` are wired.
pub open spec fn bank_bit_wired(j: int, i: int, rj: int, ri: int) -> bool {
    j < rj || (j == rj && i < ri)
}

/// Gate `k` of the register bank built after id `b` once registers below `rj`, and bits
/// below `ri` of register `rj`, are wired: eight 8:1 read multiplexers (one per bit), the
/// 3-to-8 write decoder, then eight eight-bit registers. Output bit `i` of register `j`
/// drives data input `j` of multiplexer `i`; decoder output `j` drives the write enable
/// of register `j`.
pub open spec fn bank_gate(b: int, k: int, rj: int, ri: int) -> GateModel {
    if k < 96 {
        mux_2n_1_gates(b + 12 * (k / 12), 3)[k % 12]
    } else if k < 107 {
        let base = decoder_1_2n_gates(b + 96, 3)[k - 96];
        let j = k - 99;
        if 0 <= j < rj {
            GateModel { children: base.children + reg_8b_write_ids(b + 107 + 56 * j, 8), ..base }
        } else {
            base
        }
    } else {
        let q = k - 107;
        let j = q / 56;
        let w = q % 56;
        let i = w / 7;
        let base = reg_8b_gates(b + 107 + 56 * j, 8)[w];
        if w % 7 == 0 && bank_bit_wired(j, i, rj, ri) {
            GateModel { children: base.children + seq![at(b, 12 * i + 2 + j)], ..base }
        } else {
            base
        }
    }
}

/// The 555 gates of the register bank built after id `b`, wired as far as `rj`, `ri` say.
pub open spec fn bank_gates(b: int, rj: int, ri: int) -> Seq<GateModel> {
    Seq::new(555, |k: int| bank_gate(b, k, rj, ri))
}

/// The gates of the register bank built after id `b`.
pub open spec fn reg_bank_8b_8x_gates(b: int) -> Seq<GateModel> {
    bank_gates(b, 8, 0)
}

/// The inputs of the register bank built after id `b` once `m` bits are declared and the
/// registers are wired as far as `rj`, `ri` say: write enable `W`, write address
/// `S0 .. S2`, read address `s0 .. s2`, then data `I0 ..`.
pub open spec fn bank_inputs(b: int, m: int, rj: int, ri: int) -> Seq<InputModel> {
    let dec = decoder_1_2n_inputs(b + 96, 3);
    seq![
        inp(sn('W', 0), dec[3].ids),
        inp(sn('S', 0), dec[0].ids),
        inp(sn('S', 1), dec[1].ids),
        inp(sn('S', 2), dec[2].ids),
        inp(sn('s', 0), bank_s_ids(b, 0, m)),
        inp(sn('s', 1), bank_s_ids(b, 1, m)),
        inp(sn('s', 2), bank_s_ids(b, 2, m)),
    ] + Seq::new(
        m as nat,
        |i: int| inp(sn('I', i as u8), bank_i_ids(b, i, if i < ri { rj + 1 } else { rj })),
    )
}

/// The inputs of the register bank built after id `b`.
pub open spec fn reg_bank_8b_8x_inputs(b: int) -> Seq<InputModel> {
    bank_inputs(b, 8, 8, 0)
}

/// The outputs of the register bank built after id `b` once `m` bits are declared: `O i`
/// is read multiplexer `i`.
pub open spec fn bank_outputs(b: int, m: int) -> Seq<Output> {
    Seq::new(m as nat, |i: int| outp(sn('O', i as u8), b + 12 * i + 1))
}

/// Gate ids of the register bank run `b + 1, b + 2, ...`.
proof fn lemma_bank_ids(b: int, rj: int, ri: int)
    requires
        0 <= b,
        b + 555 <= u32::MAX,
    ensures
        ids_from(bank_gates(b, rj, ri), b),
{
    lemma2_to64();
    let gs = bank_gates(b, rj, ri);
    assert forall|k: int| 0 <= k < gs.len() implies #[trigger] gs[k].id == b + 1 + k by {
        if k < 96 {
            assert(k == 12 * (k / 12) + k % 12 && 0 <= k % 12 < 12);
        } else if k >= 107 {
            let q = k - 107;
            let j = q / 56;
            let w = q % 56;
            assert(q == 56 * j + w && 0 <= w < 56);
            lemma_reg_8b_index(b + 107 + 56 * j, 8, w);
            assert(w == 7 * (w / 7) + w % 7 && 0 <= w % 7 < 7);
        }
    }
}

/// The parts of the register bank follow one another.
proof fn lemma_bank_parts(b: int)
    ensures
        pow2(3) == 8,
        forall|m: int|
            0 <= m < 8 ==> #[trigger] bank_gates(b, 0, 0).take(12 * m) + mux_2n_1_gates(b + 12 * m, 3)
                =~~= bank_gates(b, 0, 0).take(12 * m + 12),
        bank_gates(b, 0, 0).take(96) + decoder_1_2n_gates(b + 96, 3) =~~= bank_gates(b, 0, 0).take(107),
        forall|j: int|
            0 <= j < 8 ==> #[trigger] bank_gates(b, 0, 0).take(107 + 56 * j) + reg_8b_gates(
                b + 107 + 56 * j,
                8,
            ) =~~= bank_gates(b, 0, 0).take(107 + 56 * j + 56),
{
    lemma2_to64();
    let gs = bank_gates(b, 0, 0);
    assert forall|m: int| 0 <= m < 8 implies #[trigger] bank_gates(b, 0, 0).take(12 * m) + mux_2n_1_gates(
        b + 12 * m,
        3,
    ) =~~= bank_gates(b, 0, 0).take(12 * m + 12) by {
        assert forall|k: int| 12 * m <= k < 12 * m + 12 implies k / 12 == m && #[trigger] (k % 12) == k - 12 * m by {}
    }
    assert forall|j: int| 0 <= j < 8 implies #[trigger] bank_gates(b, 0, 0).take(107 + 56 * j) + reg_8b_gates(
        b + 107 + 56 * j,
        8,
    ) =~~= bank_gates(b, 0, 0).take(107 + 56 * j + 56) by {
        lemma_reg_8b_index(b + 107 + 56 * j, 8, 0);
        assert forall|k: int| 107 + 56 * j <= k < 107 + 56 * j + 56 implies (k - 107) / 56 == j && #[trigger] ((k - 107) % 56) == k - 107 - 56 * j by {}
    }
}

/// Wiring output bit `i` of register `j` to data input `j` of read multiplexer `i`.
#[verifier::rlimit(50)]
proof fn lemma_bank_wire_bit(b: int, j: int, i: int)
    requires
        0 <= j < 8,
        0 <= i < 8,
        0 <= b,
        b + 555 <= u32::MAX,
    ensures
        has_gate(bank_gates(b, j, i), at(b, 107 + 56 * j + 7 * i + 1)),
        connect_all_model(bank_gates(b, j, i), at(b, 107 + 56 * j + 7 * i + 1), seq![at(b, 12 * i + 2 + j)])
            =~~= bank_gates(b, j, i + 1),
{
    let gs = bank_gates(b, j, i);
    let src = 107 + 56 * j + 7 * i;
    lemma_bank_ids(b, j, i);
    lemma_connect_in_order(gs, b, src, seq![at(b, 12 * i + 2 + j)]);
    let r = connect_all_model(gs, at(b, src + 1), seq![at(b, 12 * i + 2 + j)]);
    let t = bank_gates(b, j, i + 1);
    assert((src - 107) / 56 == j && (src - 107) % 56 == 7 * i);
    assert((7 * i) / 7 == i && (7 * i) % 7 == 0);
    assert forall|k: int| 107 <= k < 555 && k != src implies #[trigger] gs[k] == t[k] by {
        let q = k - 107;
        let jj = q / 56;
        let w = q % 56;
        assert(q == 56 * jj + w && 0 <= w < 56);
        assert(w == 7 * (w / 7) + w % 7 && 0 <= w % 7 < 7);
    }
    assert forall|k: int| 0 <= k < 555 implies #[trigger] r[k] =~~= t[k] by {
        if k == src {
            assert(r[k].children =~= t[k].children);
        }
    }
}

/// Wiring decoder output `j` to the write enable of register `j`.
#[verifier::rlimit(50)]
proof fn lemma_bank_wire_dec(b: int, j: int)
    requires
        0 <= j < 8,
        0 <= b,
        b + 555 <= u32::MAX,
    ensures
        has_gate(bank_gates(b, j, 8), at(b, 100 + j)),
        connect_all_model(bank_gates(b, j, 8), at(b, 100 + j), reg_8b_write_ids(b + 107 + 56 * j, 8))
            =~~= bank_gates(b, j + 1, 0),
{
    lemma2_to64();
    let gs = bank_gates(b, j, 8);
    lemma_bank_ids(b, j, 8);
    let ws = reg_8b_write_ids(b + 107 + 56 * j, 8);
    lemma_connect_in_order(gs, b, 99 + j, ws);
    let r = connect_all_model(gs, at(b, 100 + j), ws);
    let t = bank_gates(b, j + 1, 0);
    assert forall|k: int| 107 <= k < 555 implies #[trigger] gs[k] == t[k] by {
        let q = k - 107;
        let jj = q / 56;
        let w = q % 56;
        assert(q == 56 * jj + w && 0 <= w < 56);
        assert(w == 7 * (w / 7) + w % 7 && 0 <= w % 7 < 7);
    }
    assert(decoder_1_2n_gates(b + 96, 3)[3 + j].children =~= Seq::<Id>::empty());
    assert forall|k: int| 0 <= k < 555 implies #[trigger] r[k] =~~= t[k] by {
        if k == 99 + j {
            assert(r[k].children =~= t[k].children);
        }
    }
}

/// Wires output bit `i` of register `j`: data input `I i` reaches the register, and the
/// register's output reaches read multiplexer `i`.
#[verifier::rlimit(50)]
fn bank_bit(
    unit: &mut LogicUnit,
    muxes: &Vec<IO>,
    regs: &Vec<IO>,
    j: usize,
    i: usize,
    Ghost(b): Ghost<int>,
)
    requires
        j < 8,
        i < 8,
        0 <= b,
        b + 555 <= u32::MAX,
        pow2(3) == 8,
        muxes@.len() == 8,
        regs@.len() == 8,
        forall|m: int|
            0 <= m < 8 ==> (#[trigger] muxes@[m])@.inputs == mux_2n_1_inputs(b + 12 * m, 3)
                && muxes@[m]@.outputs == seq![outp(sn('O', 0), b + 12 * m + 1)],
        forall|m: int|
            0 <= m < 8 ==> (#[trigger] regs@[m])@.inputs == reg_8b_inputs(b + 107 + 56 * m)
                && regs@[m]@.outputs == reg_8b_outputs(b + 107 + 56 * m),
        old(unit)@.gates =~~= bank_gates(b, j as int, i as int),
        old(unit)@.inputs =~~= bank_inputs(b, 8, j as int, i as int),
    ensures
        final(unit)@.gates =~~= bank_gates(b, j as int, i + 1),
        final(unit)@.inputs =~~= bank_inputs(b, 8, j as int, i + 1),
        final(unit)@.outputs == old(unit)@.outputs,
{
    let ghost ins = unit@.inputs;
    let ghost rins = regs@[j as int]@.inputs;
    let ghost routs = regs@[j as int]@.outputs;
    let ghost mins = muxes@[i as int]@.inputs;
    proof {
        assert(ins[7 + i].name == SignalName('I', i as u8));
        assert forall|k: int| 0 <= k < 7 + i implies #[trigger] ins[k].name != SignalName('I', i as u8) by {}
        lemma_first_input(ins, SignalName('I', i as u8), 7 + i);
        assert(rins[1 + i].name == SignalName('I', i as u8));
        assert forall|k: int| 0 <= k < 1 + i implies #[trigger] rins[k].name != SignalName('I', i as u8) by {}
        lemma_first_input(rins, SignalName('I', i as u8), 1 + i);
        assert(routs[i as int].name == SignalName('O', i as u8));
        lemma_first_output(routs, SignalName('O', i as u8), i as int);
        assert(mins[3 + j].name == SignalName('I', j as u8));
        assert forall|k: int| 0 <= k < 3 + j implies #[trigger] mins[k].name != SignalName('I', j as u8) by {}
        lemma_first_input(mins, SignalName('I', j as u8), 3 + j);
        lemma_bank_wire_bit(b, j as int, i as int);
    }
    unit.io.add_inputs(SignalName('I', i as u8), &regs[j].get_input(SignalName('I', i as u8)).ids);
    proof {
        assert(unit@.inputs =~~= bank_inputs(b, 8, j as int, i + 1));
    }
    let from = regs[j].get_output(SignalName('O', i as u8)).id;
    unit.connect_to_input(from, muxes[i].get_input(SignalName('I', j as u8)));
}

/// A bank of eight eight-bit registers: write enable `W`, write address `S0 .. S2`, read
/// address `s0 .. s2`, data in `I0 .. I7`, data out `O0 .. O7`. Its gates take the 555
/// ids after `ids`.
pub fn reg_bank_8b_8x(ids: &mut IdSource) -> (unit: LogicUnit)
    requires
        old(ids)@ + 555 <= u32::MAX,
    ensures
        final(ids)@ == old(ids)@ + 555,
        unit@.gates == reg_bank_8b_8x_gates(old(ids)@ as int),
        unit@.inputs == reg_bank_8b_8x_inputs(old(ids)@ as int),
        unit@.outputs == bank_outputs(old(ids)@ as int, 8),
{
    let ghost b = ids@ as int;
    let ghost base = bank_gates(b, 0, 0);
    proof {
        lemma_bank_parts(b);
    }
    let mut unit = LogicUnit::new();
    let mut muxes: Vec<IO> = Vec::new();
    let mut m: usize = 0;
    while m < 8
        invariant
            m <= 8,
            0 <= b,
            b + 555 <= u32::MAX,
            pow2(3) == 8,
            ids@ == b + 12 * m,
            base == bank_gates(b, 0, 0),
            forall|k: int|
                0 <= k < 8 ==> #[trigger] bank_gates(b, 0, 0).take(12 * k) + mux_2n_1_gates(b + 12 * k, 3)
                    =~~= bank_gates(b, 0, 0).take(12 * k + 12),
            unit@.gates =~~= base.take(12 * m),
            unit@.inputs == Seq::<InputModel>::empty(),
            unit@.outputs == Seq::<Output>::empty(),
            muxes@.len() == m,
            forall|k: int|
                0 <= k < m ==> (#[trigger] muxes@[k])@.inputs == mux_2n_1_inputs(b + 12 * k, 3)
                    && muxes@[k]@.outputs == seq![outp(sn('O', 0), b + 12 * k + 1)],
        decreases 8 - m,
    {
        let sub = mux_2n_1(ids, 3);
        let io = unit.embed(sub);
        proof {
            assert(bank_gates(b, 0, 0).take(12 * m) + mux_2n_1_gates(b + 12 * m, 3) =~~= bank_gates(b, 0, 0).take(12 * m + 12));
        }
        muxes.push(io);
        m += 1;
    }
    let sub = decoder_1_2n(ids, 3);
    let dec = unit.embed(sub);
    let ghost dins = dec@.inputs;
    let ghost douts = dec@.outputs;
    let mut regs: Vec<IO> = Vec::new();
    let mut j: usize = 0;
    while j < 8
        invariant
            j <= 8,
            0 <= b,
            b + 555 <= u32::MAX,
            pow2(3) == 8,
            ids@ == b + 107 + 56 * j,
            base == bank_gates(b, 0, 0),
            forall|k: int|
                0 <= k < 8 ==> #[trigger] bank_gates(b, 0, 0).take(107 + 56 * k) + reg_8b_gates(b + 107 + 56 * k, 8)
                    =~~= bank_gates(b, 0, 0).take(107 + 56 * k + 56),
            unit@.gates =~~= base.take(107 + 56 * j),
            unit@.inputs == Seq::<InputModel>::empty(),
            unit@.outputs == Seq::<Output>::empty(),
            regs@.len() == j,
            forall|k: int|
                0 <= k < j ==> (#[trigger] regs@[k])@.inputs == reg_8b_inputs(b + 107 + 56 * k)
                    && regs@[k]@.outputs == reg_8b_outputs(b + 107 + 56 * k),
        decreases 8 - j,
    {
        let sub = reg_8b(ids);
        let io = unit.embed(sub);
        proof {
            assert(bank_gates(b, 0, 0).take(107 + 56 * j) + reg_8b_gates(b + 107 + 56 * j, 8) =~~= bank_gates(b, 0, 0).take(107 + 56 * j + 56));
        }
        regs.push(io);
        j += 1;
    }
    proof {
        assert(base.take(555) =~= base);
        assert(dins == decoder_1_2n_inputs(b + 96, 3));
        assert(dins[0].name == SignalName('S', 0));
        assert(dins[1].name == SignalName('S', 1));
        assert(dins[2].name == SignalName('S', 2));
        assert(dins[3].name == SignalName('I', 0));
        lemma_first_input(dins, SignalName('S', 0), 0);
        lemma_first_input(dins, SignalName('S', 1), 1);
        lemma_first_input(dins, SignalName('S', 2), 2);
        lemma_first_input(dins, SignalName('I', 0), 3);
    }
    unit.io.create_input(SignalName('W', 0), dec.get_input(SignalName('I', 0)).ids.clone());
    unit.io.create_input(SignalName('S', 0), dec.get_input(SignalName('S', 0)).ids.clone());
    unit.io.create_input(SignalName('S', 1), dec.get_input(SignalName('S', 1)).ids.clone());
    unit.io.create_input(SignalName('S', 2), dec.get_input(SignalName('S', 2)).ids.clone());
    unit.io.create_input(SignalName('s', 0), vec![]);
    unit.io.create_input(SignalName('s', 1), vec![]);
    unit.io.create_input(SignalName('s', 2), vec![]);
    proof {
        assert(unit@.inputs =~~= bank_inputs(b, 0, 0, 0));
        assert(unit@.outputs =~= bank_outputs(b, 0));
    }
    let mut i: usize = 0;
    while i < 8
        invariant
            i <= 8,
            0 <= b,
            b + 555 <= u32::MAX,
            pow2(3) == 8,
            muxes@.len() == 8,
            forall|k: int|
                0 <= k < 8 ==> (#[trigger] muxes@[k])@.inputs == mux_2n_1_inputs(b + 12 * k, 3)
                    && muxes@[k]@.outputs == seq![outp(sn('O', 0), b + 12 * k + 1)],
            unit@.gates =~~= bank_gates(b, 0, 0),
            unit@.inputs =~~= bank_inputs(b, i as int, 0, 0),
            unit@.outputs =~= bank_outputs(b, i as int),
        decreases 8 - i,
    {
        let ghost mins = muxes@[i as int]@.inputs;
        let ghost in0 = unit@.inputs;
        unit.io.create_input(SignalName('I', i as u8), vec![]);
        proof {
            assert(mins[0].name == SignalName('S', 0));
            assert(mins[1].name == SignalName('S', 1));
            assert(mins[2].name == SignalName('S', 2));
            lemma_first_input(mins, SignalName('S', 0), 0);
            lemma_first_input(mins, SignalName('S', 1), 1);
            lemma_first_input(mins, SignalName('S', 2), 2);
            assert(unit@.inputs[4].name == SignalName('s', 0));
            assert(unit@.inputs[5].name == SignalName('s', 1));
            assert(unit@.inputs[6].name == SignalName('s', 2));
            lemma_first_input(unit@.inputs, SignalName('s', 0), 4);
        }
        unit.io.add_inputs(SignalName('s', 0), &muxes[i].get_input(SignalName('S', 0)).ids);
        proof {
            assert(unit@.inputs[5].name == SignalName('s', 1));
            lemma_first_input(unit@.inputs, SignalName('s', 1), 5);
        }
        unit.io.add_inputs(SignalName('s', 1), &muxes[i].get_input(SignalName('S', 1)).ids);
        proof {
            assert(unit@.inputs[6].name == SignalName('s', 2));
            lemma_first_input(unit@.inputs, SignalName('s', 2), 6);
            assert(muxes@[i as int]@.outputs[0].name == SignalName('O', 0));
            lemma_first_output(muxes@[i as int]@.outputs, SignalName('O', 0), 0);
        }
        unit.io.add_inputs(SignalName('s', 2), &muxes[i].get_input(SignalName('S', 2)).ids);
        unit.io.create_output(SignalName('O', i as u8), muxes[i].get_output(SignalName('O', 0)).id);
        proof {
            assert(unit@.inputs =~~= bank_inputs(b, i + 1, 0, 0)) by {
                assert(in0 =~~= bank_inputs(b, i as int, 0, 0));
            }
            assert(unit@.outputs =~= bank_outputs(b, i + 1));
        }
        i += 1;
    }
    let ghost outputs_done = unit@.outputs;
    let mut j: usize = 0;
    while j < 8
        invariant
            j <= 8,
            0 <= b,
            b + 555 <= u32::MAX,
            pow2(3) == 8,
            douts == dec@.outputs,
            douts == decoder_1_2n_outputs(b + 96, 3),
            muxes@.len() == 8,
            regs@.len() == 8,
            forall|k: int|
                0 <= k < 8 ==> (#[trigger] muxes@[k])@.inputs == mux_2n_1_inputs(b + 12 * k, 3)
                    && muxes@[k]@.outputs == seq![outp(sn('O', 0), b + 12 * k + 1)],
            forall|k: int|
                0 <= k < 8 ==> (#[trigger] regs@[k])@.inputs == reg_8b_inputs(b + 107 + 56 * k)
                    && regs@[k]@.outputs == reg_8b_outputs(b + 107 + 56 * k),
            unit@.gates =~~= bank_gates(b, j as int, 0),
            unit@.inputs =~~= bank_inputs(b, 8, j as int, 0),
            unit@.outputs == outputs_done,
        decreases 8 - j,
    {
        let mut i: usize = 0;
        while i < 8
            invariant
                i <= 8,
                j < 8,
                0 <= b,
                b + 555 <= u32::MAX,
                pow2(3) == 8,
                muxes@.len() == 8,
                regs@.len() == 8,
                forall|k: int|
                    0 <= k < 8 ==> (#[trigger] muxes@[k])@.inputs == mux_2n_1_inputs(b + 12 * k, 3)
                        && muxes@[k]@.outputs == seq![outp(sn('O', 0), b + 12 * k + 1)],
                forall|k: int|
                    0 <= k < 8 ==> (#[trigger] regs@[k])@.inputs == reg_8b_inputs(b + 107 + 56 * k)
                        && regs@[k]@.outputs == reg_8b_outputs(b + 107 + 56 * k),
                unit@.gates =~~= bank_gates(b, j as int, i as int),
                unit@.inputs =~~= bank_inputs(b, 8, j as int, i as int),
                unit@.outputs == outputs_done,
            decreases 8 - i,
        {
            bank_bit(&mut unit, &muxes, &regs, j, i, Ghost(b));
            i += 1;
        }
        let ghost rins = regs@[j as int]@.inputs;
        proof {
            assert(douts[j as int].name == SignalName('O', j as u8));
            lemma_first_output(douts, SignalName('O', j as u8), j as int);
            assert(rins[0].name == SignalName('W', 0));
            lemma_first_input(rins, SignalName('W', 0), 0);
            lemma_bank_wire_dec(b, j as int);
            assert(bank_inputs(b, 8, j as int, 8) =~~= bank_inputs(b, 8, j + 1, 0));
        }
        let from = dec.get_output(SignalName('O', j as u8)).id;
        unit.connect_to_input(from, regs[j].get_input(SignalName('W', 0)));
        j += 1;
    }
    unit
}

} // verus!
