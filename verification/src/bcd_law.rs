use vstd::prelude::*;

use crate::adder_law::{lemma_two_values, ticks};
use crate::emulator::{emu_input_value, gate_refs, ids_refs, input_refs, parents_of, ref_value, ParentRef};
use crate::laws::tick_model;
use crate::logic::{at, cond_plus_3_gates, cond_plus_3_inputs, cond_plus_3_outputs, sn};
use crate::logic_gate::{all_true, gate_output, GateModel};
use crate::logic_unit::{first_gate, lemma_first_gate, UnitModel};
use crate::utils::{Id, SignalName};

verus! {

// ---------------------------------------------------------------------------
// The "add 3 if at least 5" cell of the binary to BCD converter

/// The unit is the cell built after id `b`, its gates in any state.
pub open spec fn is_cond_plus_3(u: UnitModel, b: int) -> bool {
    &&& 0 <= b
    &&& b + 12 <= u32::MAX
    &&& u.inputs == cond_plus_3_inputs(b)
    &&& u.outputs == cond_plus_3_outputs(b)
    &&& u.gates.len() == 12
    &&& forall|k: int|
        0 <= k < 12 ==> #[trigger] u.gates[k] == (GateModel { active: u.gates[k].active, ..cond_plus_3_gates(b)[k] })
}

/// What drives the first six gates of the cell.
#[verifier::spinoff_prover]
#[verifier::rlimit(80)]
proof fn lemma_cond_plus_3_drivers_low(u: UnitModel, b: int)
    requires
        is_cond_plus_3(u, b),
    ensures
        parents_of(u, at(b, 1)) == seq![ParentRef::Input(sn('A', 0)), ParentRef::Input(sn('A', 1))],
        parents_of(u, at(b, 2)) == seq![ParentRef::Input(sn('A', 2)), ParentRef::Gate(at(b, 1))],
        parents_of(u, at(b, 3)) == seq![ParentRef::Input(sn('A', 3)), ParentRef::Gate(at(b, 2))],
        parents_of(u, at(b, 4)) == seq![ParentRef::Input(sn('A', 0)), ParentRef::Gate(at(b, 3))],
        parents_of(u, at(b, 5)) == seq![ParentRef::Gate(at(b, 3)), ParentRef::Gate(at(b, 4))],
        parents_of(u, at(b, 6)) == seq![ParentRef::Input(sn('A', 1))],
{
    let gs = u.gates;
    assert forall|k: int| 0 <= k < 12 implies #[trigger] gs[k].id == b + 1 + k && gs[k].children
        == cond_plus_3_gates(b)[k].children by {
        assert(gs[k] == (GateModel { active: gs[k].active, ..cond_plus_3_gates(b)[k] }));
    }
    reveal_with_fuel(input_refs, 5);
    reveal_with_fuel(gate_refs, 13);
    reveal_with_fuel(ids_refs, 4);
    assert(input_refs(u.inputs, at(b, 1)) =~= seq![ParentRef::Input(sn('A', 0)), ParentRef::Input(sn('A', 1))]);
    assert(gate_refs(gs, at(b, 1)) =~= Seq::<ParentRef>::empty());
    assert(input_refs(u.inputs, at(b, 2)) =~= seq![ParentRef::Input(sn('A', 2))]);
    assert(gate_refs(gs, at(b, 2)) =~= seq![ParentRef::Gate(at(b, 1))]);
    assert(input_refs(u.inputs, at(b, 3)) =~= seq![ParentRef::Input(sn('A', 3))]);
    assert(gate_refs(gs, at(b, 3)) =~= seq![ParentRef::Gate(at(b, 2))]);
    assert(input_refs(u.inputs, at(b, 4)) =~= seq![ParentRef::Input(sn('A', 0))]);
    assert(gate_refs(gs, at(b, 4)) =~= seq![ParentRef::Gate(at(b, 3))]);
    assert(input_refs(u.inputs, at(b, 5)) =~= Seq::<ParentRef>::empty());
    assert(gate_refs(gs, at(b, 5)) =~= seq![ParentRef::Gate(at(b, 3)), ParentRef::Gate(at(b, 4))]);
    assert(input_refs(u.inputs, at(b, 6)) =~= seq![ParentRef::Input(sn('A', 1))]);
    assert(gate_refs(gs, at(b, 6)) =~= Seq::<ParentRef>::empty());
}

/// What drives the last six gates of the cell.
#[verifier::spinoff_prover]
#[verifier::rlimit(80)]
proof fn lemma_cond_plus_3_drivers_high(u: UnitModel, b: int)
    requires
        is_cond_plus_3(u, b),
    ensures
        parents_of(u, at(b, 7)) == seq![ParentRef::Gate(at(b, 5)), ParentRef::Gate(at(b, 6))],
        parents_of(u, at(b, 8)) == seq![ParentRef::Gate(at(b, 3)), ParentRef::Gate(at(b, 7))],
        parents_of(u, at(b, 9)) == seq![ParentRef::Input(sn('A', 2)), ParentRef::Gate(at(b, 8))],
        parents_of(u, at(b, 10)) == seq![ParentRef::Input(sn('A', 2)), ParentRef::Gate(at(b, 8))],
        parents_of(u, at(b, 11)) == seq![ParentRef::Input(sn('A', 1)), ParentRef::Gate(at(b, 5))],
        parents_of(u, at(b, 12)) == seq![ParentRef::Input(sn('A', 3)), ParentRef::Gate(at(b, 9))],
{
    let gs = u.gates;
    assert forall|k: int| 0 <= k < 12 implies #[trigger] gs[k].id == b + 1 + k && gs[k].children
        == cond_plus_3_gates(b)[k].children by {
        assert(gs[k] == (GateModel { active: gs[k].active, ..cond_plus_3_gates(b)[k] }));
    }
    reveal_with_fuel(input_refs, 5);
    reveal_with_fuel(gate_refs, 13);
    reveal_with_fuel(ids_refs, 4);
    assert(input_refs(u.inputs, at(b, 7)) =~= Seq::<ParentRef>::empty());
    assert(gate_refs(gs, at(b, 7)) =~= seq![ParentRef::Gate(at(b, 5)), ParentRef::Gate(at(b, 6))]);
    assert(input_refs(u.inputs, at(b, 8)) =~= Seq::<ParentRef>::empty());
    assert(gate_refs(gs, at(b, 8)) =~= seq![ParentRef::Gate(at(b, 3)), ParentRef::Gate(at(b, 7))]);
    assert(input_refs(u.inputs, at(b, 9)) =~= seq![ParentRef::Input(sn('A', 2))]);
    assert(gate_refs(gs, at(b, 9)) =~= seq![ParentRef::Gate(at(b, 8))]);
    assert(input_refs(u.inputs, at(b, 10)) =~= seq![ParentRef::Input(sn('A', 2))]);
    assert(gate_refs(gs, at(b, 10)) =~= seq![ParentRef::Gate(at(b, 8))]);
    assert(input_refs(u.inputs, at(b, 11)) =~= seq![ParentRef::Input(sn('A', 1))]);
    assert(gate_refs(gs, at(b, 11)) =~= seq![ParentRef::Gate(at(b, 5))]);
    assert(input_refs(u.inputs, at(b, 12)) =~= seq![ParentRef::Input(sn('A', 3))]);
    assert(gate_refs(gs, at(b, 12)) =~= seq![ParentRef::Gate(at(b, 9))]);
}

/// The inputs hold `a0 .. a3` on `A0 .. A3`.
pub open spec fn cell_inputs_hold(ins: Seq<(SignalName, bool, Vec<Id>)>, a0: bool, a1: bool, a2: bool, a3: bool) -> bool {
    &&& emu_input_value(ins, SignalName('A', 0)) == a0
    &&& emu_input_value(ins, SignalName('A', 1)) == a1
    &&& emu_input_value(ins, SignalName('A', 2)) == a2
    &&& emu_input_value(ins, SignalName('A', 3)) == a3
}

/// The value one tick gives gate `k` of the cell: its mode applied to what drives it.
proof fn lemma_cond_plus_3_gate_tick(u: UnitModel, b: int, ins: Seq<(SignalName, bool, Vec<Id>)>, k: int)
    requires
        is_cond_plus_3(u, b),
        0 <= k < 12,
    ensures
        tick_model(u, ins).gates[k].active == gate_output(
            u.gates[k].mode,
            parents_of(u, at(b, k + 1)).map_values(|r: ParentRef| ref_value(u.gates, ins, r)),
        ),
{
    assert(u.gates[k] == (GateModel { active: u.gates[k].active, ..cond_plus_3_gates(b)[k] }));
}

/// Where each gate of the cell sits.
proof fn lemma_cond_plus_3_first(u: UnitModel, b: int)
    requires
        is_cond_plus_3(u, b),
    ensures
        forall|k: int| 1 <= k <= 12 ==> first_gate(u.gates, #[trigger] at(b, k)) == k - 1,
{
    let gs = u.gates;
    assert forall|k: int| 0 <= k < 12 implies #[trigger] gs[k].id == at(b, k + 1) by {
        assert(gs[k] == (GateModel { active: gs[k].active, ..cond_plus_3_gates(b)[k] }));
    }
    assert forall|k: int| 1 <= k <= 12 implies first_gate(gs, #[trigger] at(b, k)) == k - 1 by {
        assert forall|j: int| 0 <= j < k - 1 implies gs[j].id != at(b, k) by {
            assert(gs[j].id == at(b, j + 1));
        }
        assert(gs[k - 1].id == at(b, k - 1 + 1));
        lemma_first_gate(gs, at(b, k), k - 1);
    }
}

/// One tick of the first six gates of the cell: `or1 = A0 or A1`, `and1 = A2 and or1`,
/// `or2 = A3 or and1`, `xor1 = A0 xor or2`, `and2 = or2 and xor1`, `not = not A1`.
#[verifier::spinoff_prover]
proof fn lemma_cond_plus_3_tick_low(
    u: UnitModel,
    b: int,
    ins: Seq<(SignalName, bool, Vec<Id>)>,
    a0: bool,
    a1: bool,
    a2: bool,
    a3: bool,
)
    requires
        is_cond_plus_3(u, b),
        cell_inputs_hold(ins, a0, a1, a2, a3),
    ensures
        ({
            let t = tick_model(u, ins).gates;
            let g = u.gates;
            &&& t[0].active == (a0 || a1)
            &&& t[1].active == (a2 && g[0].active)
            &&& t[2].active == (a3 || g[1].active)
            &&& t[3].active == (a0 != g[2].active)
            &&& t[4].active == (g[2].active && g[3].active)
            &&& t[5].active == !a1
        }),
{
    let gs = u.gates;
    lemma_cond_plus_3_drivers_low(u, b);
    lemma_cond_plus_3_first(u, b);
    assert(first_gate(gs, at(b, 1)) == 0);
    assert(first_gate(gs, at(b, 2)) == 1);
    assert(first_gate(gs, at(b, 3)) == 2);
    assert(first_gate(gs, at(b, 4)) == 3);
    let vals = |x: Id| parents_of(u, x).map_values(|r: ParentRef| ref_value(gs, ins, r));
    let g = |k: int| gs[k].active;
    assert(vals(at(b, 1)) =~= seq![a0, a1]);
    assert(vals(at(b, 2)) =~= seq![a2, g(0)]);
    assert(vals(at(b, 3)) =~= seq![a3, g(1)]);
    assert(vals(at(b, 4)) =~= seq![a0, g(2)]);
    assert(vals(at(b, 5)) =~= seq![g(2), g(3)]);
    assert(vals(at(b, 6)) =~= seq![a1]);
    lemma_cond_plus_3_gate_tick(u, b, ins, 0);
    lemma_cond_plus_3_gate_tick(u, b, ins, 1);
    lemma_cond_plus_3_gate_tick(u, b, ins, 2);
    lemma_cond_plus_3_gate_tick(u, b, ins, 3);
    lemma_cond_plus_3_gate_tick(u, b, ins, 4);
    lemma_cond_plus_3_gate_tick(u, b, ins, 5);
    lemma_two_values(gs[0].mode, a0, a1);
    lemma_two_values(gs[1].mode, a2, g(0));
    lemma_two_values(gs[2].mode, a3, g(1));
    lemma_two_values(gs[3].mode, a0, g(2));
    lemma_two_values(gs[4].mode, g(2), g(3));
    assert(all_true(seq![a1]) == a1) by {
        if !a1 {
            assert(!seq![a1][0]);
        }
    }
    assert(gs[5] == (GateModel { active: gs[5].active, ..cond_plus_3_gates(b)[5] }));
}

/// One tick of the last six gates of the cell: `and3 = and2 and not`, `xor2 = or2 xor and3`,
/// `ha_c = A2 and xor2`, `ha_s = A2 xor xor2`, `xor3 = A1 xor and2`, `xor4 = A3 xor ha_c`.
#[verifier::spinoff_prover]
proof fn lemma_cond_plus_3_tick_high(
    u: UnitModel,
    b: int,
    ins: Seq<(SignalName, bool, Vec<Id>)>,
    a0: bool,
    a1: bool,
    a2: bool,
    a3: bool,
)
    requires
        is_cond_plus_3(u, b),
        cell_inputs_hold(ins, a0, a1, a2, a3),
    ensures
        ({
            let t = tick_model(u, ins).gates;
            let g = u.gates;
            &&& t[6].active == (g[4].active && g[5].active)
            &&& t[7].active == (g[2].active != g[6].active)
            &&& t[8].active == (a2 && g[7].active)
            &&& t[9].active == (a2 != g[7].active)
            &&& t[10].active == (a1 != g[4].active)
            &&& t[11].active == (a3 != g[8].active)
        }),
{
    let gs = u.gates;
    lemma_cond_plus_3_drivers_high(u, b);
    lemma_cond_plus_3_first(u, b);
    assert(first_gate(gs, at(b, 3)) == 2);
    assert(first_gate(gs, at(b, 5)) == 4);
    assert(first_gate(gs, at(b, 6)) == 5);
    assert(first_gate(gs, at(b, 7)) == 6);
    assert(first_gate(gs, at(b, 8)) == 7);
    assert(first_gate(gs, at(b, 9)) == 8);
    let vals = |x: Id| parents_of(u, x).map_values(|r: ParentRef| ref_value(gs, ins, r));
    let g = |k: int| gs[k].active;
    assert(vals(at(b, 7)) =~= seq![g(4), g(5)]);
    assert(vals(at(b, 8)) =~= seq![g(2), g(6)]);
    assert(vals(at(b, 9)) =~= seq![a2, g(7)]);
    assert(vals(at(b, 10)) =~= seq![a2, g(7)]);
    assert(vals(at(b, 11)) =~= seq![a1, g(4)]);
    assert(vals(at(b, 12)) =~= seq![a3, g(8)]);
    lemma_cond_plus_3_gate_tick(u, b, ins, 6);
    lemma_cond_plus_3_gate_tick(u, b, ins, 7);
    lemma_cond_plus_3_gate_tick(u, b, ins, 8);
    lemma_cond_plus_3_gate_tick(u, b, ins, 9);
    lemma_cond_plus_3_gate_tick(u, b, ins, 10);
    lemma_cond_plus_3_gate_tick(u, b, ins, 11);
    assert forall|k: int| 6 <= k < 12 implies #[trigger] gs[k].mode == cond_plus_3_gates(b)[k].mode by {
        assert(gs[k] == (GateModel { active: gs[k].active, ..cond_plus_3_gates(b)[k] }));
    }
    lemma_two_values(gs[6].mode, g(4), g(5));
    lemma_two_values(gs[7].mode, g(2), g(6));
    lemma_two_values(gs[8].mode, a2, g(7));
    lemma_two_values(gs[9].mode, a2, g(7));
    lemma_two_values(gs[10].mode, a1, g(4));
    lemma_two_values(gs[11].mode, a3, g(8));
}

/// A tick keeps the cell's layout.
proof fn lemma_cond_plus_3_tick_shape(u: UnitModel, b: int, ins: Seq<(SignalName, bool, Vec<Id>)>)
    requires
        is_cond_plus_3(u, b),
    ensures
        is_cond_plus_3(tick_model(u, ins), b),
{
    let t = tick_model(u, ins);
    let gs = u.gates;
    assert forall|k: int| 0 <= k < 12 implies #[trigger] t.gates[k] == (GateModel {
        active: t.gates[k].active,
        ..cond_plus_3_gates(b)[k]
    }) by {
        assert(gs[k] == (GateModel { active: gs[k].active, ..cond_plus_3_gates(b)[k] }));
    }
}

/// The number the outputs `Q0 .. Q3` of the cell spell, bit 0 lowest.
pub open spec fn cell_number(u: UnitModel) -> int {
    (if u.gates[3].active { 1int } else { 0 }) + (if u.gates[10].active { 2int } else { 0 }) + (if u.gates[9].active {
        4int
    } else {
        0
    }) + (if u.gates[11].active { 8int } else { 0 })
}

/// One tick of the cell, all at once.
proof fn lemma_cond_plus_3_step(
    u: UnitModel,
    b: int,
    ins: Seq<(SignalName, bool, Vec<Id>)>,
    a0: bool,
    a1: bool,
    a2: bool,
    a3: bool,
)
    requires
        is_cond_plus_3(u, b),
        cell_inputs_hold(ins, a0, a1, a2, a3),
    ensures
        ({
            let t = tick_model(u, ins).gates;
            let g = u.gates;
            &&& is_cond_plus_3(tick_model(u, ins), b)
            &&& t[0].active == (a0 || a1)
            &&& t[1].active == (a2 && g[0].active)
            &&& t[2].active == (a3 || g[1].active)
            &&& t[3].active == (a0 != g[2].active)
            &&& t[4].active == (g[2].active && g[3].active)
            &&& t[5].active == !a1
            &&& t[6].active == (g[4].active && g[5].active)
            &&& t[7].active == (g[2].active != g[6].active)
            &&& t[8].active == (a2 && g[7].active)
            &&& t[9].active == (a2 != g[7].active)
            &&& t[10].active == (a1 != g[4].active)
            &&& t[11].active == (a3 != g[8].active)
        }),
{
    lemma_cond_plus_3_tick_low(u, b, ins, a0, a1, a2, a3);
    lemma_cond_plus_3_tick_high(u, b, ins, a0, a1, a2, a3);
    lemma_cond_plus_3_tick_shape(u, b, ins);
}

/// Whether the input is at least 5: `A3 or (A2 and (A1 or A0))`.
pub open spec fn at_least_5(a0: bool, a1: bool, a2: bool, a3: bool) -> bool {
    a3 || (a2 && (a0 || a1))
}

/// After `n` ticks, the gates of the cell that have had the time hold their final values.
pub open spec fn cell_settled(g: Seq<GateModel>, a0: bool, a1: bool, a2: bool, a3: bool, n: int) -> bool {
    let c = at_least_5(a0, a1, a2, a3);
    let and2 = c && (a0 != c);
    let and3 = and2 && !a1;
    let xor2 = c != and3;
    &&& n >= 1 ==> g[0].active == (a0 || a1) && g[5].active == !a1
    &&& n >= 2 ==> g[1].active == (a2 && (a0 || a1))
    &&& n >= 3 ==> g[2].active == c
    &&& n >= 4 ==> g[3].active == (a0 != c)
    &&& n >= 5 ==> g[4].active == and2
    &&& n >= 6 ==> g[6].active == and3 && g[10].active == (a1 != and2)
    &&& n >= 7 ==> g[7].active == xor2
    &&& n >= 8 ==> g[8].active == (a2 && xor2) && g[9].active == (a2 != xor2)
    &&& n >= 9 ==> g[11].active == (a3 != (a2 && xor2))
}

/// After `n` ticks the cell is settled as far as `n` allows.
proof fn lemma_cond_plus_3_run(
    u: UnitModel,
    b: int,
    ins: Seq<(SignalName, bool, Vec<Id>)>,
    a0: bool,
    a1: bool,
    a2: bool,
    a3: bool,
    n: nat,
)
    requires
        is_cond_plus_3(u, b),
        cell_inputs_hold(ins, a0, a1, a2, a3),
    ensures
        is_cond_plus_3(ticks(u, ins, n), b),
        cell_settled(ticks(u, ins, n).gates, a0, a1, a2, a3, n as int),
    decreases n,
{
    if n > 0 {
        lemma_cond_plus_3_run(u, b, ins, a0, a1, a2, a3, (n - 1) as nat);
        lemma_cond_plus_3_step(ticks(u, ins, (n - 1) as nat), b, ins, a0, a1, a2, a3);
    }
}

/// The double-dabble cell adds 3 when its input is at least 5: with `A0 .. A3` held at
/// `a`, after nine ticks, whatever state its gates started in, outputs `Q0 .. Q3` spell
/// `a + 3` (modulo 16) when `a >= 5`, and `a` otherwise.
pub proof fn law_cond_plus_3_adds(
    u: UnitModel,
    b: int,
    ins: Seq<(SignalName, bool, Vec<Id>)>,
    a0: bool,
    a1: bool,
    a2: bool,
    a3: bool,
)
    requires
        is_cond_plus_3(u, b),
        cell_inputs_hold(ins, a0, a1, a2, a3),
    ensures
        ({
            let u9 = ticks(u, ins, 9);
            let a = (if a0 { 1int } else { 0 }) + (if a1 { 2int } else { 0 }) + (if a2 { 4int } else { 0 }) + (if a3 {
                8int
            } else {
                0
            });
            &&& is_cond_plus_3(u9, b)
            &&& u9.outputs[0].id == u9.gates[3].id && u9.outputs[0].name == SignalName('Q', 0)
            &&& u9.outputs[2].id == u9.gates[10].id && u9.outputs[2].name == SignalName('Q', 1)
            &&& u9.outputs[1].id == u9.gates[9].id && u9.outputs[1].name == SignalName('Q', 2)
            &&& u9.outputs[3].id == u9.gates[11].id && u9.outputs[3].name == SignalName('Q', 3)
            &&& cell_number(u9) == if a >= 5 {
                (a + 3) % 16
            } else {
                a
            }
        }),
{
    lemma_cond_plus_3_run(u, b, ins, a0, a1, a2, a3, 9);
    let u9 = ticks(u, ins, 9);
    assert(u9.gates[3] == (GateModel { active: u9.gates[3].active, ..cond_plus_3_gates(b)[3] }));
    assert(u9.gates[9] == (GateModel { active: u9.gates[9].active, ..cond_plus_3_gates(b)[9] }));
    assert(u9.gates[10] == (GateModel { active: u9.gates[10].active, ..cond_plus_3_gates(b)[10] }));
    assert(u9.gates[11] == (GateModel { active: u9.gates[11].active, ..cond_plus_3_gates(b)[11] }));
}

// ---------------------------------------------------------------------------
// The seven cells of the eight-bit converter, as numbers

/// What a double-dabble cell gives for the number `a` its inputs spell: `a + 3` (modulo
/// 16) when `a >= 5`, else `a` (see `law_cond_plus_3_adds`).
pub open spec fn plus3(a: int) -> int {
    if a >= 5 {
        (a + 3) % 16
    } else {
        a
    }
}

/// The ones, tens and hundreds that seven cells, each giving `plus3` of the number on its
/// inputs, give for the byte `v` when chained this way: cells 0 to 4 take bits 5, 4, 3, 2,
/// 1 of `v` as their lowest input bit and the three low outputs of the cell before as the
/// bits above (cell 0 takes bits 5, 6, 7); cell 5 takes the high outputs of cells 2, 1, 0;
/// cell 6 takes the high output of cell 3 and the three low outputs of cell 5. The ones are
/// bit 0 of `v` and the low outputs of cell 4, the tens the high output of cell 4 and the
/// low outputs of cell 6, the hundreds the high outputs of cells 6 and 5. This is the
/// arithmetic of the double-dabble scheme; the tick-by-tick behaviour of the gates of
/// `bin2bcd8b` is not part of it.
pub open spec fn cells_digits(v: int) -> (int, int, int) {
    let q0 = plus3(v / 32);
    let q1 = plus3((v / 16) % 2 + 2 * (q0 % 8));
    let q2 = plus3((v / 8) % 2 + 2 * (q1 % 8));
    let q3 = plus3((v / 4) % 2 + 2 * (q2 % 8));
    let q4 = plus3((v / 2) % 2 + 2 * (q3 % 8));
    let q5 = plus3(q2 / 8 + 2 * (q1 / 8) + 4 * (q0 / 8));
    let q6 = plus3(q3 / 8 + 2 * (q5 % 8));
    (v % 2 + 2 * (q4 % 8), q4 / 8 + 2 * (q6 % 8), q6 / 8 + 2 * (q5 / 8))
}

/// One cell on a decimal digit `d` with the next bit `c` shifted in: the three low
/// outputs, shifted, with `c` are the new digit, and the high output is the carry.
proof fn lemma_plus3_digit(d: int, c: int)
    requires
        0 <= d <= 9,
        0 <= c <= 1,
    ensures
        2 * (plus3(d) % 8) + c == (2 * d + c) % 10,
        plus3(d) / 8 == (2 * d + c) / 10,
        0 <= plus3(d) < 16,
{
    if d == 0 {
    } else if d == 1 {
    } else if d == 2 {
    } else if d == 3 {
    } else if d == 4 {
    } else if d == 5 {
    } else if d == 6 {
    } else if d == 7 {
    } else if d == 8 {
    } else {
    }
}

/// Shifting the bit `c` into `p` through a cell on the last decimal digit of `p`: the
/// cell's three low outputs, shifted, with `c` are the new last digit, and its high output
/// is carried into the digits above.
proof fn lemma_shift_digit(p: int, c: int)
    requires
        0 <= p,
        0 <= c <= 1,
    ensures
        c + 2 * (plus3(p % 10) % 8) == (2 * p + c) % 10,
        (2 * p + c) / 10 == 2 * (p / 10) + plus3(p % 10) / 8,
{
    let d = p % 10;
    lemma_plus3_digit(d, c);
    let e = 2 * d + c;
    assert(2 * p + c == 10 * (2 * (p / 10)) + e) by (nonlinear_arith)
        requires
            d == p % 10,
            e == 2 * d + c,
    ;
    assert((2 * p + c) % 10 == e % 10 && (2 * p + c) / 10 == 2 * (p / 10) + e / 10) by (nonlinear_arith)
        requires
            2 * p + c == 10 * (2 * (p / 10)) + e,
            0 <= e < 20,
            p >= 0,
    ;
}

/// The double-dabble arithmetic of `cells_digits` gives the decimal digits: for every
/// byte `v`, the ones are `v % 10`, the tens `(v / 10) % 10` and the hundreds `v / 100`.
pub proof fn law_bcd_cells_convert(v: int)
    requires
        0 <= v < 256,
    ensures
        cells_digits(v) == (v % 10, (v / 10) % 10, v / 100),
{
    let p5 = v / 32;
    let p4 = v / 16;
    let p3 = v / 8;
    let p2 = v / 4;
    let p1 = v / 2;
    assert(p4 == 2 * p5 + (v / 16) % 2);
    assert(p3 == 2 * p4 + (v / 8) % 2);
    assert(p2 == 2 * p3 + (v / 4) % 2);
    assert(p1 == 2 * p2 + (v / 2) % 2);
    assert(v == 2 * p1 + v % 2);
    assert(p5 % 10 == p5 && p5 / 10 == 0);
    lemma_shift_digit(p5, (v / 16) % 2);
    lemma_shift_digit(p4, (v / 8) % 2);
    lemma_shift_digit(p3, (v / 4) % 2);
    lemma_shift_digit(p2, (v / 2) % 2);
    lemma_shift_digit(p1, v % 2);
    let q0 = plus3(p5);
    let q1 = plus3(p4 % 10);
    let q2 = plus3(p3 % 10);
    let q3 = plus3(p2 % 10);
    let q4 = plus3(p1 % 10);
    let t2 = p2 / 10;
    assert(t2 == q2 / 8 + 2 * (q1 / 8) + 4 * (q0 / 8));
    assert(t2 % 10 == t2 && t2 / 10 == 0);
    lemma_shift_digit(t2, q3 / 8);
    let q5 = plus3(t2);
    assert(p1 / 10 == 2 * t2 + q3 / 8);
    let t1 = p1 / 10;
    lemma_shift_digit(t1, q4 / 8);
    assert(t1 / 10 == q5 / 8);
    assert(v / 10 == 2 * t1 + q4 / 8);
    assert((v / 10) / 10 == v / 100);
}

} // verus!
