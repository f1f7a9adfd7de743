use vstd::prelude::*;

use crate::adder_law::ticks;
use crate::emulator::{emu_input_value, gate_refs, input_refs, parents_of, ref_value, ParentRef};
use crate::laws::tick_model;
use crate::logic::{
    at, dff_1tick_gates, dff_1tick_inputs, dff_gates, dff_inputs, inp, outp, reg_1b_gates, reg_1b_inputs, sn,
    sr_latch_gates,
};
use crate::logic_gate::{all_true, any_true, gate_output, parity, GateModel};
use crate::logic_unit::{lemma_first_gate, UnitModel};
use crate::emulator::ids_refs;
use crate::utils::{Id, SignalName};

verus! {

/// The unit is a one-bit register built after id `b`, its gates in any state.
pub open spec fn is_reg_1b(u: UnitModel, b: int) -> bool {
    &&& 0 <= b
    &&& b + 7 <= u32::MAX
    &&& u.inputs == reg_1b_inputs(b)
    &&& u.outputs == seq![outp(sn('O', 0), b + 1)]
    &&& u.gates.len() == 7
    &&& forall|k: int|
        0 <= k < 7 ==> #[trigger] u.gates[k] == (GateModel { active: u.gates[k].active, ..reg_1b_gates(b)[k] })
}

/// The inputs hold `i` on `I` and `w` on `W`.
pub open spec fn reg_inputs_hold(ins: Seq<(SignalName, bool, Vec<Id>)>, i: bool, w: bool) -> bool {
    &&& emu_input_value(ins, SignalName('I', 0)) == i
    &&& emu_input_value(ins, SignalName('W', 0)) == w
}

/// The register stores `v`: its output is `v` and its feedback loop keeps it so.
pub open spec fn reg_stores(u: UnitModel, v: bool) -> bool {
    &&& u.gates[0].active == v
    &&& u.gates[1].active == !v
    &&& u.gates[2].active == !v
    &&& u.gates[3].active == v
    &&& (v ==> u.gates[4].active)
    &&& (!v ==> u.gates[5].active)
}

/// A value is `true` when all of one value is.
proof fn lemma_all_one(x: bool)
    ensures
        all_true(seq![x]) == x,
{
    if !x {
        assert(!seq![x][0]);
    }
}

/// Two values are all `true` when both are.
proof fn lemma_all_two(x: bool, y: bool)
    ensures
        all_true(seq![x, y]) == (x && y),
{
    if !x {
        assert(!seq![x, y][0]);
    } else if !y {
        assert(!seq![x, y][1]);
    }
}

/// One tick of a one-bit register: `nand1 = not (h1 and nand4)`, `nand2 = not (h2 and nand3)`,
/// `h1 = nand2`, `h2 = nand1`, `nand3 = not (W and not)`, `nand4 = not (I and W)`,
/// `not = not I`, each from the values before the tick.
#[verifier::spinoff_prover]
proof fn lemma_reg_1b_tick(u: UnitModel, b: int, ins: Seq<(SignalName, bool, Vec<Id>)>, i: bool, w: bool)
    requires
        is_reg_1b(u, b),
        reg_inputs_hold(ins, i, w),
    ensures
        is_reg_1b(tick_model(u, ins), b),
        tick_model(u, ins).gates[0].active == !(u.gates[2].active && u.gates[5].active),
        tick_model(u, ins).gates[1].active == !(u.gates[3].active && u.gates[4].active),
        tick_model(u, ins).gates[2].active == u.gates[1].active,
        tick_model(u, ins).gates[3].active == u.gates[0].active,
        tick_model(u, ins).gates[4].active == !(w && u.gates[6].active),
        tick_model(u, ins).gates[5].active == !(i && w),
        tick_model(u, ins).gates[6].active == !i,
{
    let t = tick_model(u, ins);
    let gs = u.gates;
    let ii = ParentRef::Input(SignalName('I', 0));
    let iw = ParentRef::Input(SignalName('W', 0));
    reveal_with_fuel(input_refs, 3);
    reveal_with_fuel(gate_refs, 8);
    reveal_with_fuel(ids_refs, 3);
    assert forall|k: int| 0 <= k < 7 implies #[trigger] gs[k].id == b + 1 + k && gs[k].mode == reg_1b_gates(b)[k].mode
        && gs[k].children == reg_1b_gates(b)[k].children by {
        assert(gs[k] == (GateModel { active: gs[k].active, ..reg_1b_gates(b)[k] }));
    }
    // what drives each gate
    assert(input_refs(u.inputs, at(b, 1)) =~= Seq::<ParentRef>::empty());
    assert(gate_refs(gs, at(b, 1)) =~= seq![ParentRef::Gate(at(b, 3)), ParentRef::Gate(at(b, 6))]);
    assert(input_refs(u.inputs, at(b, 2)) =~= Seq::<ParentRef>::empty());
    assert(gate_refs(gs, at(b, 2)) =~= seq![ParentRef::Gate(at(b, 4)), ParentRef::Gate(at(b, 5))]);
    assert(input_refs(u.inputs, at(b, 3)) =~= Seq::<ParentRef>::empty());
    assert(gate_refs(gs, at(b, 3)) =~= seq![ParentRef::Gate(at(b, 2))]);
    assert(input_refs(u.inputs, at(b, 4)) =~= Seq::<ParentRef>::empty());
    assert(gate_refs(gs, at(b, 4)) =~= seq![ParentRef::Gate(at(b, 1))]);
    assert(input_refs(u.inputs, at(b, 5)) =~= seq![iw]);
    assert(gate_refs(gs, at(b, 5)) =~= seq![ParentRef::Gate(at(b, 7))]);
    assert(input_refs(u.inputs, at(b, 6)) =~= seq![ii, iw]);
    assert(gate_refs(gs, at(b, 6)) =~= Seq::<ParentRef>::empty());
    assert(input_refs(u.inputs, at(b, 7)) =~= seq![ii]);
    assert(gate_refs(gs, at(b, 7)) =~= Seq::<ParentRef>::empty());
    // where each driving gate sits
    lemma_first_gate(gs, at(b, 1), 0);
    lemma_first_gate(gs, at(b, 2), 1);
    lemma_first_gate(gs, at(b, 3), 2);
    lemma_first_gate(gs, at(b, 4), 3);
    lemma_first_gate(gs, at(b, 5), 4);
    lemma_first_gate(gs, at(b, 6), 5);
    lemma_first_gate(gs, at(b, 7), 6);
    let vals = |x: Id| parents_of(u, x).map_values(|r: ParentRef| ref_value(gs, ins, r));
    assert(vals(at(b, 1)) =~= seq![gs[2].active, gs[5].active]);
    assert(vals(at(b, 2)) =~= seq![gs[3].active, gs[4].active]);
    assert(vals(at(b, 3)) =~= seq![gs[1].active]);
    assert(vals(at(b, 4)) =~= seq![gs[0].active]);
    assert(vals(at(b, 5)) =~= seq![w, gs[6].active]);
    assert(vals(at(b, 6)) =~= seq![i, w]);
    assert(vals(at(b, 7)) =~= seq![i]);
    assert(t.gates[0].active == gate_output(gs[0].mode, vals(at(b, 1))));
    assert(t.gates[1].active == gate_output(gs[1].mode, vals(at(b, 2))));
    assert(t.gates[2].active == gate_output(gs[2].mode, vals(at(b, 3))));
    assert(t.gates[3].active == gate_output(gs[3].mode, vals(at(b, 4))));
    assert(t.gates[4].active == gate_output(gs[4].mode, vals(at(b, 5))));
    assert(t.gates[5].active == gate_output(gs[5].mode, vals(at(b, 6))));
    assert(t.gates[6].active == gate_output(gs[6].mode, vals(at(b, 7))));
    lemma_all_two(gs[2].active, gs[5].active);
    lemma_all_two(gs[3].active, gs[4].active);
    lemma_all_one(gs[1].active);
    lemma_all_one(gs[0].active);
    lemma_all_two(w, gs[6].active);
    lemma_all_two(i, w);
    lemma_all_one(i);
    assert forall|k: int| 0 <= k < 7 implies #[trigger] t.gates[k] == (GateModel {
        active: t.gates[k].active,
        ..reg_1b_gates(b)[k]
    }) by {
        assert(gs[k] == (GateModel { active: gs[k].active, ..reg_1b_gates(b)[k] }));
    }
}

/// The register stores `v` while `v` is being written: `nand4` and `not` also follow `I`.
pub open spec fn reg_written(u: UnitModel, v: bool) -> bool {
    &&& reg_stores(u, v)
    &&& u.gates[5].active == !v
    &&& u.gates[6].active == !v
}

/// Six ticks with `W` on and `I` held at `v` leave the register storing `v`, whatever
/// state its gates started in.
proof fn lemma_reg_1b_write_settles(u: UnitModel, b: int, ins: Seq<(SignalName, bool, Vec<Id>)>, v: bool)
    requires
        is_reg_1b(u, b),
        reg_inputs_hold(ins, v, true),
    ensures
        is_reg_1b(ticks(u, ins, 6), b),
        reg_written(ticks(u, ins, 6), v),
{
    let u1 = ticks(u, ins, 1);
    let u2 = ticks(u, ins, 2);
    let u3 = ticks(u, ins, 3);
    let u4 = ticks(u, ins, 4);
    let u5 = ticks(u, ins, 5);
    assert(ticks(u, ins, 0) == u);
    lemma_reg_1b_tick(u, b, ins, v, true);
    lemma_reg_1b_tick(u1, b, ins, v, true);
    lemma_reg_1b_tick(u2, b, ins, v, true);
    lemma_reg_1b_tick(u3, b, ins, v, true);
    lemma_reg_1b_tick(u4, b, ins, v, true);
    lemma_reg_1b_tick(u5, b, ins, v, true);
}

/// Further ticks with `W` on and `I` at `v` keep `v` written.
proof fn lemma_reg_1b_write_keeps_n(u: UnitModel, b: int, ins: Seq<(SignalName, bool, Vec<Id>)>, v: bool, n: nat)
    requires
        is_reg_1b(u, b),
        reg_written(u, v),
        reg_inputs_hold(ins, v, true),
    ensures
        is_reg_1b(ticks(u, ins, n), b),
        reg_written(ticks(u, ins, n), v),
    decreases n,
{
    if n > 0 {
        lemma_reg_1b_write_keeps_n(u, b, ins, v, (n - 1) as nat);
        lemma_reg_1b_tick(ticks(u, ins, (n - 1) as nat), b, ins, v, true);
    }
}

/// A stored value stays for any number of ticks in which `W` is off.
proof fn lemma_reg_1b_keeps_n(u: UnitModel, b: int, ins: Seq<(SignalName, bool, Vec<Id>)>, v: bool, i: bool, n: nat)
    requires
        is_reg_1b(u, b),
        reg_stores(u, v),
        reg_inputs_hold(ins, i, false),
    ensures
        is_reg_1b(ticks(u, ins, n), b),
        reg_stores(ticks(u, ins, n), v),
    decreases n,
{
    if n > 0 {
        lemma_reg_1b_keeps_n(u, b, ins, v, i, (n - 1) as nat);
        lemma_reg_1b_tick(ticks(u, ins, (n - 1) as nat), b, ins, i, false);
    }
}

/// `m` ticks after `n` ticks are `n + m` ticks.
proof fn lemma_ticks_add(u: UnitModel, ins: Seq<(SignalName, bool, Vec<Id>)>, n: nat, m: nat)
    ensures
        ticks(ticks(u, ins, n), ins, m) == ticks(u, ins, n + m),
    decreases m,
{
    if m > 0 {
        lemma_ticks_add(u, ins, n, (m - 1) as nat);
    }
}

/// A one-bit register is written: with `W` on and `I` held at `v`, after six ticks or
/// more, whatever state its gates started in, it stores `v` and its output `O` is `v`.
pub proof fn law_reg_1b_writes(u: UnitModel, b: int, ins: Seq<(SignalName, bool, Vec<Id>)>, v: bool, n: nat)
    requires
        is_reg_1b(u, b),
        reg_inputs_hold(ins, v, true),
        n >= 6,
    ensures
        ({
            let un = ticks(u, ins, n);
            &&& is_reg_1b(un, b)
            &&& reg_stores(un, v)
            &&& un.gates[0].id == un.outputs[0].id && un.outputs[0].name == SignalName('O', 0)
            &&& un.gates[0].active == v
        }),
{
    lemma_reg_1b_write_settles(u, b, ins, v);
    lemma_reg_1b_write_keeps_n(ticks(u, ins, 6), b, ins, v, (n - 6) as nat);
    lemma_ticks_add(u, ins, 6, (n - 6) as nat);
    let un = ticks(u, ins, n);
    assert(un.gates[0] == (GateModel { active: un.gates[0].active, ..reg_1b_gates(b)[0] }));
}

/// A one-bit register holds: once it stores `v`, for any number of ticks with `W` off,
/// whatever `I` is, it still stores `v` and its output `O` stays `v`.
pub proof fn law_reg_1b_holds(u: UnitModel, b: int, ins: Seq<(SignalName, bool, Vec<Id>)>, v: bool, i: bool, n: nat)
    requires
        is_reg_1b(u, b),
        reg_stores(u, v),
        reg_inputs_hold(ins, i, false),
    ensures
        ({
            let un = ticks(u, ins, n);
            &&& is_reg_1b(un, b)
            &&& reg_stores(un, v)
            &&& un.gates[0].id == un.outputs[0].id && un.outputs[0].name == SignalName('O', 0)
            &&& un.gates[0].active == v
        }),
{
    lemma_reg_1b_keeps_n(u, b, ins, v, i, n);
    let un = ticks(u, ins, n);
    assert(un.gates[0] == (GateModel { active: un.gates[0].active, ..reg_1b_gates(b)[0] }));
}

// ---------------------------------------------------------------------------
// D flip-flop

/// The unit is a D flip-flop built after id `b`, its gates in any state.
pub open spec fn is_dff(u: UnitModel, b: int) -> bool {
    &&& 0 <= b
    &&& b + 6 <= u32::MAX
    &&& u.inputs == dff_inputs(b)
    &&& u.outputs == seq![outp(sn('Q', 0), b + 1)]
    &&& u.gates.len() == 6
    &&& forall|k: int|
        0 <= k < 6 ==> #[trigger] u.gates[k] == (GateModel { active: u.gates[k].active, ..dff_gates(b)[k] })
}

/// The inputs hold `d` on `D` and `c` on `C`.
pub open spec fn dff_inputs_hold(ins: Seq<(SignalName, bool, Vec<Id>)>, d: bool, c: bool) -> bool {
    &&& emu_input_value(ins, SignalName('D', 0)) == d
    &&& emu_input_value(ins, SignalName('C', 0)) == c
}

/// The flip-flop stores `v`: its output is `v` and its feedback loop keeps it so.
pub open spec fn dff_stores(u: UnitModel, v: bool) -> bool {
    &&& u.gates[0].active == v
    &&& u.gates[4].active == v
    &&& u.gates[1].active == !v
    &&& (!v ==> u.gates[2].active)
    &&& (v ==> u.gates[3].active)
}

/// The flip-flop stores `v` while `v` is being clocked in.
pub open spec fn dff_written(u: UnitModel, v: bool) -> bool {
    &&& dff_stores(u, v)
    &&& u.gates[2].active == !v
    &&& u.gates[3].active == v
    &&& u.gates[5].active == !v
}

/// One tick of a D flip-flop: `nand1 = not (nand2 and nand3)`, `nand2 = not (nand4 and h)`,
/// `nand3 = not (D and C)`, `nand4 = not (C and not)`, `h = nand1`, `not = not D`, each
/// from the values before the tick.
#[verifier::spinoff_prover]
proof fn lemma_dff_tick(u: UnitModel, b: int, ins: Seq<(SignalName, bool, Vec<Id>)>, d: bool, c: bool)
    requires
        is_dff(u, b),
        dff_inputs_hold(ins, d, c),
    ensures
        is_dff(tick_model(u, ins), b),
        tick_model(u, ins).gates[0].active == !(u.gates[1].active && u.gates[2].active),
        tick_model(u, ins).gates[1].active == !(u.gates[3].active && u.gates[4].active),
        tick_model(u, ins).gates[2].active == !(d && c),
        tick_model(u, ins).gates[3].active == !(c && u.gates[5].active),
        tick_model(u, ins).gates[4].active == u.gates[0].active,
        tick_model(u, ins).gates[5].active == !d,
{
    let t = tick_model(u, ins);
    let gs = u.gates;
    let id = ParentRef::Input(SignalName('D', 0));
    let ic = ParentRef::Input(SignalName('C', 0));
    reveal_with_fuel(input_refs, 3);
    reveal_with_fuel(gate_refs, 7);
    reveal_with_fuel(ids_refs, 3);
    assert forall|k: int| 0 <= k < 6 implies #[trigger] gs[k].id == b + 1 + k && gs[k].mode == dff_gates(b)[k].mode
        && gs[k].children == dff_gates(b)[k].children by {
        assert(gs[k] == (GateModel { active: gs[k].active, ..dff_gates(b)[k] }));
    }
    assert(input_refs(u.inputs, at(b, 1)) =~= Seq::<ParentRef>::empty());
    assert(gate_refs(gs, at(b, 1)) =~= seq![ParentRef::Gate(at(b, 2)), ParentRef::Gate(at(b, 3))]);
    assert(input_refs(u.inputs, at(b, 2)) =~= Seq::<ParentRef>::empty());
    assert(gate_refs(gs, at(b, 2)) =~= seq![ParentRef::Gate(at(b, 4)), ParentRef::Gate(at(b, 5))]);
    assert(input_refs(u.inputs, at(b, 3)) =~= seq![id, ic]);
    assert(gate_refs(gs, at(b, 3)) =~= Seq::<ParentRef>::empty());
    assert(input_refs(u.inputs, at(b, 4)) =~= seq![ic]);
    assert(gate_refs(gs, at(b, 4)) =~= seq![ParentRef::Gate(at(b, 6))]);
    assert(input_refs(u.inputs, at(b, 5)) =~= Seq::<ParentRef>::empty());
    assert(gate_refs(gs, at(b, 5)) =~= seq![ParentRef::Gate(at(b, 1))]);
    assert(input_refs(u.inputs, at(b, 6)) =~= seq![id]);
    assert(gate_refs(gs, at(b, 6)) =~= Seq::<ParentRef>::empty());
    lemma_first_gate(gs, at(b, 1), 0);
    lemma_first_gate(gs, at(b, 2), 1);
    lemma_first_gate(gs, at(b, 3), 2);
    lemma_first_gate(gs, at(b, 4), 3);
    lemma_first_gate(gs, at(b, 5), 4);
    lemma_first_gate(gs, at(b, 6), 5);
    let vals = |x: Id| parents_of(u, x).map_values(|r: ParentRef| ref_value(gs, ins, r));
    assert(vals(at(b, 1)) =~= seq![gs[1].active, gs[2].active]);
    assert(vals(at(b, 2)) =~= seq![gs[3].active, gs[4].active]);
    assert(vals(at(b, 3)) =~= seq![d, c]);
    assert(vals(at(b, 4)) =~= seq![c, gs[5].active]);
    assert(vals(at(b, 5)) =~= seq![gs[0].active]);
    assert(vals(at(b, 6)) =~= seq![d]);
    assert(t.gates[0].active == gate_output(gs[0].mode, vals(at(b, 1))));
    assert(t.gates[1].active == gate_output(gs[1].mode, vals(at(b, 2))));
    assert(t.gates[2].active == gate_output(gs[2].mode, vals(at(b, 3))));
    assert(t.gates[3].active == gate_output(gs[3].mode, vals(at(b, 4))));
    assert(t.gates[4].active == gate_output(gs[4].mode, vals(at(b, 5))));
    assert(t.gates[5].active == gate_output(gs[5].mode, vals(at(b, 6))));
    lemma_all_two(gs[1].active, gs[2].active);
    lemma_all_two(gs[3].active, gs[4].active);
    lemma_all_two(d, c);
    lemma_all_two(c, gs[5].active);
    lemma_all_one(gs[0].active);
    lemma_all_one(d);
    assert forall|k: int| 0 <= k < 6 implies #[trigger] t.gates[k] == (GateModel {
        active: t.gates[k].active,
        ..dff_gates(b)[k]
    }) by {
        assert(gs[k] == (GateModel { active: gs[k].active, ..dff_gates(b)[k] }));
    }
}

/// Five ticks with `C` on and `D` held at `v` clock `v` in, whatever state the gates
/// started in.
proof fn lemma_dff_write_settles(u: UnitModel, b: int, ins: Seq<(SignalName, bool, Vec<Id>)>, v: bool)
    requires
        is_dff(u, b),
        dff_inputs_hold(ins, v, true),
    ensures
        is_dff(ticks(u, ins, 5), b),
        dff_written(ticks(u, ins, 5), v),
{
    assert(ticks(u, ins, 0) == u);
    lemma_dff_tick(u, b, ins, v, true);
    lemma_dff_tick(ticks(u, ins, 1), b, ins, v, true);
    lemma_dff_tick(ticks(u, ins, 2), b, ins, v, true);
    lemma_dff_tick(ticks(u, ins, 3), b, ins, v, true);
    lemma_dff_tick(ticks(u, ins, 4), b, ins, v, true);
}

/// Further ticks with `C` on and `D` at `v` keep `v` clocked in.
proof fn lemma_dff_write_keeps_n(u: UnitModel, b: int, ins: Seq<(SignalName, bool, Vec<Id>)>, v: bool, n: nat)
    requires
        is_dff(u, b),
        dff_written(u, v),
        dff_inputs_hold(ins, v, true),
    ensures
        is_dff(ticks(u, ins, n), b),
        dff_written(ticks(u, ins, n), v),
    decreases n,
{
    if n > 0 {
        lemma_dff_write_keeps_n(u, b, ins, v, (n - 1) as nat);
        lemma_dff_tick(ticks(u, ins, (n - 1) as nat), b, ins, v, true);
    }
}

/// A stored value stays for any number of ticks in which `C` is off.
proof fn lemma_dff_keeps_n(u: UnitModel, b: int, ins: Seq<(SignalName, bool, Vec<Id>)>, v: bool, d: bool, n: nat)
    requires
        is_dff(u, b),
        dff_stores(u, v),
        dff_inputs_hold(ins, d, false),
    ensures
        is_dff(ticks(u, ins, n), b),
        dff_stores(ticks(u, ins, n), v),
    decreases n,
{
    if n > 0 {
        lemma_dff_keeps_n(u, b, ins, v, d, (n - 1) as nat);
        lemma_dff_tick(ticks(u, ins, (n - 1) as nat), b, ins, d, false);
    }
}

/// A D flip-flop is clocked: with `C` on and `D` held at `v`, after five ticks or more,
/// whatever state its gates started in, it stores `v` and its output `Q` is `v`.
pub proof fn law_dff_clocks_in(u: UnitModel, b: int, ins: Seq<(SignalName, bool, Vec<Id>)>, v: bool, n: nat)
    requires
        is_dff(u, b),
        dff_inputs_hold(ins, v, true),
        n >= 5,
    ensures
        ({
            let un = ticks(u, ins, n);
            &&& is_dff(un, b)
            &&& dff_stores(un, v)
            &&& un.gates[0].id == un.outputs[0].id && un.outputs[0].name == SignalName('Q', 0)
            &&& un.gates[0].active == v
        }),
{
    lemma_dff_write_settles(u, b, ins, v);
    lemma_dff_write_keeps_n(ticks(u, ins, 5), b, ins, v, (n - 5) as nat);
    lemma_ticks_add(u, ins, 5, (n - 5) as nat);
    let un = ticks(u, ins, n);
    assert(un.gates[0] == (GateModel { active: un.gates[0].active, ..dff_gates(b)[0] }));
}

/// A D flip-flop holds: once it stores `v`, for any number of ticks with `C` off, whatever
/// `D` is, it still stores `v` and its output `Q` stays `v`.
pub proof fn law_dff_holds(u: UnitModel, b: int, ins: Seq<(SignalName, bool, Vec<Id>)>, v: bool, d: bool, n: nat)
    requires
        is_dff(u, b),
        dff_stores(u, v),
        dff_inputs_hold(ins, d, false),
    ensures
        ({
            let un = ticks(u, ins, n);
            &&& is_dff(un, b)
            &&& dff_stores(un, v)
            &&& un.gates[0].id == un.outputs[0].id && un.outputs[0].name == SignalName('Q', 0)
            &&& un.gates[0].active == v
        }),
{
    lemma_dff_keeps_n(u, b, ins, v, d, n);
    let un = ticks(u, ins, n);
    assert(un.gates[0] == (GateModel { active: un.gates[0].active, ..dff_gates(b)[0] }));
}

// ---------------------------------------------------------------------------
// One-tick D flip-flop

/// The unit is a one-tick D flip-flop built after id `b`, its gates in any state.
pub open spec fn is_dff_1tick(u: UnitModel, b: int) -> bool {
    &&& 0 <= b
    &&& b + 3 <= u32::MAX
    &&& u.inputs == dff_1tick_inputs(b)
    &&& u.outputs == seq![outp(sn('Q', 0), b + 1)]
    &&& u.gates.len() == 3
    &&& forall|k: int|
        0 <= k < 3 ==> #[trigger] u.gates[k] == (GateModel { active: u.gates[k].active, ..dff_1tick_gates(b)[k] })
}

/// The inputs hold `d` on `D`, `c` on `C` and `f` on `F`.
pub open spec fn dff_1tick_inputs_hold(ins: Seq<(SignalName, bool, Vec<Id>)>, d: bool, c: bool, f: bool) -> bool {
    &&& emu_input_value(ins, SignalName('D', 0)) == d
    &&& emu_input_value(ins, SignalName('C', 0)) == c
    &&& emu_input_value(ins, SignalName('F', 0)) == f
}

/// One tick of a one-tick D flip-flop: `bit = F xor bit xor and`, `xor = D xor bit`,
/// `and = C and xor`, each from the values before the tick.
#[verifier::spinoff_prover]
proof fn lemma_dff_1tick_tick(u: UnitModel, b: int, ins: Seq<(SignalName, bool, Vec<Id>)>, d: bool, c: bool, f: bool)
    requires
        is_dff_1tick(u, b),
        dff_1tick_inputs_hold(ins, d, c, f),
    ensures
        is_dff_1tick(tick_model(u, ins), b),
        tick_model(u, ins).gates[0].active == ((f != u.gates[0].active) != u.gates[2].active),
        tick_model(u, ins).gates[1].active == (d != u.gates[0].active),
        tick_model(u, ins).gates[2].active == (c && u.gates[1].active),
{
    let t = tick_model(u, ins);
    let gs = u.gates;
    let id = ParentRef::Input(SignalName('D', 0));
    let ic = ParentRef::Input(SignalName('C', 0));
    let iff = ParentRef::Input(SignalName('F', 0));
    reveal_with_fuel(input_refs, 4);
    reveal_with_fuel(gate_refs, 4);
    reveal_with_fuel(ids_refs, 3);
    reveal_with_fuel(parity, 4);
    assert forall|k: int| 0 <= k < 3 implies #[trigger] gs[k].id == b + 1 + k && gs[k].mode == dff_1tick_gates(b)[k].mode
        && gs[k].children == dff_1tick_gates(b)[k].children by {
        assert(gs[k] == (GateModel { active: gs[k].active, ..dff_1tick_gates(b)[k] }));
    }
    assert(input_refs(u.inputs, at(b, 1)) =~= seq![iff]);
    assert(gate_refs(gs, at(b, 1)) =~= seq![ParentRef::Gate(at(b, 1)), ParentRef::Gate(at(b, 3))]);
    assert(input_refs(u.inputs, at(b, 2)) =~= seq![id]);
    assert(gate_refs(gs, at(b, 2)) =~= seq![ParentRef::Gate(at(b, 1))]);
    assert(input_refs(u.inputs, at(b, 3)) =~= seq![ic]);
    assert(gate_refs(gs, at(b, 3)) =~= seq![ParentRef::Gate(at(b, 2))]);
    lemma_first_gate(gs, at(b, 1), 0);
    lemma_first_gate(gs, at(b, 2), 1);
    lemma_first_gate(gs, at(b, 3), 2);
    let vals = |x: Id| parents_of(u, x).map_values(|r: ParentRef| ref_value(gs, ins, r));
    assert(vals(at(b, 1)) =~= seq![f, gs[0].active, gs[2].active]);
    assert(vals(at(b, 2)) =~= seq![d, gs[0].active]);
    assert(vals(at(b, 3)) =~= seq![c, gs[1].active]);
    assert(t.gates[0].active == gate_output(gs[0].mode, vals(at(b, 1))));
    assert(t.gates[1].active == gate_output(gs[1].mode, vals(at(b, 2))));
    assert(t.gates[2].active == gate_output(gs[2].mode, vals(at(b, 3))));
    let s3 = seq![f, gs[0].active, gs[2].active];
    assert(s3.drop_last() =~= seq![f, gs[0].active]);
    assert(seq![f, gs[0].active].drop_last() =~= seq![f]);
    assert(seq![f].drop_last() =~= Seq::<bool>::empty());
    assert(seq![d, gs[0].active].drop_last() =~= seq![d]);
    assert(seq![d].drop_last() =~= Seq::<bool>::empty());
    lemma_all_two(c, gs[1].active);
    assert forall|k: int| 0 <= k < 3 implies #[trigger] t.gates[k] == (GateModel {
        active: t.gates[k].active,
        ..dff_1tick_gates(b)[k]
    }) by {
        assert(gs[k] == (GateModel { active: gs[k].active, ..dff_1tick_gates(b)[k] }));
    }
}

/// A one-tick D flip-flop holds: with `C` and `F` off and its `and` off, for any number of
/// ticks, whatever `D` is, its output `Q` keeps its value and its `and` stays off.
pub proof fn law_dff_1tick_holds(u: UnitModel, b: int, ins: Seq<(SignalName, bool, Vec<Id>)>, d: bool, n: nat)
    requires
        is_dff_1tick(u, b),
        !u.gates[2].active,
        dff_1tick_inputs_hold(ins, d, false, false),
    ensures
        ({
            let un = ticks(u, ins, n);
            &&& is_dff_1tick(un, b)
            &&& un.gates[0].id == un.outputs[0].id && un.outputs[0].name == SignalName('Q', 0)
            &&& un.gates[0].active == u.gates[0].active
            &&& !un.gates[2].active
        }),
    decreases n,
{
    if n > 0 {
        law_dff_1tick_holds(u, b, ins, d, (n - 1) as nat);
        lemma_dff_1tick_tick(ticks(u, ins, (n - 1) as nat), b, ins, d, false, false);
    }
    let un = ticks(u, ins, n);
    assert(un.gates[0] == (GateModel { active: un.gates[0].active, ..dff_1tick_gates(b)[0] }));
}

/// A one-tick D flip-flop flips: from a state with its `and` off, one tick with `F` on and
/// `C` off turns output `Q` over, and leaves the `and` off.
pub proof fn law_dff_1tick_flips(u: UnitModel, b: int, ins: Seq<(SignalName, bool, Vec<Id>)>, d: bool)
    requires
        is_dff_1tick(u, b),
        !u.gates[2].active,
        dff_1tick_inputs_hold(ins, d, false, true),
    ensures
        is_dff_1tick(tick_model(u, ins), b),
        tick_model(u, ins).gates[0].active == !u.gates[0].active,
        !tick_model(u, ins).gates[2].active,
{
    lemma_dff_1tick_tick(u, b, ins, d, false, true);
}

/// A one-tick D flip-flop is clocked by a one-tick pulse: from a state with its `and` off
/// and `D` held at `v` for a tick already (its `xor` shows `v xor Q`), one tick with `C`
/// on and then one with `C` off, `D` at `v` and `F` off throughout, leave output `Q` at `v`
/// and the `and` off.
pub proof fn law_dff_1tick_sets(
    u: UnitModel,
    b: int,
    on: Seq<(SignalName, bool, Vec<Id>)>,
    off: Seq<(SignalName, bool, Vec<Id>)>,
    v: bool,
)
    requires
        is_dff_1tick(u, b),
        !u.gates[2].active,
        u.gates[1].active == (v != u.gates[0].active),
        dff_1tick_inputs_hold(on, v, true, false),
        dff_1tick_inputs_hold(off, v, false, false),
    ensures
        ({
            let u2 = tick_model(tick_model(u, on), off);
            &&& is_dff_1tick(u2, b)
            &&& u2.gates[0].active == v
            &&& !u2.gates[2].active
        }),
{
    lemma_dff_1tick_tick(u, b, on, v, true, false);
    lemma_dff_1tick_tick(tick_model(u, on), b, off, v, false, false);
}

// ---------------------------------------------------------------------------
// SR latch

/// The unit is an SR latch built after id `b`, its gates in any state.
pub open spec fn is_sr_latch(u: UnitModel, b: int) -> bool {
    &&& 0 <= b
    &&& b + 3 <= u32::MAX
    &&& u.inputs == seq![inp(sn('S', 0), seq![at(b, 2)]), inp(sn('R', 0), seq![at(b, 1)])]
    &&& u.outputs == seq![outp(sn('Q', 0), b + 1)]
    &&& u.gates.len() == 3
    &&& forall|k: int|
        0 <= k < 3 ==> #[trigger] u.gates[k] == (GateModel { active: u.gates[k].active, ..sr_latch_gates(b)[k] })
}

/// The inputs hold `s` on `S` and `r` on `R`.
pub open spec fn sr_inputs_hold(ins: Seq<(SignalName, bool, Vec<Id>)>, s: bool, r: bool) -> bool {
    &&& emu_input_value(ins, SignalName('S', 0)) == s
    &&& emu_input_value(ins, SignalName('R', 0)) == r
}

/// The latch stores `v`: `Q` is `v`, the other `nor` and the `and` are `not v`.
pub open spec fn sr_stores(u: UnitModel, v: bool) -> bool {
    &&& u.gates[0].active == v
    &&& u.gates[1].active == !v
    &&& u.gates[2].active == !v
}

/// One tick of an SR latch: `Q = not (R or h)`, `nq = not (S or Q)`, `h = nq`, each from
/// the values before the tick.
#[verifier::spinoff_prover]
proof fn lemma_sr_tick(u: UnitModel, b: int, ins: Seq<(SignalName, bool, Vec<Id>)>, s: bool, r: bool)
    requires
        is_sr_latch(u, b),
        sr_inputs_hold(ins, s, r),
    ensures
        is_sr_latch(tick_model(u, ins), b),
        tick_model(u, ins).gates[0].active == !(r || u.gates[2].active),
        tick_model(u, ins).gates[1].active == !(s || u.gates[0].active),
        tick_model(u, ins).gates[2].active == u.gates[1].active,
{
    let t = tick_model(u, ins);
    let gs = u.gates;
    let is = ParentRef::Input(SignalName('S', 0));
    let ir = ParentRef::Input(SignalName('R', 0));
    reveal_with_fuel(input_refs, 3);
    reveal_with_fuel(gate_refs, 4);
    reveal_with_fuel(ids_refs, 2);
    assert forall|k: int| 0 <= k < 3 implies #[trigger] gs[k].id == b + 1 + k && gs[k].mode == sr_latch_gates(b)[k].mode
        && gs[k].children == sr_latch_gates(b)[k].children by {
        assert(gs[k] == (GateModel { active: gs[k].active, ..sr_latch_gates(b)[k] }));
    }
    assert(input_refs(u.inputs, at(b, 1)) =~= seq![ir]);
    assert(gate_refs(gs, at(b, 1)) =~= seq![ParentRef::Gate(at(b, 3))]);
    assert(input_refs(u.inputs, at(b, 2)) =~= seq![is]);
    assert(gate_refs(gs, at(b, 2)) =~= seq![ParentRef::Gate(at(b, 1))]);
    assert(input_refs(u.inputs, at(b, 3)) =~= Seq::<ParentRef>::empty());
    assert(gate_refs(gs, at(b, 3)) =~= seq![ParentRef::Gate(at(b, 2))]);
    lemma_first_gate(gs, at(b, 1), 0);
    lemma_first_gate(gs, at(b, 2), 1);
    lemma_first_gate(gs, at(b, 3), 2);
    let vals = |x: Id| parents_of(u, x).map_values(|rf: ParentRef| ref_value(gs, ins, rf));
    assert(vals(at(b, 1)) =~= seq![r, gs[2].active]);
    assert(vals(at(b, 2)) =~= seq![s, gs[0].active]);
    assert(vals(at(b, 3)) =~= seq![gs[1].active]);
    assert(t.gates[0].active == gate_output(gs[0].mode, vals(at(b, 1))));
    assert(t.gates[1].active == gate_output(gs[1].mode, vals(at(b, 2))));
    assert(t.gates[2].active == gate_output(gs[2].mode, vals(at(b, 3))));
    lemma_any_two(r, gs[2].active);
    lemma_any_two(s, gs[0].active);
    lemma_all_one(gs[1].active);
    assert forall|k: int| 0 <= k < 3 implies #[trigger] t.gates[k] == (GateModel {
        active: t.gates[k].active,
        ..sr_latch_gates(b)[k]
    }) by {
        assert(gs[k] == (GateModel { active: gs[k].active, ..sr_latch_gates(b)[k] }));
    }
}

/// Two values have some `true` when one of them is.
proof fn lemma_any_two(x: bool, y: bool)
    ensures
        any_true(seq![x, y]) == (x || y),
{
    if x {
        assert(seq![x, y][0]);
    } else if y {
        assert(seq![x, y][1]);
    }
}

/// Ticks with the inputs held keep what the latch stores, when they agree with it: `S`
/// and `R` both off, or `S` alone on while it stores `true`, or `R` alone on while it
/// stores `false`.
proof fn lemma_sr_keeps_n(u: UnitModel, b: int, ins: Seq<(SignalName, bool, Vec<Id>)>, v: bool, s: bool, r: bool, n: nat)
    requires
        is_sr_latch(u, b),
        sr_stores(u, v),
        sr_inputs_hold(ins, s, r),
        !(s && r),
        s ==> v,
        r ==> !v,
    ensures
        is_sr_latch(ticks(u, ins, n), b),
        sr_stores(ticks(u, ins, n), v),
    decreases n,
{
    if n > 0 {
        lemma_sr_keeps_n(u, b, ins, v, s, r, (n - 1) as nat);
        lemma_sr_tick(ticks(u, ins, (n - 1) as nat), b, ins, s, r);
    }
}

/// An SR latch is set and reset: with `S` on and `R` off it stores `true`, with `R` on and
/// `S` off it stores `false`, after three ticks or more, whatever state its gates started
/// in; its output `Q` shows what it stores.
pub proof fn law_sr_latch_sets(u: UnitModel, b: int, ins: Seq<(SignalName, bool, Vec<Id>)>, s: bool, n: nat)
    requires
        is_sr_latch(u, b),
        sr_inputs_hold(ins, s, !s),
        n >= 3,
    ensures
        ({
            let un = ticks(u, ins, n);
            &&& is_sr_latch(un, b)
            &&& sr_stores(un, s)
            &&& un.gates[0].id == un.outputs[0].id && un.outputs[0].name == SignalName('Q', 0)
            &&& un.gates[0].active == s
        }),
{
    assert(ticks(u, ins, 0) == u);
    lemma_sr_tick(u, b, ins, s, !s);
    lemma_sr_tick(ticks(u, ins, 1), b, ins, s, !s);
    lemma_sr_tick(ticks(u, ins, 2), b, ins, s, !s);
    lemma_sr_keeps_n(ticks(u, ins, 3), b, ins, s, s, !s, (n - 3) as nat);
    lemma_ticks_add(u, ins, 3, (n - 3) as nat);
    let un = ticks(u, ins, n);
    assert(un.gates[0] == (GateModel { active: un.gates[0].active, ..sr_latch_gates(b)[0] }));
}

/// An SR latch holds: once it stores `v`, for any number of ticks with `S` and `R` off,
/// it still stores `v` and its output `Q` stays `v`.
pub proof fn law_sr_latch_holds(u: UnitModel, b: int, ins: Seq<(SignalName, bool, Vec<Id>)>, v: bool, n: nat)
    requires
        is_sr_latch(u, b),
        sr_stores(u, v),
        sr_inputs_hold(ins, false, false),
    ensures
        ({
            let un = ticks(u, ins, n);
            &&& is_sr_latch(un, b)
            &&& sr_stores(un, v)
            &&& un.gates[0].id == un.outputs[0].id && un.outputs[0].name == SignalName('Q', 0)
            &&& un.gates[0].active == v
        }),
{
    lemma_sr_keeps_n(u, b, ins, v, false, false, n);
    let un = ticks(u, ins, n);
    assert(un.gates[0] == (GateModel { active: un.gates[0].active, ..sr_latch_gates(b)[0] }));
}

} // verus!
