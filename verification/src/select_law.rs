use vstd::prelude::*;

use crate::adder_law::ticks;
use crate::emulator::{emu_input_value, gate_refs, ids_refs, input_refs, parents_of, ref_value, ParentRef};
use crate::laws::tick_model;
use crate::logic::{at, mux_4_1_gates, mux_4_1_inputs, outp, sn, ticker_gates};
use crate::logic_gate::{all_true, any_true, gate_output, parity, GateModel};
use crate::logic_unit::{lemma_first_gate, InputModel, UnitModel};
use crate::utils::{Id, SignalName};

verus! {

// ---------------------------------------------------------------------------
// Ticker

/// The unit is a ticker built after id `b`, its gates in any state.
pub open spec fn is_ticker(u: UnitModel, b: int) -> bool {
    &&& 0 <= b
    &&& b + 2 <= u32::MAX
    &&& u.inputs == seq![InputModel { name: sn('i', 0), ids: seq![at(b, 2), at(b, 1)] }]
    &&& u.outputs == seq![outp(sn('i', 0), b + 2)]
    &&& u.gates.len() == 2
    &&& forall|k: int|
        0 <= k < 2 ==> #[trigger] u.gates[k] == (GateModel { active: u.gates[k].active, ..ticker_gates(b)[k] })
}

/// One tick of a ticker: `h = i`, `o = i xor h`, from the values before the tick.
#[verifier::spinoff_prover]
proof fn lemma_ticker_tick(u: UnitModel, b: int, ins: Seq<(SignalName, bool, Vec<Id>)>, v: bool)
    requires
        is_ticker(u, b),
        emu_input_value(ins, SignalName('i', 0)) == v,
    ensures
        is_ticker(tick_model(u, ins), b),
        tick_model(u, ins).gates[0].active == v,
        tick_model(u, ins).gates[1].active == (v != u.gates[0].active),
{
    let t = tick_model(u, ins);
    let gs = u.gates;
    let ii = ParentRef::Input(SignalName('i', 0));
    reveal_with_fuel(input_refs, 2);
    reveal_with_fuel(gate_refs, 3);
    reveal_with_fuel(ids_refs, 3);
    reveal_with_fuel(parity, 3);
    assert forall|k: int| 0 <= k < 2 implies #[trigger] gs[k].id == b + 1 + k && gs[k].mode == ticker_gates(b)[k].mode
        && gs[k].children == ticker_gates(b)[k].children by {
        assert(gs[k] == (GateModel { active: gs[k].active, ..ticker_gates(b)[k] }));
    }
    assert(input_refs(u.inputs, at(b, 1)) =~= seq![ii]);
    assert(gate_refs(gs, at(b, 1)) =~= Seq::<ParentRef>::empty());
    assert(input_refs(u.inputs, at(b, 2)) =~= seq![ii]);
    assert(gate_refs(gs, at(b, 2)) =~= seq![ParentRef::Gate(at(b, 1))]);
    lemma_first_gate(gs, at(b, 1), 0);
    let vals = |x: Id| parents_of(u, x).map_values(|r: ParentRef| ref_value(gs, ins, r));
    assert(vals(at(b, 1)) =~= seq![v]);
    assert(vals(at(b, 2)) =~= seq![v, gs[0].active]);
    assert(t.gates[0].active == gate_output(gs[0].mode, vals(at(b, 1))));
    assert(t.gates[1].active == gate_output(gs[1].mode, vals(at(b, 2))));
    assert(all_true(seq![v]) == v) by {
        if !v {
            assert(!seq![v][0]);
        }
    }
    assert(parity(seq![v, gs[0].active]) == (v != gs[0].active)) by {
        assert(seq![v, gs[0].active].drop_last() =~= seq![v]);
        assert(seq![v].drop_last() =~= Seq::<bool>::empty());
    }
    assert forall|k: int| 0 <= k < 2 implies #[trigger] t.gates[k] == (GateModel {
        active: t.gates[k].active,
        ..ticker_gates(b)[k]
    }) by {
        assert(gs[k] == (GateModel { active: gs[k].active, ..ticker_gates(b)[k] }));
    }
}

/// More ticks with the input held at `v`, once the hold gate follows `v`, keep the output off.
proof fn lemma_ticker_quiet(u: UnitModel, b: int, ins: Seq<(SignalName, bool, Vec<Id>)>, v: bool, n: nat)
    requires
        is_ticker(u, b),
        emu_input_value(ins, SignalName('i', 0)) == v,
        u.gates[0].active == v,
        n >= 1,
    ensures
        is_ticker(ticks(u, ins, n), b),
        ticks(u, ins, n).gates[0].active == v,
        !ticks(u, ins, n).gates[1].active,
    decreases n,
{
    assert(ticks(u, ins, 0) == u);
    if n > 1 {
        lemma_ticker_quiet(u, b, ins, v, (n - 1) as nat);
        lemma_ticker_tick(ticks(u, ins, (n - 1) as nat), b, ins, v);
    } else {
        lemma_ticker_tick(u, b, ins, v);
    }
}

/// A ticker marks each change of its input with a one-tick pulse: with input `i` held at
/// `v`, output `i` is on after the first tick exactly when `v` differs from the value the
/// ticker last saw, and it is off after every later tick.
pub proof fn law_ticker_pulses(u: UnitModel, b: int, ins: Seq<(SignalName, bool, Vec<Id>)>, v: bool, n: nat)
    requires
        is_ticker(u, b),
        emu_input_value(ins, SignalName('i', 0)) == v,
        n >= 2,
    ensures
        ({
            let u1 = ticks(u, ins, 1);
            let un = ticks(u, ins, n);
            &&& u1.gates[1].id == u1.outputs[0].id && u1.outputs[0].name == SignalName('i', 0)
            &&& u1.gates[1].active == (v != u.gates[0].active)
            &&& is_ticker(un, b)
            &&& !un.gates[1].active
        }),
{
    assert(ticks(u, ins, 0) == u);
    lemma_ticker_tick(u, b, ins, v);
    let u1 = ticks(u, ins, 1);
    assert(u1.gates[1] == (GateModel { active: u1.gates[1].active, ..ticker_gates(b)[1] }));
    lemma_ticker_quiet(u1, b, ins, v, (n - 1) as nat);
    lemma_ticks_split(u, ins, 1, (n - 1) as nat);
}

/// `m` ticks after `n` ticks are `n + m` ticks.
pub proof fn lemma_ticks_split(u: UnitModel, ins: Seq<(SignalName, bool, Vec<Id>)>, n: nat, m: nat)
    ensures
        ticks(ticks(u, ins, n), ins, m) == ticks(u, ins, n + m),
    decreases m,
{
    if m > 0 {
        lemma_ticks_split(u, ins, n, (m - 1) as nat);
    }
}

// ---------------------------------------------------------------------------
// 4:1 multiplexer

/// The unit is a 4:1 multiplexer built after id `b`, its gates in any state.
pub open spec fn is_mux_4_1(u: UnitModel, b: int) -> bool {
    &&& 0 <= b
    &&& b + 7 <= u32::MAX
    &&& u.inputs == mux_4_1_inputs(b)
    &&& u.outputs == seq![outp(sn('O', 0), b + 1)]
    &&& u.gates.len() == 7
    &&& forall|k: int|
        0 <= k < 7 ==> #[trigger] u.gates[k] == (GateModel { active: u.gates[k].active, ..mux_4_1_gates(b)[k] })
}

/// The inputs hold `d0..d3` on `I0..I3` and `s0`, `s1` on `S0`, `S1`.
pub open spec fn mux4_inputs_hold(
    ins: Seq<(SignalName, bool, Vec<Id>)>,
    d0: bool,
    d1: bool,
    d2: bool,
    d3: bool,
    s0: bool,
    s1: bool,
) -> bool {
    &&& emu_input_value(ins, SignalName('I', 0)) == d0
    &&& emu_input_value(ins, SignalName('I', 1)) == d1
    &&& emu_input_value(ins, SignalName('I', 2)) == d2
    &&& emu_input_value(ins, SignalName('I', 3)) == d3
    &&& emu_input_value(ins, SignalName('S', 0)) == s0
    &&& emu_input_value(ins, SignalName('S', 1)) == s1
}

/// Three values are all `true` when each is.
proof fn lemma_all_three(x: bool, y: bool, z: bool)
    ensures
        all_true(seq![x, y, z]) == (x && y && z),
{
    if !x {
        assert(!seq![x, y, z][0]);
    } else if !y {
        assert(!seq![x, y, z][1]);
    } else if !z {
        assert(!seq![x, y, z][2]);
    }
}

/// Some of four values is `true` when one of them is.
proof fn lemma_any_four(w: bool, x: bool, y: bool, z: bool)
    ensures
        any_true(seq![w, x, y, z]) == (w || x || y || z),
{
    let s = seq![w, x, y, z];
    if w {
        assert(s[0]);
    } else if x {
        assert(s[1]);
    } else if y {
        assert(s[2]);
    } else if z {
        assert(s[3]);
    }
}

/// What drives each gate of a 4:1 multiplexer: inputs first, then gates, in order.
#[verifier::rlimit(80)]
proof fn lemma_mux_4_1_drivers(u: UnitModel, b: int)
    requires
        is_mux_4_1(u, b),
    ensures
        parents_of(u, at(b, 1)) == seq![
            ParentRef::Gate(at(b, 2)),
            ParentRef::Gate(at(b, 3)),
            ParentRef::Gate(at(b, 4)),
            ParentRef::Gate(at(b, 5)),
        ],
        parents_of(u, at(b, 2)) == seq![
            ParentRef::Input(SignalName('I', 0)),
            ParentRef::Gate(at(b, 6)),
            ParentRef::Gate(at(b, 7)),
        ],
        parents_of(u, at(b, 3)) == seq![
            ParentRef::Input(SignalName('I', 1)),
            ParentRef::Input(SignalName('S', 0)),
            ParentRef::Gate(at(b, 6)),
        ],
        parents_of(u, at(b, 4)) == seq![
            ParentRef::Input(SignalName('I', 2)),
            ParentRef::Input(SignalName('S', 1)),
            ParentRef::Gate(at(b, 7)),
        ],
        parents_of(u, at(b, 5)) == seq![
            ParentRef::Input(SignalName('I', 3)),
            ParentRef::Input(SignalName('S', 0)),
            ParentRef::Input(SignalName('S', 1)),
        ],
        parents_of(u, at(b, 6)) == seq![ParentRef::Input(SignalName('S', 1))],
        parents_of(u, at(b, 7)) == seq![ParentRef::Input(SignalName('S', 0))],
{
    let gs = u.gates;
    let i0 = ParentRef::Input(SignalName('I', 0));
    let i1 = ParentRef::Input(SignalName('I', 1));
    let i2 = ParentRef::Input(SignalName('I', 2));
    let i3 = ParentRef::Input(SignalName('I', 3));
    let p0 = ParentRef::Input(SignalName('S', 0));
    let p1 = ParentRef::Input(SignalName('S', 1));
    assert forall|k: int| 0 <= k < 7 implies #[trigger] gs[k].id == b + 1 + k && gs[k].children
        == mux_4_1_gates(b)[k].children by {
        assert(gs[k] == (GateModel { active: gs[k].active, ..mux_4_1_gates(b)[k] }));
    }
    reveal_with_fuel(input_refs, 7);
    reveal_with_fuel(gate_refs, 8);
    reveal_with_fuel(ids_refs, 4);
    assert(input_refs(u.inputs, at(b, 1)) =~= Seq::<ParentRef>::empty());
    assert(gate_refs(gs, at(b, 1)) =~= seq![
        ParentRef::Gate(at(b, 2)),
        ParentRef::Gate(at(b, 3)),
        ParentRef::Gate(at(b, 4)),
        ParentRef::Gate(at(b, 5)),
    ]);
    assert(input_refs(u.inputs, at(b, 2)) =~= seq![i0]);
    assert(gate_refs(gs, at(b, 2)) =~= seq![ParentRef::Gate(at(b, 6)), ParentRef::Gate(at(b, 7))]);
    assert(input_refs(u.inputs, at(b, 3)) =~= seq![i1, p0]);
    assert(gate_refs(gs, at(b, 3)) =~= seq![ParentRef::Gate(at(b, 6))]);
    assert(input_refs(u.inputs, at(b, 4)) =~= seq![i2, p1]);
    assert(gate_refs(gs, at(b, 4)) =~= seq![ParentRef::Gate(at(b, 7))]);
    assert(input_refs(u.inputs, at(b, 5)) =~= seq![i3, p0, p1]);
    assert(gate_refs(gs, at(b, 5)) =~= Seq::<ParentRef>::empty());
    assert(input_refs(u.inputs, at(b, 6)) =~= seq![p1]);
    assert(gate_refs(gs, at(b, 6)) =~= Seq::<ParentRef>::empty());
    assert(input_refs(u.inputs, at(b, 7)) =~= seq![p0]);
    assert(gate_refs(gs, at(b, 7)) =~= Seq::<ParentRef>::empty());
}

/// One tick of a 4:1 multiplexer: `or = and0 or .. or and3`, `and0 = I0 and not0 and not1`,
/// `and1 = I1 and S0 and not0`, `and2 = I2 and S1 and not1`, `and3 = I3 and S0 and S1`,
/// `not0 = not S1`, `not1 = not S0`, each from the values before the tick.
#[verifier::spinoff_prover]
#[verifier::rlimit(80)]
proof fn lemma_mux_4_1_tick(u: UnitModel, b: int, ins: Seq<(SignalName, bool, Vec<Id>)>, d0: bool, d1: bool, d2: bool, d3: bool, s0: bool, s1: bool)
    requires
        is_mux_4_1(u, b),
        mux4_inputs_hold(ins, d0, d1, d2, d3, s0, s1),
    ensures
        is_mux_4_1(tick_model(u, ins), b),
        tick_model(u, ins).gates[0].active == (u.gates[1].active || u.gates[2].active || u.gates[3].active
            || u.gates[4].active),
        tick_model(u, ins).gates[1].active == (d0 && u.gates[5].active && u.gates[6].active),
        tick_model(u, ins).gates[2].active == (d1 && s0 && u.gates[5].active),
        tick_model(u, ins).gates[3].active == (d2 && s1 && u.gates[6].active),
        tick_model(u, ins).gates[4].active == (d3 && s0 && s1),
        tick_model(u, ins).gates[5].active == !s1,
        tick_model(u, ins).gates[6].active == !s0,
{
    let t = tick_model(u, ins);
    let gs = u.gates;
    lemma_mux_4_1_drivers(u, b);
    assert forall|k: int| 0 <= k < 7 implies #[trigger] gs[k].id == b + 1 + k && gs[k].mode == mux_4_1_gates(b)[k].mode
        && gs[k].children == mux_4_1_gates(b)[k].children by {
        assert(gs[k] == (GateModel { active: gs[k].active, ..mux_4_1_gates(b)[k] }));
    }
    // where each driving gate sits
    lemma_first_gate(gs, at(b, 2), 1);
    lemma_first_gate(gs, at(b, 3), 2);
    lemma_first_gate(gs, at(b, 4), 3);
    lemma_first_gate(gs, at(b, 5), 4);
    lemma_first_gate(gs, at(b, 6), 5);
    lemma_first_gate(gs, at(b, 7), 6);
    let vals = |x: Id| parents_of(u, x).map_values(|r: ParentRef| ref_value(gs, ins, r));
    assert(vals(at(b, 1)) =~= seq![gs[1].active, gs[2].active, gs[3].active, gs[4].active]);
    assert(vals(at(b, 2)) =~= seq![d0, gs[5].active, gs[6].active]);
    assert(vals(at(b, 3)) =~= seq![d1, s0, gs[5].active]);
    assert(vals(at(b, 4)) =~= seq![d2, s1, gs[6].active]);
    assert(vals(at(b, 5)) =~= seq![d3, s0, s1]);
    assert(vals(at(b, 6)) =~= seq![s1]);
    assert(vals(at(b, 7)) =~= seq![s0]);
    assert(t.gates[0].active == gate_output(gs[0].mode, vals(at(b, 1))));
    assert(t.gates[1].active == gate_output(gs[1].mode, vals(at(b, 2))));
    assert(t.gates[2].active == gate_output(gs[2].mode, vals(at(b, 3))));
    assert(t.gates[3].active == gate_output(gs[3].mode, vals(at(b, 4))));
    assert(t.gates[4].active == gate_output(gs[4].mode, vals(at(b, 5))));
    assert(t.gates[5].active == gate_output(gs[5].mode, vals(at(b, 6))));
    assert(t.gates[6].active == gate_output(gs[6].mode, vals(at(b, 7))));
    lemma_any_four(gs[1].active, gs[2].active, gs[3].active, gs[4].active);
    lemma_all_three(d0, gs[5].active, gs[6].active);
    lemma_all_three(d1, s0, gs[5].active);
    lemma_all_three(d2, s1, gs[6].active);
    lemma_all_three(d3, s0, s1);
    assert(all_true(seq![s1]) == s1) by {
        if !s1 {
            assert(!seq![s1][0]);
        }
    }
    assert(all_true(seq![s0]) == s0) by {
        if !s0 {
            assert(!seq![s0][0]);
        }
    }
    assert forall|k: int| 0 <= k < 7 implies #[trigger] t.gates[k] == (GateModel {
        active: t.gates[k].active,
        ..mux_4_1_gates(b)[k]
    }) by {
        assert(gs[k] == (GateModel { active: gs[k].active, ..mux_4_1_gates(b)[k] }));
    }
}

/// A 4:1 multiplexer selects: with `I0..I3`, `S0`, `S1` held, after three ticks, whatever
/// state its gates started in, output `O` is the input `Ik` with `k = S0 + 2 * S1`.
pub proof fn law_mux_4_1_selects(u: UnitModel, b: int, ins: Seq<(SignalName, bool, Vec<Id>)>, d0: bool, d1: bool, d2: bool, d3: bool, s0: bool, s1: bool)
    requires
        is_mux_4_1(u, b),
        mux4_inputs_hold(ins, d0, d1, d2, d3, s0, s1),
    ensures
        ({
            let u3 = ticks(u, ins, 3);
            &&& is_mux_4_1(u3, b)
            &&& u3.gates[0].id == u3.outputs[0].id && u3.outputs[0].name == SignalName('O', 0)
            &&& u3.gates[0].active == (if s1 {
                if s0 { d3 } else { d2 }
            } else {
                if s0 { d1 } else { d0 }
            })
        }),
{
    assert(ticks(u, ins, 0) == u);
    lemma_mux_4_1_tick(u, b, ins, d0, d1, d2, d3, s0, s1);
    lemma_mux_4_1_tick(ticks(u, ins, 1), b, ins, d0, d1, d2, d3, s0, s1);
    lemma_mux_4_1_tick(ticks(u, ins, 2), b, ins, d0, d1, d2, d3, s0, s1);
    let u3 = ticks(u, ins, 3);
    assert(u3.gates[0] == (GateModel { active: u3.gates[0].active, ..mux_4_1_gates(b)[0] }));
}

} // verus!
