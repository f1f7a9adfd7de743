use vstd::prelude::*;

use crate::logic_gate::GateModel;
use crate::logic_unit::{
    add_inputs_model, connect_all_model, connect_model, first_gate, first_input, has_gate,
    has_input, is_first_gate, is_first_input, lemma_first_gate, lemma_first_input, lemma_has_gate,
    InputModel,
};
use crate::emulator::{
    emu_input_value, flip_input, gate_refs, ids_refs, input_refs, next_active, parents_of,
    ref_value, Emulator, ParentRef,
};
use crate::logic::{
    at, full_adder_gates, full_adder_inputs, full_adder_outputs, mux_2_1_gates, mux_2_1_inputs,
    outp, sn,
};
use crate::logic_gate::{all_true, any_true, gate_output, parity};
use crate::logic_unit::UnitModel;
use crate::utils::{Id, SignalName};

verus! {

/// An input declared under a new name is the one found under that name, with the gates it
/// was declared with; the inputs declared before stay as they were.
pub proof fn law_create_then_get_input(ins: Seq<InputModel>, name: SignalName, ids: Seq<Id>)
    requires
        !has_input(ins, name),
    ensures
        has_input(ins.push(InputModel { name, ids }), name),
        ins.push(InputModel { name, ids })[first_input(ins.push(InputModel { name, ids }), name)]
            == (InputModel { name, ids }),
        forall|k: int| 0 <= k < ins.len() ==> #[trigger] ins.push(InputModel { name, ids })[k] == ins[k],
{
    let r = ins.push(InputModel { name, ids });
    assert(r[ins.len() as int].name == name);
    assert forall|j: int| 0 <= j < ins.len() implies r[j].name != name by {
        assert(r[j] == ins[j]);
    }
    lemma_first_input(r, name, ins.len() as int);
}

/// Adding gates to an input appends them to the gates of the first input with that name;
/// the names, and every other input, stay as they were.
pub proof fn law_add_inputs_appends(ins: Seq<InputModel>, name: SignalName, more: Seq<Id>)
    requires
        has_input(ins, name),
    ensures
        add_inputs_model(ins, name, more).len() == ins.len(),
        add_inputs_model(ins, name, more)[first_input(ins, name)].ids == ins[first_input(ins, name)].ids
            + more,
        forall|k: int|
            0 <= k < ins.len() ==> (#[trigger] add_inputs_model(ins, name, more)[k]).name == ins[k].name,
        forall|k: int|
            0 <= k < ins.len() && k != first_input(ins, name) ==> #[trigger] add_inputs_model(
                ins,
                name,
                more,
            )[k] == ins[k],
        first_input(add_inputs_model(ins, name, more), name) == first_input(ins, name),
{
    let k = choose|k: int| 0 <= k < ins.len() && ins[k].name == name;
    lemma_first_input_exists(ins, name, k);
    let f = first_input(ins, name);
    let r = add_inputs_model(ins, name, more);
    if more.len() == 0 {
        assert(ins[f].ids + more =~= ins[f].ids);
    }
    assert(is_first_input(r, name, f)) by {
        assert forall|j: int| 0 <= j < f implies r[j].name != name by {
            assert(r[j].name == ins[j].name);
        }
    }
    lemma_first_input(r, name, f);
}

/// Some input named `name` exists, so a first one does.
proof fn lemma_first_input_exists(ins: Seq<InputModel>, name: SignalName, k: int)
    requires
        0 <= k < ins.len(),
        ins[k].name == name,
    ensures
        is_first_input(ins, name, first_input(ins, name)),
    decreases k,
{
    if exists|j: int| 0 <= j < k && ins[j].name == name {
        let j = choose|j: int| 0 <= j < k && ins[j].name == name;
        lemma_first_input_exists(ins, name, j);
    } else {
        assert(is_first_input(ins, name, k));
        lemma_first_input(ins, name, k);
    }
}

/// Connecting `from` to `to` makes `to` the last child of the first gate with id `from`;
/// every id, and every other gate, stays as it was.
pub proof fn law_connect_adds_child(gs: Seq<GateModel>, from: Id, to: Id)
    requires
        has_gate(gs, from),
    ensures
        connect_model(gs, from, to).len() == gs.len(),
        connect_model(gs, from, to)[first_gate(gs, from)].children == gs[first_gate(gs, from)].children.push(
            to,
        ),
        forall|k: int| 0 <= k < gs.len() ==> (#[trigger] connect_model(gs, from, to)[k]).id == gs[k].id,
        forall|k: int|
            0 <= k < gs.len() && k != first_gate(gs, from) ==> #[trigger] connect_model(gs, from, to)[k]
                == gs[k],
        has_gate(connect_model(gs, from, to), from),
        first_gate(connect_model(gs, from, to), from) == first_gate(gs, from),
{
    lemma_has_gate(gs, from);
    let f = first_gate(gs, from);
    let r = connect_model(gs, from, to);
    assert(is_first_gate(r, from, f)) by {
        assert forall|j: int| 0 <= j < f implies r[j].id != from by {
            assert(r[j] == gs[j]);
        }
    }
    lemma_first_gate(r, from, f);
}

/// Connecting `from` to each of `tos` in turn appends all of them, in order, to the
/// children of the first gate with id `from`.
pub proof fn law_connect_all_is_repeated_connect(gs: Seq<GateModel>, from: Id, tos: Seq<Id>)
    requires
        has_gate(gs, from),
        tos.len() > 0,
    ensures
        connect_all_model(gs, from, tos) == connect_model(
            connect_all_model(gs, from, tos.drop_last()),
            from,
            tos.last(),
        ),
{
    lemma_has_gate(gs, from);
    let f = first_gate(gs, from);
    let a = connect_all_model(gs, from, tos.drop_last());
    assert(is_first_gate(a, from, f)) by {
        assert forall|j: int| 0 <= j < f implies a[j].id != from by {
            if tos.drop_last().len() > 0 {
                assert(a[j] == gs[j]);
            }
        }
    }
    lemma_first_gate(a, from, f);
    if tos.drop_last().len() == 0 {
        assert(gs[f].children + tos =~= gs[f].children.push(tos.last()));
        assert(connect_all_model(gs, from, tos) =~~= connect_model(a, from, tos.last()));
    } else {
        assert(gs[f].children + tos =~= (gs[f].children + tos.drop_last()).push(tos.last()));
        assert(connect_all_model(gs, from, tos) =~~= connect_model(a, from, tos.last()));
    }
}

/// Embedding a unit appends its gates: the gates that were there keep their positions,
/// and a gate found before is still found at the same place.
pub proof fn law_embed_keeps_gates(gs: Seq<GateModel>, more: Seq<GateModel>, id: Id)
    requires
        has_gate(gs, id),
    ensures
        has_gate(gs + more, id),
        first_gate(gs + more, id) == first_gate(gs, id),
        (gs + more)[first_gate(gs, id)] == gs[first_gate(gs, id)],
{
    lemma_has_gate(gs, id);
    let f = first_gate(gs, id);
    let r = gs + more;
    assert(is_first_gate(r, id, f)) by {
        assert forall|j: int| 0 <= j < f implies r[j].id != id by {
            assert(r[j] == gs[j]);
        }
    }
    lemma_first_gate(r, id, f);
}

/// Clicking the same input twice gives back the inputs as they were.
pub proof fn law_flip_twice(ins: Seq<(SignalName, bool, Vec<Id>)>, i: int)
    requires
        0 <= i < ins.len(),
    ensures
        flip_input(flip_input(ins, i), i) == ins,
        flip_input(ins, i)[i].1 != ins[i].1,
{
    assert(flip_input(flip_input(ins, i), i) =~= ins);
}

// ---------------------------------------------------------------------------
// Emulation

/// The unit after one tick with the inputs `ins`: every gate takes what its mode computes
/// from the values its drivers had before the tick.
pub open spec fn tick_model(u: UnitModel, ins: Seq<(SignalName, bool, Vec<Id>)>) -> UnitModel {
    UnitModel {
        gates: Seq::new(
            u.gates.len(),
            |k: int|
                GateModel {
                    active: gate_output(
                        u.gates[k].mode,
                        parents_of(u, u.gates[k].id).map_values(|r: ParentRef| ref_value(u.gates, ins, r)),
                    ),
                    ..u.gates[k]
                },
        ),
        ..u
    }
}

/// A tick of the emulator (as `Emulator::tick` states it) turns its unit into
/// `tick_model` of the unit and the inputs it had.
pub proof fn law_tick_is_tick_model(e0: Emulator, e1: Emulator)
    requires
        e1.spec_unit().inputs == e0.spec_unit().inputs,
        e1.spec_unit().outputs == e0.spec_unit().outputs,
        e1.spec_unit().gates.len() == e0.spec_unit().gates.len(),
        forall|k: int|
            0 <= k < e0.spec_unit().gates.len() ==> #[trigger] e1.spec_unit().gates[k] == (GateModel {
                active: next_active(&e0, k),
                ..e0.spec_unit().gates[k]
            }),
    ensures
        e1.spec_unit() == tick_model(e0.spec_unit(), e0.spec_inputs()),
{
    assert(e1.spec_unit().gates =~~= tick_model(e0.spec_unit(), e0.spec_inputs()).gates);
}

/// The unit is a full adder built after id `b`, its gates in any state.
pub open spec fn is_full_adder(u: UnitModel, b: int) -> bool {
    &&& 0 <= b
    &&& b + 5 <= u32::MAX
    &&& u.inputs == full_adder_inputs(b)
    &&& u.outputs == full_adder_outputs(b)
    &&& u.gates.len() == 5
    &&& forall|k: int|
        0 <= k < 5 ==> #[trigger] u.gates[k] == (GateModel { active: u.gates[k].active, ..full_adder_gates(b)[k] })
}

/// The inputs hold `a` on `A`, `bb` on `B` and `c` on `C`.
pub open spec fn adder_inputs_hold(ins: Seq<(SignalName, bool, Vec<Id>)>, a: bool, bb: bool, c: bool) -> bool {
    &&& emu_input_value(ins, SignalName('A', 0)) == a
    &&& emu_input_value(ins, SignalName('B', 0)) == bb
    &&& emu_input_value(ins, SignalName('C', 0)) == c
}

/// One tick of a full adder: `xor1 = A xor B`, `and1 = C and xor1`, `and2 = A and B`,
/// `S = C xor xor1`, `C = and1 or and2`, each from the values before the tick.
#[verifier::spinoff_prover]
proof fn lemma_full_adder_tick(u: UnitModel, b: int, ins: Seq<(SignalName, bool, Vec<Id>)>, a: bool, bb: bool, c: bool)
    requires
        is_full_adder(u, b),
        adder_inputs_hold(ins, a, bb, c),
    ensures
        is_full_adder(tick_model(u, ins), b),
        tick_model(u, ins).gates[0].active == (a != bb),
        tick_model(u, ins).gates[1].active == (c && u.gates[0].active),
        tick_model(u, ins).gates[2].active == (a && bb),
        tick_model(u, ins).gates[3].active == (c != u.gates[0].active),
        tick_model(u, ins).gates[4].active == (u.gates[1].active || u.gates[2].active),
{
    let t = tick_model(u, ins);
    let gs = u.gates;
    let ia = ParentRef::Input(SignalName('A', 0));
    let ib = ParentRef::Input(SignalName('B', 0));
    let ic = ParentRef::Input(SignalName('C', 0));
    reveal_with_fuel(input_refs, 4);
    reveal_with_fuel(gate_refs, 6);
    reveal_with_fuel(ids_refs, 4);
    reveal_with_fuel(parity, 3);
    assert forall|k: int| 0 <= k < 5 implies #[trigger] gs[k].id == b + 1 + k && gs[k].mode == full_adder_gates(b)[k].mode
        && gs[k].children == full_adder_gates(b)[k].children by {
        assert(gs[k] == (GateModel { active: gs[k].active, ..full_adder_gates(b)[k] }));
    }
    // what drives each gate
    assert(input_refs(u.inputs, at(b, 1)) =~= seq![ia, ib]);
    assert(gate_refs(gs, at(b, 1)) =~= Seq::<ParentRef>::empty());
    assert(input_refs(u.inputs, at(b, 2)) =~= seq![ic]);
    assert(gate_refs(gs, at(b, 2)) =~= seq![ParentRef::Gate(at(b, 1))]);
    assert(input_refs(u.inputs, at(b, 3)) =~= seq![ia, ib]);
    assert(gate_refs(gs, at(b, 3)) =~= Seq::<ParentRef>::empty());
    assert(input_refs(u.inputs, at(b, 4)) =~= seq![ic]);
    assert(gate_refs(gs, at(b, 4)) =~= seq![ParentRef::Gate(at(b, 1))]);
    assert(input_refs(u.inputs, at(b, 5)) =~= Seq::<ParentRef>::empty());
    assert(gate_refs(gs, at(b, 5)) =~= seq![ParentRef::Gate(at(b, 2)), ParentRef::Gate(at(b, 3))]);
    // where each driving gate sits
    lemma_first_gate(gs, at(b, 1), 0);
    lemma_first_gate(gs, at(b, 2), 1);
    lemma_first_gate(gs, at(b, 3), 2);
    let vals = |x: Id| parents_of(u, x).map_values(|r: ParentRef| ref_value(gs, ins, r));
    assert(vals(at(b, 1)) =~= seq![a, bb]);
    assert(vals(at(b, 2)) =~= seq![c, gs[0].active]);
    assert(vals(at(b, 3)) =~= seq![a, bb]);
    assert(vals(at(b, 4)) =~= seq![c, gs[0].active]);
    assert(vals(at(b, 5)) =~= seq![gs[1].active, gs[2].active]);
    assert(t.gates[0].active == gate_output(gs[0].mode, vals(at(b, 1))));
    assert(t.gates[1].active == gate_output(gs[1].mode, vals(at(b, 2))));
    assert(t.gates[2].active == gate_output(gs[2].mode, vals(at(b, 3))));
    assert(t.gates[3].active == gate_output(gs[3].mode, vals(at(b, 4))));
    assert(t.gates[4].active == gate_output(gs[4].mode, vals(at(b, 5))));
    assert(parity(seq![a, bb]) == (a != bb)) by {
        assert(seq![a, bb].drop_last() =~= seq![a]);
        assert(seq![a].drop_last() =~= Seq::<bool>::empty());
    }
    assert(parity(seq![c, gs[0].active]) == (c != gs[0].active)) by {
        assert(seq![c, gs[0].active].drop_last() =~= seq![c]);
        assert(seq![c].drop_last() =~= Seq::<bool>::empty());
    }
    assert(any_two(gs[1].active, gs[2].active) == (gs[1].active || gs[2].active));
    assert forall|k: int| 0 <= k < 5 implies #[trigger] t.gates[k] == (GateModel {
        active: t.gates[k].active,
        ..full_adder_gates(b)[k]
    }) by {
        assert(gs[k] == (GateModel { active: gs[k].active, ..full_adder_gates(b)[k] }));
    }
}

/// Some of two values is `true`.
spec fn any_two(x: bool, y: bool) -> bool {
    exists|i: int| 0 <= i < 2 && seq![x, y][i]
}

/// A full adder adds: with `A`, `B`, `C` held, after three ticks, whatever state its gates
/// started in, output `S` is `A xor B xor C` and output `C` is on when at least two of
/// the three are on.
pub proof fn law_full_adder_adds(u: UnitModel, b: int, ins: Seq<(SignalName, bool, Vec<Id>)>, a: bool, bb: bool, c: bool)
    requires
        is_full_adder(u, b),
        adder_inputs_hold(ins, a, bb, c),
    ensures
        ({
            let u3 = tick_model(tick_model(tick_model(u, ins), ins), ins);
            &&& is_full_adder(u3, b)
            &&& u3.gates[3].id == u3.outputs[0].id && u3.outputs[0].name == SignalName('S', 0)
            &&& u3.gates[4].id == u3.outputs[1].id && u3.outputs[1].name == SignalName('C', 0)
            &&& u3.gates[3].active == (a != (bb != c))
            &&& u3.gates[4].active == ((a && bb) || (a && c) || (bb && c))
        }),
{
    let u1 = tick_model(u, ins);
    lemma_full_adder_tick(u, b, ins, a, bb, c);
    let u2 = tick_model(u1, ins);
    lemma_full_adder_tick(u1, b, ins, a, bb, c);
    let u3 = tick_model(u2, ins);
    lemma_full_adder_tick(u2, b, ins, a, bb, c);
    assert(u3.gates[3] == (GateModel { active: u3.gates[3].active, ..full_adder_gates(b)[3] }));
    assert(u3.gates[4] == (GateModel { active: u3.gates[4].active, ..full_adder_gates(b)[4] }));
}

/// The unit is a 2:1 multiplexer built after id `b`, its gates in any state.
pub open spec fn is_mux_2_1(u: UnitModel, b: int) -> bool {
    &&& 0 <= b
    &&& b + 4 <= u32::MAX
    &&& u.inputs == mux_2_1_inputs(b)
    &&& u.outputs == seq![outp(sn('O', 0), b + 1)]
    &&& u.gates.len() == 4
    &&& forall|k: int|
        0 <= k < 4 ==> #[trigger] u.gates[k] == (GateModel { active: u.gates[k].active, ..mux_2_1_gates(b)[k] })
}

/// The inputs hold `x` on `A`, `y` on `B` and `s` on `S`.
pub open spec fn mux_inputs_hold(ins: Seq<(SignalName, bool, Vec<Id>)>, x: bool, y: bool, s: bool) -> bool {
    &&& emu_input_value(ins, SignalName('A', 0)) == x
    &&& emu_input_value(ins, SignalName('B', 0)) == y
    &&& emu_input_value(ins, SignalName('S', 0)) == s
}

/// One tick of a 2:1 multiplexer: `or = and0 or and1`, `and0 = A and not`,
/// `and1 = B and S`, `not = not S`, each from the values before the tick.
#[verifier::spinoff_prover]
proof fn lemma_mux_2_1_tick(u: UnitModel, b: int, ins: Seq<(SignalName, bool, Vec<Id>)>, x: bool, y: bool, s: bool)
    requires
        is_mux_2_1(u, b),
        mux_inputs_hold(ins, x, y, s),
    ensures
        is_mux_2_1(tick_model(u, ins), b),
        tick_model(u, ins).gates[0].active == (u.gates[1].active || u.gates[2].active),
        tick_model(u, ins).gates[1].active == (x && u.gates[3].active),
        tick_model(u, ins).gates[2].active == (y && s),
        tick_model(u, ins).gates[3].active == !s,
{
    let t = tick_model(u, ins);
    let gs = u.gates;
    let ia = ParentRef::Input(SignalName('A', 0));
    let ib = ParentRef::Input(SignalName('B', 0));
    let is = ParentRef::Input(SignalName('S', 0));
    reveal_with_fuel(input_refs, 4);
    reveal_with_fuel(gate_refs, 5);
    reveal_with_fuel(ids_refs, 3);
    assert forall|k: int| 0 <= k < 4 implies #[trigger] gs[k].id == b + 1 + k && gs[k].mode == mux_2_1_gates(b)[k].mode
        && gs[k].children == mux_2_1_gates(b)[k].children by {
        assert(gs[k] == (GateModel { active: gs[k].active, ..mux_2_1_gates(b)[k] }));
    }
    assert(input_refs(u.inputs, at(b, 1)) =~= Seq::<ParentRef>::empty());
    assert(gate_refs(gs, at(b, 1)) =~= seq![ParentRef::Gate(at(b, 2)), ParentRef::Gate(at(b, 3))]);
    assert(input_refs(u.inputs, at(b, 2)) =~= seq![ia]);
    assert(gate_refs(gs, at(b, 2)) =~= seq![ParentRef::Gate(at(b, 4))]);
    assert(input_refs(u.inputs, at(b, 3)) =~= seq![ib, is]);
    assert(gate_refs(gs, at(b, 3)) =~= Seq::<ParentRef>::empty());
    assert(input_refs(u.inputs, at(b, 4)) =~= seq![is]);
    assert(gate_refs(gs, at(b, 4)) =~= Seq::<ParentRef>::empty());
    lemma_first_gate(gs, at(b, 2), 1);
    lemma_first_gate(gs, at(b, 3), 2);
    lemma_first_gate(gs, at(b, 4), 3);
    let vals = |v: Id| parents_of(u, v).map_values(|r: ParentRef| ref_value(gs, ins, r));
    assert(vals(at(b, 1)) =~= seq![gs[1].active, gs[2].active]);
    assert(vals(at(b, 2)) =~= seq![x, gs[3].active]);
    assert(vals(at(b, 3)) =~= seq![y, s]);
    assert(vals(at(b, 4)) =~= seq![s]);
    assert(t.gates[0].active == gate_output(gs[0].mode, vals(at(b, 1))));
    assert(t.gates[1].active == gate_output(gs[1].mode, vals(at(b, 2))));
    assert(t.gates[2].active == gate_output(gs[2].mode, vals(at(b, 3))));
    assert(t.gates[3].active == gate_output(gs[3].mode, vals(at(b, 4))));
    assert(any_true(seq![gs[1].active, gs[2].active]) == (gs[1].active || gs[2].active)) by {
        if gs[1].active {
            assert(seq![gs[1].active, gs[2].active][0]);
        } else if gs[2].active {
            assert(seq![gs[1].active, gs[2].active][1]);
        }
    }
    assert(all_true(seq![x, gs[3].active]) == (x && gs[3].active)) by {
        if !x {
            assert(!seq![x, gs[3].active][0]);
        } else if !gs[3].active {
            assert(!seq![x, gs[3].active][1]);
        }
    }
    assert(all_true(seq![y, s]) == (y && s)) by {
        if !y {
            assert(!seq![y, s][0]);
        } else if !s {
            assert(!seq![y, s][1]);
        }
    }
    assert(all_true(seq![s]) == s) by {
        if !s {
            assert(!seq![s][0]);
        }
    }
    assert forall|k: int| 0 <= k < 4 implies #[trigger] t.gates[k] == (GateModel {
        active: t.gates[k].active,
        ..mux_2_1_gates(b)[k]
    }) by {
        assert(gs[k] == (GateModel { active: gs[k].active, ..mux_2_1_gates(b)[k] }));
    }
}

/// A 2:1 multiplexer selects: with `A`, `B`, `S` held, after three ticks, whatever state
/// its gates started in, output `O` is `A` while `S` is off and `B` while `S` is on.
pub proof fn law_mux_2_1_selects(u: UnitModel, b: int, ins: Seq<(SignalName, bool, Vec<Id>)>, x: bool, y: bool, s: bool)
    requires
        is_mux_2_1(u, b),
        mux_inputs_hold(ins, x, y, s),
    ensures
        ({
            let u3 = tick_model(tick_model(tick_model(u, ins), ins), ins);
            &&& is_mux_2_1(u3, b)
            &&& u3.gates[0].id == u3.outputs[0].id && u3.outputs[0].name == SignalName('O', 0)
            &&& u3.gates[0].active == (if s { y } else { x })
        }),
{
    let u1 = tick_model(u, ins);
    lemma_mux_2_1_tick(u, b, ins, x, y, s);
    let u2 = tick_model(u1, ins);
    lemma_mux_2_1_tick(u1, b, ins, x, y, s);
    let u3 = tick_model(u2, ins);
    lemma_mux_2_1_tick(u2, b, ins, x, y, s);
    assert(u3.gates[0] == (GateModel { active: u3.gates[0].active, ..mux_2_1_gates(b)[0] }));
}

} // verus!
