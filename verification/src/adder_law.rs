use vstd::prelude::*;

use crate::emulator::{emu_input_value, gate_refs, ids_refs, input_refs, parents_of, ref_value, ParentRef};
use crate::laws::tick_model;
use crate::logic::{adder_sub_gate, adder_sub_gates, adder_sub_input, adder_sub_inputs, adder_sub_k_ids, at};
use crate::logic_gate::{all_true, any_true, gate_output, parity, GateModel, LogicGateMode};
use crate::logic_unit::{first_gate, lemma_first_gate, InputModel, Output, UnitModel};
use crate::utils::{Id, SignalName};
use vstd::arithmetic::power2::{lemma2_to64, lemma_pow2_pos, lemma_pow2_unfold, pow2};

verus! {

// ---------------------------------------------------------------------------
// What drives what: lists of drivers

/// The drivers found in a concatenation are those of each part, in order.
proof fn lemma_ids_refs_concat(s1: Seq<Id>, s2: Seq<Id>, x: Id, r: ParentRef)
    ensures
        ids_refs(s1 + s2, x, r) == ids_refs(s1, x, r) + ids_refs(s2, x, r),
    decreases s2.len(),
{
    if s2.len() == 0 {
        assert(s1 + s2 =~= s1);
        assert(ids_refs(s1, x, r) + ids_refs(s2, x, r) =~= ids_refs(s1, x, r));
    } else {
        lemma_ids_refs_concat(s1, s2.drop_last(), x, r);
        assert((s1 + s2).drop_last() =~= s1 + s2.drop_last());
        assert((s1 + s2).last() == s2.last());
    }
}

/// `x` does not occur: no driver.
pub proof fn lemma_ids_refs_absent(s: Seq<Id>, x: Id, r: ParentRef)
    requires
        forall|j: int| 0 <= j < s.len() ==> s[j] != x,
    ensures
        ids_refs(s, x, r) == Seq::<ParentRef>::empty(),
    decreases s.len(),
{
    if s.len() > 0 {
        lemma_ids_refs_absent(s.drop_last(), x, r);
        assert(ids_refs(s, x, r) =~= Seq::<ParentRef>::empty());
    }
}

/// `x` occurs once: one driver.
pub proof fn lemma_ids_refs_once(s: Seq<Id>, x: Id, r: ParentRef, k: int)
    requires
        0 <= k < s.len(),
        s[k] == x,
        forall|j: int| 0 <= j < s.len() && j != k ==> s[j] != x,
    ensures
        ids_refs(s, x, r) == seq![r],
    decreases s.len(),
{
    if k == s.len() - 1 {
        lemma_ids_refs_absent(s.drop_last(), x, r);
        assert(ids_refs(s, x, r) =~= seq![r]);
    } else {
        lemma_ids_refs_once(s.drop_last(), x, r, k);
        assert(ids_refs(s, x, r) =~= seq![r]);
    }
}

/// No gate has `x` among its children: no gate drives it.
proof fn lemma_gate_refs_none(gs: Seq<GateModel>, x: Id)
    requires
        forall|j: int, m: int| 0 <= j < gs.len() && 0 <= m < gs[j].children.len() ==> gs[j].children[m] != x,
    ensures
        gate_refs(gs, x) == Seq::<ParentRef>::empty(),
    decreases gs.len(),
{
    if gs.len() > 0 {
        lemma_gate_refs_none(gs.drop_last(), x);
        lemma_ids_refs_absent(gs.last().children, x, ParentRef::Gate(gs.last().id));
        assert(gate_refs(gs, x) =~= Seq::<ParentRef>::empty());
    }
}

/// Only gate `j` has `x` among its children.
proof fn lemma_gate_refs_one(gs: Seq<GateModel>, x: Id, j: int)
    requires
        0 <= j < gs.len(),
        forall|q: int, m: int|
            0 <= q < gs.len() && q != j && 0 <= m < gs[q].children.len() ==> gs[q].children[m] != x,
    ensures
        gate_refs(gs, x) == ids_refs(gs[j].children, x, ParentRef::Gate(gs[j].id)),
    decreases gs.len(),
{
    let d = gs.drop_last();
    if j == gs.len() - 1 {
        lemma_gate_refs_none(d, x);
        assert(gate_refs(gs, x) =~= ids_refs(gs[j].children, x, ParentRef::Gate(gs[j].id)));
    } else {
        lemma_gate_refs_one(d, x, j);
        lemma_ids_refs_absent(gs.last().children, x, ParentRef::Gate(gs.last().id));
        assert(gate_refs(gs, x) =~= ids_refs(gs[j].children, x, ParentRef::Gate(gs[j].id)));
    }
}

/// Only gates `j1 < j2` have `x` among their children.
proof fn lemma_gate_refs_two(gs: Seq<GateModel>, x: Id, j1: int, j2: int)
    requires
        0 <= j1 < j2 < gs.len(),
        forall|q: int, m: int|
            0 <= q < gs.len() && q != j1 && q != j2 && 0 <= m < gs[q].children.len() ==> gs[q].children[m] != x,
    ensures
        gate_refs(gs, x) == ids_refs(gs[j1].children, x, ParentRef::Gate(gs[j1].id)) + ids_refs(
            gs[j2].children,
            x,
            ParentRef::Gate(gs[j2].id),
        ),
    decreases gs.len(),
{
    let d = gs.drop_last();
    if j2 == gs.len() - 1 {
        lemma_gate_refs_one(d, x, j1);
    } else {
        lemma_gate_refs_two(d, x, j1, j2);
        lemma_ids_refs_absent(gs.last().children, x, ParentRef::Gate(gs.last().id));
        assert(gate_refs(gs, x) =~= gate_refs(d, x));
    }
}

/// No input has `x` among its gates: no input drives it.
proof fn lemma_input_refs_none(ins: Seq<InputModel>, x: Id)
    requires
        forall|j: int, m: int| 0 <= j < ins.len() && 0 <= m < ins[j].ids.len() ==> ins[j].ids[m] != x,
    ensures
        input_refs(ins, x) == Seq::<ParentRef>::empty(),
    decreases ins.len(),
{
    if ins.len() > 0 {
        lemma_input_refs_none(ins.drop_last(), x);
        lemma_ids_refs_absent(ins.last().ids, x, ParentRef::Input(ins.last().name));
        assert(input_refs(ins, x) =~= Seq::<ParentRef>::empty());
    }
}

/// Only input `j` has `x` among its gates.
proof fn lemma_input_refs_one(ins: Seq<InputModel>, x: Id, j: int)
    requires
        0 <= j < ins.len(),
        forall|q: int, m: int| 0 <= q < ins.len() && q != j && 0 <= m < ins[q].ids.len() ==> ins[q].ids[m] != x,
    ensures
        input_refs(ins, x) == ids_refs(ins[j].ids, x, ParentRef::Input(ins[j].name)),
    decreases ins.len(),
{
    let d = ins.drop_last();
    if j == ins.len() - 1 {
        lemma_input_refs_none(d, x);
        assert(input_refs(ins, x) =~= ids_refs(ins[j].ids, x, ParentRef::Input(ins[j].name)));
    } else {
        lemma_input_refs_one(d, x, j);
        lemma_ids_refs_absent(ins.last().ids, x, ParentRef::Input(ins.last().name));
        assert(input_refs(ins, x) =~= ids_refs(ins[j].ids, x, ParentRef::Input(ins[j].name)));
    }
}

/// Only inputs `j1 < j2` have `x` among their gates.
proof fn lemma_input_refs_two(ins: Seq<InputModel>, x: Id, j1: int, j2: int)
    requires
        0 <= j1 < j2 < ins.len(),
        forall|q: int, m: int|
            0 <= q < ins.len() && q != j1 && q != j2 && 0 <= m < ins[q].ids.len() ==> ins[q].ids[m] != x,
    ensures
        input_refs(ins, x) == ids_refs(ins[j1].ids, x, ParentRef::Input(ins[j1].name)) + ids_refs(
            ins[j2].ids,
            x,
            ParentRef::Input(ins[j2].name),
        ),
    decreases ins.len(),
{
    let d = ins.drop_last();
    if j2 == ins.len() - 1 {
        lemma_input_refs_one(d, x, j1);
    } else {
        lemma_input_refs_two(d, x, j1, j2);
        lemma_ids_refs_absent(ins.last().ids, x, ParentRef::Input(ins.last().name));
        assert(input_refs(ins, x) =~= input_refs(d, x));
    }
}

// ---------------------------------------------------------------------------
// The drivers in the adder-subtractor

/// The gates have the ids, modes and children of the adder-subtractor built after id `b`,
/// in any state.
pub open spec fn adder_shaped(gs: Seq<GateModel>, b: int) -> bool {
    &&& gs.len() == 48
    &&& forall|k: int|
        0 <= k < 48 ==> #[trigger] gs[k] == (GateModel { active: gs[k].active, ..adder_sub_gates(b, 8)[k] })
}

/// What drives gate `t` of bit `i` of the adder-subtractor built after id `b`: `A i` and
/// the inverter into `xor1` and `and2`; the carry in (`K` for bit 0, the previous `or`
/// otherwise) and `xor1` into `and1` and `xor2`; `and1` and `and2` into `or`; `B i` and
/// `K` into the inverter.
pub open spec fn adder_parents(b: int, i: int, t: int) -> Seq<ParentRef> {
    let c = b + 6 * i;
    let a = ParentRef::Input(SignalName('A', i as u8));
    let k = ParentRef::Input(SignalName('K', 0));
    let carry = if i == 0 {
        k
    } else {
        ParentRef::Gate(at(c, -1))
    };
    if t == 0 || t == 2 {
        seq![a, ParentRef::Gate(at(c, 6))]
    } else if t == 1 || t == 3 {
        seq![carry, ParentRef::Gate(at(c, 1))]
    } else if t == 4 {
        seq![ParentRef::Gate(at(c, 2)), ParentRef::Gate(at(c, 3))]
    } else {
        seq![ParentRef::Input(SignalName('B', i as u8)), k]
    }
}

/// Gate `q` of the adder-subtractor has the id, mode and children of its place.
proof fn lemma_adder_gate(gs: Seq<GateModel>, b: int, q: int)
    requires
        adder_shaped(gs, b),
        0 <= q < 48,
    ensures
        gs[q].id == adder_sub_gate(b, q / 6, q % 6, 8).id,
        gs[q].mode == adder_sub_gate(b, q / 6, q % 6, 8).mode,
        gs[q].children == adder_sub_gate(b, q / 6, q % 6, 8).children,
        q == 6 * (q / 6) + q % 6,
        0 <= q % 6 < 6,
        0 <= q / 6 < 8,
{
    assert(gs[q] == (GateModel { active: gs[q].active, ..adder_sub_gates(b, 8)[q] }));
}

/// Which gates have gate `t` of bit `i` among their children.
proof fn lemma_adder_child(gs: Seq<GateModel>, b: int, q: int, m: int, i: int, t: int)
    requires
        adder_shaped(gs, b),
        0 <= b,
        b + 48 <= u32::MAX,
        0 <= q < 48,
        0 <= m < gs[q].children.len(),
        0 <= i < 8,
        0 <= t < 6,
        gs[q].children[m] == at(b, 6 * i + t + 1),
    ensures
        (t == 0 || t == 2) ==> q == 6 * i + 5,
        (t == 1 || t == 3) ==> q == 6 * i || q == 6 * i - 2,
        t == 4 ==> q == 6 * i + 1 || q == 6 * i + 2,
        t != 5,
{
    lemma_adder_gate(gs, b, q);
}

/// Which inputs have gate `t` of bit `i` among their gates.
proof fn lemma_adder_input(b: int, j: int, m: int, i: int, t: int)
    requires
        0 <= b,
        b + 48 <= u32::MAX,
        0 <= j < 17,
        0 <= m < adder_sub_inputs(b)[j].ids.len(),
        0 <= i < 8,
        0 <= t < 6,
        adder_sub_inputs(b)[j].ids[m] == at(b, 6 * i + t + 1),
    ensures
        j < 16 && j % 2 == 0 ==> j == 2 * i && (t == 0 || t == 2),
        j < 16 && j % 2 == 1 ==> j == 2 * i + 1 && t == 5,
        j == 16 ==> (i == 0 && (t == 1 || t == 3 || t == 5)) || (i > 0 && t == 5),
{
    let ins = adder_sub_inputs(b);
    if j < 16 {
        assert(ins[j] == adder_sub_input(b, j));
        assert(j == 2 * (j / 2) + j % 2);
    } else {
        let ks = adder_sub_k_ids(b, 8);
        assert(ins[j].ids == ks);
        if m >= 3 {
            assert(ks[m] == at(b, 6 * (m - 3) + 12));
        }
    }
}

/// What drives each gate of the adder-subtractor is `adder_parents`.
#[verifier::rlimit(50)]
pub proof fn lemma_adder_parents(gs: Seq<GateModel>, b: int, i: int, t: int)
    requires
        adder_shaped(gs, b),
        0 <= b,
        b + 48 <= u32::MAX,
        0 <= i < 8,
        0 <= t < 6,
    ensures
        parents_of(
            crate::logic_unit::UnitModel { gates: gs, inputs: adder_sub_inputs(b), outputs: Seq::empty() },
            at(b, 6 * i + t + 1),
        ) == adder_parents(b, i, t),
        forall|o: Seq<crate::logic_unit::Output>|
            parents_of(
                crate::logic_unit::UnitModel { gates: gs, inputs: adder_sub_inputs(b), outputs: o },
                at(b, 6 * i + t + 1),
            ) == adder_parents(b, i, t),
{
    let x = at(b, 6 * i + t + 1);
    let ins = adder_sub_inputs(b);
    let c = b + 6 * i;
    let ka = ParentRef::Input(SignalName('K', 0));
    assert forall|j: int, m: int|
        0 <= j < ins.len() && 0 <= m < ins[j].ids.len() && ins[j].ids[m] == x implies (j < 16 && j % 2 == 0
            ==> j == 2 * i && (t == 0 || t == 2)) && (j < 16 && j % 2 == 1 ==> j == 2 * i + 1 && t == 5) && (j
            == 16 ==> (i == 0 && (t == 1 || t == 3 || t == 5)) || (i > 0 && t == 5)) by {
        lemma_adder_input(b, j, m, i, t);
    }
    assert forall|q: int, m: int|
        0 <= q < gs.len() && 0 <= m < gs[q].children.len() && gs[q].children[m] == x implies ((t == 0 || t == 2)
            ==> q == 6 * i + 5) && ((t == 1 || t == 3) ==> q == 6 * i || q == 6 * i - 2) && (t == 4 ==> q == 6
            * i + 1 || q == 6 * i + 2) && t != 5 by {
        lemma_adder_child(gs, b, q, m, i, t);
    }
    let ia = ins[2 * i];
    let ib = ins[2 * i + 1];
    let ik = ins[16];
    assert(ia == adder_sub_input(b, 2 * i));
    assert(ib == adder_sub_input(b, 2 * i + 1));
    assert((2 * i) / 2 == i && (2 * i) % 2 == 0);
    assert((2 * i + 1) / 2 == i && (2 * i + 1) % 2 == 1);
    assert(ik.ids == adder_sub_k_ids(b, 8));
    assert(ik.name == SignalName('K', 0));
    let ks = adder_sub_k_ids(b, 8);
    // the inputs that drive x
    let irefs = if t == 0 || t == 2 {
        lemma_input_refs_one(ins, x, 2 * i);
        lemma_ids_refs_once(ia.ids, x, ParentRef::Input(ia.name), if t == 0 { 0 } else { 1 });
        seq![ParentRef::Input(SignalName('A', i as u8))]
    } else if t == 1 || t == 3 {
        if i == 0 {
            lemma_input_refs_one(ins, x, 16);
            lemma_ids_refs_once(ks, x, ka, if t == 1 { 2 } else { 1 });
            seq![ka]
        } else {
            lemma_input_refs_none(ins, x);
            Seq::<ParentRef>::empty()
        }
    } else if t == 4 {
        lemma_input_refs_none(ins, x);
        Seq::<ParentRef>::empty()
    } else {
        lemma_input_refs_two(ins, x, 2 * i + 1, 16);
        lemma_ids_refs_once(ib.ids, x, ParentRef::Input(ib.name), 0);
        let kidx = if i == 0 { 0 } else { i + 2 };
        assert forall|j: int| 0 <= j < ks.len() && j != kidx implies ks[j] != x by {
            if j >= 3 {
                assert(ks[j] == at(b, 6 * (j - 3) + 12));
            }
        }
        if i > 0 {
            assert(ks[kidx] == at(b, 6 * (kidx - 3) + 12));
        }
        lemma_ids_refs_once(ks, x, ka, kidx);
        seq![ParentRef::Input(SignalName('B', i as u8)), ka]
    };
    assert(input_refs(ins, x) == irefs);
    // the gates that drive x
    let grefs = if t == 0 || t == 2 {
        lemma_gate_refs_one(gs, x, 6 * i + 5);
        lemma_adder_gate(gs, b, 6 * i + 5);
        assert((6 * i + 5) / 6 == i && (6 * i + 5) % 6 == 5);
        lemma_ids_refs_once(gs[6 * i + 5].children, x, ParentRef::Gate(gs[6 * i + 5].id), if t == 0 { 0 } else { 1 });
        seq![ParentRef::Gate(at(c, 6))]
    } else if t == 1 || t == 3 {
        lemma_adder_gate(gs, b, 6 * i);
        assert((6 * i) / 6 == i && (6 * i) % 6 == 0);
        let k1 = if t == 1 { 1 } else { 0 };
        lemma_ids_refs_once(gs[6 * i].children, x, ParentRef::Gate(gs[6 * i].id), k1);
        if i == 0 {
            lemma_gate_refs_one(gs, x, 0);
            seq![ParentRef::Gate(at(c, 1))]
        } else {
            lemma_gate_refs_two(gs, x, 6 * i - 2, 6 * i);
            lemma_adder_gate(gs, b, 6 * i - 2);
            assert((6 * i - 2) / 6 == i - 1 && (6 * i - 2) % 6 == 4);
            lemma_ids_refs_once(gs[6 * i - 2].children, x, ParentRef::Gate(gs[6 * i - 2].id), k1);
            seq![ParentRef::Gate(at(c, -1)), ParentRef::Gate(at(c, 1))]
        }
    } else if t == 4 {
        lemma_gate_refs_two(gs, x, 6 * i + 1, 6 * i + 2);
        lemma_adder_gate(gs, b, 6 * i + 1);
        lemma_adder_gate(gs, b, 6 * i + 2);
        assert((6 * i + 1) / 6 == i && (6 * i + 1) % 6 == 1);
        assert((6 * i + 2) / 6 == i && (6 * i + 2) % 6 == 2);
        lemma_ids_refs_once(gs[6 * i + 1].children, x, ParentRef::Gate(gs[6 * i + 1].id), 0);
        lemma_ids_refs_once(gs[6 * i + 2].children, x, ParentRef::Gate(gs[6 * i + 2].id), 0);
        seq![ParentRef::Gate(at(c, 2)), ParentRef::Gate(at(c, 3))]
    } else {
        lemma_gate_refs_none(gs, x);
        Seq::<ParentRef>::empty()
    };
    assert(gate_refs(gs, x) == grefs);
    assert(irefs + grefs =~= adder_parents(b, i, t));
}

// ---------------------------------------------------------------------------
// One tick of the adder-subtractor

/// The value on input `A i`.
pub open spec fn a_in(ins: Seq<(SignalName, bool, Vec<Id>)>, i: int) -> bool {
    emu_input_value(ins, SignalName('A', i as u8))
}

/// The value on input `B i`.
pub open spec fn b_in(ins: Seq<(SignalName, bool, Vec<Id>)>, i: int) -> bool {
    emu_input_value(ins, SignalName('B', i as u8))
}

/// The value on input `K`.
pub open spec fn k_in(ins: Seq<(SignalName, bool, Vec<Id>)>) -> bool {
    emu_input_value(ins, SignalName('K', 0))
}

/// What a gate of mode `mode` makes of two values.
pub proof fn lemma_two_values(mode: LogicGateMode, x: bool, y: bool)
    ensures
        mode == LogicGateMode::And ==> gate_output(mode, seq![x, y]) == (x && y),
        mode == LogicGateMode::Or ==> gate_output(mode, seq![x, y]) == (x || y),
        mode == LogicGateMode::Xor ==> gate_output(mode, seq![x, y]) == (x != y),
{
    reveal_with_fuel(parity, 3);
    let s = seq![x, y];
    assert(s.drop_last() =~= seq![x]);
    assert(seq![x].drop_last() =~= Seq::<bool>::empty());
    if x {
        assert(s[0]);
    }
    if y {
        assert(s[1]);
    }
    if !x {
        assert(!s[0]);
    }
    if !y {
        assert(!s[1]);
    }
}

/// With the gates laid out in order, gate `q` is the first with its id.
proof fn lemma_adder_first(gs: Seq<GateModel>, b: int, q: int)
    requires
        adder_shaped(gs, b),
        0 <= b,
        b + 48 <= u32::MAX,
        0 <= q < 48,
    ensures
        first_gate(gs, at(b, q + 1)) == q,
{
    assert forall|j: int| 0 <= j < 48 implies #[trigger] gs[j].id == b + 1 + j by {
        lemma_adder_gate(gs, b, j);
    }
    lemma_first_gate(gs, at(b, q + 1), q);
}

/// The unit of the adder-subtractor built after id `b`, with gates `gs`.
pub open spec fn adder_unit(gs: Seq<GateModel>, b: int) -> UnitModel {
    UnitModel { gates: gs, inputs: adder_sub_inputs(b), outputs: crate::logic::adder_sub_outputs(b, 8) }
}

/// Gate `t` of bit `i` after one tick, from the values before it.
#[verifier::rlimit(40)]
proof fn lemma_adder_tick_gate(gs: Seq<GateModel>, b: int, ins: Seq<(SignalName, bool, Vec<Id>)>, i: int, t: int)
    requires
        adder_shaped(gs, b),
        0 <= b,
        b + 48 <= u32::MAX,
        0 <= i < 8,
        0 <= t < 6,
    ensures
        ({
            let n = tick_model(adder_unit(gs, b), ins).gates[6 * i + t].active;
            let cin = if i == 0 {
                k_in(ins)
            } else {
                gs[6 * i - 2].active
            };
            &&& t == 0 ==> n == (a_in(ins, i) != gs[6 * i + 5].active)
            &&& t == 1 ==> n == (cin && gs[6 * i].active)
            &&& t == 2 ==> n == (a_in(ins, i) && gs[6 * i + 5].active)
            &&& t == 3 ==> n == (cin != gs[6 * i].active)
            &&& t == 4 ==> n == (gs[6 * i + 1].active || gs[6 * i + 2].active)
            &&& t == 5 ==> n == (b_in(ins, i) != k_in(ins))
        }),
{
    let u = adder_unit(gs, b);
    let q = 6 * i + t;
    lemma_adder_gate(gs, b, q);
    assert(q / 6 == i && q % 6 == t);
    lemma_adder_parents(gs, b, i, t);
    assert(parents_of(u, at(b, q + 1)) == adder_parents(b, i, t));
    assert(gs[q].id == at(b, q + 1));
    let vals = parents_of(u, gs[q].id).map_values(|r: ParentRef| ref_value(gs, ins, r));
    assert(tick_model(u, ins).gates[q].active == gate_output(gs[q].mode, vals));
    let c = b + 6 * i;
    if t == 0 || t == 2 {
        lemma_adder_first(gs, b, 6 * i + 5);
        assert(at(c, 6) == at(b, 6 * i + 5 + 1));
        assert(vals =~= seq![a_in(ins, i), gs[6 * i + 5].active]);
        lemma_two_values(gs[q].mode, a_in(ins, i), gs[6 * i + 5].active);
    } else if t == 1 || t == 3 {
        lemma_adder_first(gs, b, 6 * i);
        assert(at(c, 1) == at(b, 6 * i + 1));
        let cin = if i == 0 {
            k_in(ins)
        } else {
            gs[6 * i - 2].active
        };
        if i > 0 {
            lemma_adder_first(gs, b, 6 * i - 2);
            assert(at(c, -1) == at(b, 6 * i - 2 + 1));
        }
        assert(vals =~= seq![cin, gs[6 * i].active]);
        lemma_two_values(gs[q].mode, cin, gs[6 * i].active);
    } else if t == 4 {
        lemma_adder_first(gs, b, 6 * i + 1);
        lemma_adder_first(gs, b, 6 * i + 2);
        assert(at(c, 2) == at(b, 6 * i + 1 + 1));
        assert(at(c, 3) == at(b, 6 * i + 2 + 1));
        assert(vals =~= seq![gs[6 * i + 1].active, gs[6 * i + 2].active]);
        lemma_two_values(gs[q].mode, gs[6 * i + 1].active, gs[6 * i + 2].active);
    } else {
        assert(vals =~= seq![b_in(ins, i), k_in(ins)]);
        lemma_two_values(gs[q].mode, b_in(ins, i), k_in(ins));
    }
}

// ---------------------------------------------------------------------------
// The adder-subtractor settles

/// Bit `i` propagates a carry: `A i` differs from `B i xor K`.
pub open spec fn prop_bit(ins: Seq<(SignalName, bool, Vec<Id>)>, i: int) -> bool {
    a_in(ins, i) != (b_in(ins, i) != k_in(ins))
}

/// Bit `i` generates a carry: `A i` and `B i xor K` are both on.
pub open spec fn gen_bit(ins: Seq<(SignalName, bool, Vec<Id>)>, i: int) -> bool {
    a_in(ins, i) && (b_in(ins, i) != k_in(ins))
}

/// The carry into bit `i` of `A + (B xor K) + K`.
pub open spec fn carry_in(ins: Seq<(SignalName, bool, Vec<Id>)>, i: int) -> bool
    decreases i,
{
    if i <= 0 {
        k_in(ins)
    } else {
        (carry_in(ins, i - 1) && prop_bit(ins, i - 1)) || gen_bit(ins, i - 1)
    }
}

/// Bit `i` of `A + (B xor K) + K`.
pub open spec fn sum_bit(ins: Seq<(SignalName, bool, Vec<Id>)>, i: int) -> bool {
    carry_in(ins, i) != prop_bit(ins, i)
}

/// After `n` ticks, the gates of bit `i` that have had the time hold their final values:
/// the inverter after one tick, `xor1` and `and2` after two, `and1` and the sum `xor2`
/// after `2 i + 3`, the carry `or` after `2 i + 4`.
pub open spec fn bit_settled(gs: Seq<GateModel>, ins: Seq<(SignalName, bool, Vec<Id>)>, n: int, i: int) -> bool {
    &&& n >= 1 ==> gs[6 * i + 5].active == (b_in(ins, i) != k_in(ins))
    &&& n >= 2 ==> gs[6 * i].active == prop_bit(ins, i) && gs[6 * i + 2].active == gen_bit(ins, i)
    &&& n >= 2 * i + 3 ==> gs[6 * i + 1].active == (carry_in(ins, i) && prop_bit(ins, i)) && gs[6 * i + 3].active
        == sum_bit(ins, i)
    &&& n >= 2 * i + 4 ==> gs[6 * i + 4].active == carry_in(ins, i + 1)
}

/// Every bit is settled as far as `n` ticks allow.
pub open spec fn settled(gs: Seq<GateModel>, ins: Seq<(SignalName, bool, Vec<Id>)>, n: int) -> bool {
    forall|i: int| 0 <= i < 8 ==> #[trigger] bit_settled(gs, ins, n, i)
}

/// One more tick settles one more step.
proof fn lemma_adder_settles(gs: Seq<GateModel>, b: int, ins: Seq<(SignalName, bool, Vec<Id>)>, n: int)
    requires
        adder_shaped(gs, b),
        0 <= b,
        b + 48 <= u32::MAX,
        0 <= n,
        settled(gs, ins, n),
    ensures
        adder_shaped(tick_model(adder_unit(gs, b), ins).gates, b),
        settled(tick_model(adder_unit(gs, b), ins).gates, ins, n + 1),
{
    let ng = tick_model(adder_unit(gs, b), ins).gates;
    assert forall|k: int| 0 <= k < 48 implies #[trigger] ng[k] == (GateModel {
        active: ng[k].active,
        ..adder_sub_gates(b, 8)[k]
    }) by {
        assert(gs[k] == (GateModel { active: gs[k].active, ..adder_sub_gates(b, 8)[k] }));
    }
    assert forall|i: int| 0 <= i < 8 implies #[trigger] bit_settled(ng, ins, n + 1, i) by {
        lemma_adder_tick_gate(gs, b, ins, i, 0);
        lemma_adder_tick_gate(gs, b, ins, i, 1);
        lemma_adder_tick_gate(gs, b, ins, i, 2);
        lemma_adder_tick_gate(gs, b, ins, i, 3);
        lemma_adder_tick_gate(gs, b, ins, i, 4);
        lemma_adder_tick_gate(gs, b, ins, i, 5);
        assert(bit_settled(gs, ins, n, i));
        if i > 0 {
            assert(bit_settled(gs, ins, n, i - 1));
            assert(6 * (i - 1) + 4 == 6 * i - 2);
        }
    }
}

/// `n` ticks of the unit with the inputs `ins`.
pub open spec fn ticks(u: UnitModel, ins: Seq<(SignalName, bool, Vec<Id>)>, n: nat) -> UnitModel
    decreases n,
{
    if n == 0 {
        u
    } else {
        tick_model(ticks(u, ins, (n - 1) as nat), ins)
    }
}

/// After `n` ticks the adder-subtractor is settled as far as `n` allows.
proof fn lemma_adder_run(gs: Seq<GateModel>, b: int, ins: Seq<(SignalName, bool, Vec<Id>)>, n: nat)
    requires
        adder_shaped(gs, b),
        0 <= b,
        b + 48 <= u32::MAX,
    ensures
        ticks(adder_unit(gs, b), ins, n) == adder_unit(ticks(adder_unit(gs, b), ins, n).gates, b),
        adder_shaped(ticks(adder_unit(gs, b), ins, n).gates, b),
        settled(ticks(adder_unit(gs, b), ins, n).gates, ins, n as int),
    decreases n,
{
    if n == 0 {
        assert forall|i: int| 0 <= i < 8 implies #[trigger] bit_settled(gs, ins, 0, i) by {}
    } else {
        lemma_adder_run(gs, b, ins, (n - 1) as nat);
        let prev = ticks(adder_unit(gs, b), ins, (n - 1) as nat);
        lemma_adder_settles(prev.gates, b, ins, n - 1);
    }
}

// ---------------------------------------------------------------------------
// The adder-subtractor computes `A + B` and `A - B`

/// The number the first `n` bits of the inputs named `letter` spell, bit 0 lowest.
pub open spec fn input_number(ins: Seq<(SignalName, bool, Vec<Id>)>, letter: char, n: int) -> int
    decreases n,
{
    if n <= 0 {
        0
    } else {
        input_number(ins, letter, n - 1) + if emu_input_value(ins, SignalName(letter, (n - 1) as u8)) {
            pow2((n - 1) as nat) as int
        } else {
            0
        }
    }
}

/// The number the first `n` bits of `B xor K` spell.
pub open spec fn flipped_number(ins: Seq<(SignalName, bool, Vec<Id>)>, n: int) -> int
    decreases n,
{
    if n <= 0 {
        0
    } else {
        flipped_number(ins, n - 1) + if b_in(ins, n - 1) != k_in(ins) {
            pow2((n - 1) as nat) as int
        } else {
            0
        }
    }
}

/// The number the first `n` sum bits spell.
pub open spec fn sum_number(ins: Seq<(SignalName, bool, Vec<Id>)>, n: int) -> int
    decreases n,
{
    if n <= 0 {
        0
    } else {
        sum_number(ins, n - 1) + if sum_bit(ins, n - 1) {
            pow2((n - 1) as nat) as int
        } else {
            0
        }
    }
}

/// The number the sum gates of the first `n` bits spell.
pub open spec fn output_number(gs: Seq<GateModel>, n: int) -> int
    decreases n,
{
    if n <= 0 {
        0
    } else {
        output_number(gs, n - 1) + if gs[6 * (n - 1) + 3].active {
            pow2((n - 1) as nat) as int
        } else {
            0
        }
    }
}

/// Ripple carry adds: the first `n` sum bits and the carry out of them spell
/// `A + (B xor K) + K` on those bits.
pub proof fn lemma_ripple(ins: Seq<(SignalName, bool, Vec<Id>)>, n: int)
    requires
        0 <= n <= 8,
    ensures
        sum_number(ins, n) + (if carry_in(ins, n) { pow2(n as nat) as int } else { 0 }) == input_number(
            ins,
            'A',
            n,
        ) + flipped_number(ins, n) + (if k_in(ins) { 1int } else { 0 }),
        0 <= sum_number(ins, n) < pow2(n as nat),
    decreases n,
{
    if n == 0 {
        lemma2_to64();
    } else {
        lemma_ripple(ins, n - 1);
        lemma_pow2_unfold(n as nat);
        lemma_pow2_pos((n - 1) as nat);
        let w = pow2((n - 1) as nat) as int;
        assert(pow2(n as nat) == 2 * w);
        assert(a_in(ins, n - 1) == emu_input_value(ins, SignalName('A', (n - 1) as u8)));
    }
}

/// The bits of `B xor K` spell `B`, or `2^n - 1 - B` when `K` is on.
pub proof fn lemma_flipped(ins: Seq<(SignalName, bool, Vec<Id>)>, n: int)
    requires
        0 <= n <= 8,
    ensures
        flipped_number(ins, n) == if k_in(ins) {
            pow2(n as nat) - 1 - input_number(ins, 'B', n)
        } else {
            input_number(ins, 'B', n)
        },
    decreases n,
{
    if n == 0 {
        lemma2_to64();
    } else {
        lemma_flipped(ins, n - 1);
        lemma_pow2_unfold(n as nat);
        assert(b_in(ins, n - 1) == emu_input_value(ins, SignalName('B', (n - 1) as u8)));
    }
}

/// Settled sum gates spell the sum bits.
pub proof fn lemma_output_number(gs: Seq<GateModel>, ins: Seq<(SignalName, bool, Vec<Id>)>, n: int)
    requires
        0 <= n <= 8,
        settled(gs, ins, 17),
    ensures
        output_number(gs, n) == sum_number(ins, n),
    decreases n,
{
    if n > 0 {
        lemma_output_number(gs, ins, n - 1);
        assert(bit_settled(gs, ins, 17, n - 1));
    }
}

/// The adder-subtractor adds and subtracts: with `A0 .. A7`, `B0 .. B7` and `K` held,
/// after 17 ticks, whatever state its gates started in, outputs `O0 .. O7` spell
/// `A + B` (modulo 256) while `K` is off and `A - B` (modulo 256) while `K` is on.
pub proof fn law_adder_substractor(u: UnitModel, b: int, ins: Seq<(SignalName, bool, Vec<Id>)>)
    requires
        0 <= b,
        b + 48 <= u32::MAX,
        adder_shaped(u.gates, b),
        u.inputs == adder_sub_inputs(b),
        u.outputs == crate::logic::adder_sub_outputs(b, 8),
    ensures
        ({
            let end = ticks(u, ins, 17);
            let a = input_number(ins, 'A', 8);
            let bb = input_number(ins, 'B', 8);
            &&& end.outputs == u.outputs
            &&& forall|i: int|
                0 <= i < 8 ==> #[trigger] end.outputs[i].id == end.gates[6 * i + 3].id && end.outputs[i].name
                    == SignalName('O', i as u8)
            &&& output_number(end.gates, 8) == if k_in(ins) {
                (a - bb + 256) % 256
            } else {
                (a + bb) % 256
            }
        }),
{
    assert(u == adder_unit(u.gates, b));
    lemma_adder_run(u.gates, b, ins, 17);
    let end = ticks(u, ins, 17);
    lemma_output_number(end.gates, ins, 8);
    lemma_ripple(ins, 8);
    lemma_flipped(ins, 8);
    lemma2_to64();
    assert forall|i: int| 0 <= i < 8 implies #[trigger] end.outputs[i].id == end.gates[6 * i + 3].id
        && end.outputs[i].name == SignalName('O', i as u8) by {
        lemma_adder_gate(end.gates, b, 6 * i + 3);
        assert((6 * i + 3) / 6 == i && (6 * i + 3) % 6 == 3);
    }
}

} // verus!
