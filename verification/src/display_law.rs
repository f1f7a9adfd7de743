use vstd::prelude::*;

use crate::decoder_law::{lemma_gate_refs_members, lemma_input_refs_members, lemma_select_contains, sel_in, spells};
use crate::emulator::{emu_input_value, gate_refs, input_refs, parents_of, ref_value, ParentRef};
use crate::laws::tick_model;
use crate::logic::{
    at, bit_of, digit_dispay_gates, digit_dispay_inputs, digit_dispay_outputs, digit_row, display_gate, lit_ids,
    select_ids,
};
use crate::logic_gate::{all_true, any_true, GateModel, LogicGateMode};
use crate::logic_unit::{first_gate, lemma_first_gate, UnitModel};
use crate::utils::{Id, SignalName};

verus! {

// ---------------------------------------------------------------------------
// The digit display: pixel `or`s at places 0 .. 14, the decoder's inverters at 15 .. 18
// and its `and`s (one per digit) at 19 .. 34, the select `and`s at 35 .. 38.

/// The unit is the digit display built after id `b`, its gates in any state.
pub open spec fn is_display(u: UnitModel, b: int) -> bool {
    &&& 0 <= b
    &&& b + 39 <= u32::MAX
    &&& u.inputs == digit_dispay_inputs(b)
    &&& u.outputs == digit_dispay_outputs(b, 15)
    &&& u.gates.len() == 39
    &&& forall|k: int|
        0 <= k < 39 ==> #[trigger] u.gates[k] == (GateModel { active: u.gates[k].active, ..digit_dispay_gates(b)[k] })
}

/// Membership in `lit_ids`: pixel `j` is listed exactly when digit `n` lights it, and
/// only pixels are listed.
proof fn lemma_lit_contains(b: int, n: int, i: int)
    requires
        0 <= b,
        b + 39 <= u32::MAX,
        0 <= i <= 15,
    ensures
        forall|j: int| 0 <= j < i ==> (#[trigger] lit_ids(b, n, i).contains(at(b, j + 1)) <==> digit_row(n)[j] == 1),
        forall|m: int| 0 <= m < lit_ids(b, n, i).len() ==> b + 1 <= #[trigger] lit_ids(b, n, i)[m] < b + 1 + i,
    decreases i,
{
    if i > 0 {
        lemma_lit_contains(b, n, i - 1);
        let prev = lit_ids(b, n, i - 1);
        let cur = lit_ids(b, n, i);
        assert forall|j: int| 0 <= j < i implies (#[trigger] cur.contains(at(b, j + 1)) <==> digit_row(n)[j] == 1) by {
            if digit_row(n)[i - 1] == 1 {
                assert(cur == prev.push(at(b, i)));
                if j < i - 1 {
                    if prev.contains(at(b, j + 1)) {
                        let m = choose|m: int| 0 <= m < prev.len() && prev[m] == at(b, j + 1);
                        assert(cur[m] == prev[m]);
                    }
                    if cur.contains(at(b, j + 1)) {
                        let m = choose|m: int| 0 <= m < cur.len() && cur[m] == at(b, j + 1);
                        if m < prev.len() {
                            assert(prev[m] == cur[m]);
                        }
                    }
                } else {
                    assert(cur[prev.len() as int] == at(b, j + 1));
                }
            } else {
                if j == i - 1 && cur.contains(at(b, j + 1)) {
                    let m = choose|m: int| 0 <= m < cur.len() && cur[m] == at(b, j + 1);
                    assert(prev[m] < b + 1 + (i - 1));
                }
            }
        }
    }
}

/// Gate `q` of the display: its id, mode and children, and where it sits.
proof fn lemma_display_gate(u: UnitModel, b: int, q: int)
    requires
        is_display(u, b),
        0 <= q < 39,
    ensures
        u.gates[q].id == b + 1 + q,
        u.gates[q].mode == (if q < 15 {
            LogicGateMode::Or
        } else if q < 19 {
            LogicGateMode::Nand
        } else {
            LogicGateMode::And
        }),
        u.gates[q].children == (if q < 15 {
            Seq::<Id>::empty()
        } else if q < 19 {
            select_ids(b + 20, q - 15, false, 16)
        } else if q < 35 {
            if q - 19 < 10 {
                lit_ids(b, q - 19, 15)
            } else {
                Seq::<Id>::empty()
            }
        } else {
            select_ids(b + 20, q - 35, true, 16).push(at(b, q - 19))
        }),
        first_gate(u.gates, (b + 1 + q) as Id) == q,
{
    assert(u.gates[q] == (GateModel { active: u.gates[q].active, ..digit_dispay_gates(b)[q] }));
    assert(digit_dispay_gates(b)[q] == display_gate(b, q, 10, 0));
    assert forall|j: int| 0 <= j < q implies u.gates[j].id != (b + 1 + q) as Id by {
        assert(u.gates[j] == (GateModel { active: u.gates[j].active, ..digit_dispay_gates(b)[j] }));
    }
    lemma_first_gate(u.gates, (b + 1 + q) as Id, q);
}

/// The gates of the display that have gate `x` among their children.
proof fn lemma_display_child_has(u: UnitModel, b: int, j: int, x: int)
    requires
        is_display(u, b),
        0 <= j < 39,
        b + 1 <= x < b + 40,
    ensures
        u.gates[j].children.contains(x as Id) <==> ((15 <= j < 19 && b + 20 <= x < b + 36 && !bit_of(
            x - (b + 20),
            j - 15,
        )) || (19 <= j < 29 && x < b + 16 && digit_row(j - 19)[x - (b + 1)] == 1) || (35 <= j && ((b + 20 <= x
            < b + 36 && bit_of(x - (b + 20), j - 35)) || x == b + j - 19))),
{
    lemma_display_gate(u, b, j);
    let cs = u.gates[j].children;
    if 15 <= j < 19 {
        lemma_select_contains(b + 20, j - 15, false, 16);
        if cs.contains(x as Id) {
            let m = choose|m: int| 0 <= m < cs.len() && cs[m] == x as Id;
            assert(cs[m] >= b + 20);
        }
        if b + 20 <= x < b + 36 {
            assert(cs.contains((b + 20 + (x - (b + 20))) as Id) <==> !bit_of(x - (b + 20), j - 15));
        }
    } else if 19 <= j < 29 {
        lemma_lit_contains(b, j - 19, 15);
        if cs.contains(x as Id) {
            let m = choose|m: int| 0 <= m < cs.len() && cs[m] == x as Id;
            assert(cs[m] < b + 16);
        }
        if x < b + 16 {
            assert(at(b, (x - (b + 1)) + 1) == x as Id);
        }
    } else if j >= 35 {
        let sel = select_ids(b + 20, j - 35, true, 16);
        lemma_select_contains(b + 20, j - 35, true, 16);
        assert(cs == sel.push(at(b, j - 19)));
        if cs.contains(x as Id) {
            let m = choose|m: int| 0 <= m < cs.len() && cs[m] == x as Id;
            if m < sel.len() {
                assert(sel[m] == x as Id);
                assert(sel.contains((b + 20 + (x - (b + 20))) as Id));
            }
        }
        if b + 20 <= x < b + 36 && bit_of(x - (b + 20), j - 35) {
            assert(sel.contains((b + 20 + (x - (b + 20))) as Id));
            let m = choose|m: int| 0 <= m < sel.len() && sel[m] == x as Id;
            assert(cs[m] == sel[m]);
        }
        if x == b + j - 19 {
            assert(cs[sel.len() as int] == x as Id);
        }
    }
}

/// The inputs of the display that have gate `x` among their gates.
proof fn lemma_display_input_has(b: int, j: int, x: int)
    requires
        0 <= b,
        b + 39 <= u32::MAX,
        0 <= j < 5,
        b + 1 <= x < b + 40,
    ensures
        j == 0 ==> (digit_dispay_inputs(b)[j].ids.contains(x as Id) <==> b + 20 <= x < b + 36),
        j > 0 ==> (digit_dispay_inputs(b)[j].ids.contains(x as Id) <==> x == b + 36 + (j - 1)),
        j == 0 ==> digit_dispay_inputs(b)[j].name == SignalName('I', 0),
        j > 0 ==> digit_dispay_inputs(b)[j].name == SignalName('S', (j - 1) as u8),
{
    let ids = digit_dispay_inputs(b)[j].ids;
    if j == 0 {
        if b + 20 <= x < b + 36 {
            assert(ids[x - (b + 20)] == x as Id);
        }
    } else {
        if x == b + 36 + (j - 1) {
            assert(ids[0] == x as Id);
        }
    }
}

/// A tick keeps the display's layout.
proof fn lemma_display_tick_shape(u: UnitModel, b: int, ins: Seq<(SignalName, bool, Vec<Id>)>)
    requires
        is_display(u, b),
    ensures
        is_display(tick_model(u, ins), b),
{
    let t = tick_model(u, ins);
    assert forall|k: int| 0 <= k < 39 implies #[trigger] t.gates[k] == (GateModel {
        active: t.gates[k].active,
        ..digit_dispay_gates(b)[k]
    }) by {
        assert(u.gates[k] == (GateModel { active: u.gates[k].active, ..digit_dispay_gates(b)[k] }));
    }
}

/// One tick of select `and` `t`: it becomes `S t`.
proof fn lemma_display_tick_buffer(u: UnitModel, b: int, ins: Seq<(SignalName, bool, Vec<Id>)>, t: int)
    requires
        is_display(u, b),
        0 <= t < 4,
    ensures
        tick_model(u, ins).gates[35 + t].active == sel_in(ins, t),
{
    let x = b + 36 + t;
    lemma_display_gate(u, b, 35 + t);
    let ps = parents_of(u, x as Id);
    let ir = input_refs(u.inputs, x as Id);
    let gr = gate_refs(u.gates, x as Id);
    lemma_input_refs_members(u.inputs, x as Id);
    lemma_gate_refs_members(u.gates, x as Id);
    assert(gr.len() == 0) by {
        if gr.len() > 0 {
            let j = choose|j: int|
                0 <= j < u.gates.len() && u.gates[j].children.contains(x as Id) && gr[0] == ParentRef::Gate(
                    u.gates[j].id,
                );
            lemma_display_child_has(u, b, j, x);
        }
    }
    assert forall|m: int| 0 <= m < ir.len() implies ir[m] == ParentRef::Input(SignalName('S', t as u8)) by {
        let j = choose|j: int|
            0 <= j < u.inputs.len() && u.inputs[j].ids.contains(x as Id) && ir[m] == ParentRef::Input(
                u.inputs[j].name,
            );
        lemma_display_input_has(b, j, x);
    }
    lemma_display_input_has(b, 1 + t, x);
    assert(u.inputs[1 + t].ids.contains(x as Id));
    assert(ir.contains(ParentRef::Input(SignalName('S', t as u8))));
    let vals = ps.map_values(|r: ParentRef| ref_value(u.gates, ins, r));
    assert(ps =~= ir);
    assert(vals.len() > 0);
    assert forall|m: int| 0 <= m < vals.len() implies vals[m] == sel_in(ins, t) by {
        assert(ps[m] == ParentRef::Input(SignalName('S', t as u8)));
    }
    assert(all_true(vals) == sel_in(ins, t)) by {
        if !sel_in(ins, t) {
            assert(!vals[0]);
        }
    }
}

/// One tick of inverter `t` of the decoder: it becomes `not` select `and` `t`.
proof fn lemma_display_tick_inverter(u: UnitModel, b: int, ins: Seq<(SignalName, bool, Vec<Id>)>, t: int)
    requires
        is_display(u, b),
        0 <= t < 4,
    ensures
        tick_model(u, ins).gates[15 + t].active == !u.gates[35 + t].active,
{
    let x = b + 16 + t;
    lemma_display_gate(u, b, 15 + t);
    let ps = parents_of(u, x as Id);
    let ir = input_refs(u.inputs, x as Id);
    let gr = gate_refs(u.gates, x as Id);
    lemma_input_refs_members(u.inputs, x as Id);
    lemma_gate_refs_members(u.gates, x as Id);
    assert(ir.len() == 0) by {
        if ir.len() > 0 {
            let j = choose|j: int|
                0 <= j < u.inputs.len() && u.inputs[j].ids.contains(x as Id) && ir[0] == ParentRef::Input(
                    u.inputs[j].name,
                );
            lemma_display_input_has(b, j, x);
        }
    }
    lemma_display_gate(u, b, 35 + t);
    assert forall|m: int| 0 <= m < gr.len() implies gr[m] == ParentRef::Gate(u.gates[35 + t].id) by {
        let j = choose|j: int|
            0 <= j < u.gates.len() && u.gates[j].children.contains(x as Id) && gr[m] == ParentRef::Gate(u.gates[j].id);
        lemma_display_child_has(u, b, j, x);
    }
    lemma_display_child_has(u, b, 35 + t, x);
    assert(gr.contains(ParentRef::Gate(u.gates[35 + t].id)));
    let vals = ps.map_values(|r: ParentRef| ref_value(u.gates, ins, r));
    assert(ps =~= gr);
    assert(vals.len() > 0);
    assert forall|m: int| 0 <= m < vals.len() implies vals[m] == u.gates[35 + t].active by {
        assert(ps[m] == ParentRef::Gate(u.gates[35 + t].id));
    }
    assert(all_true(vals) == u.gates[35 + t].active) by {
        if !u.gates[35 + t].active {
            assert(!vals[0]);
        }
    }
}

/// One tick of the decoder `and` of digit `m`: it becomes on when `I` is on and, for each
/// select line, the select `and` was on where `m` has a 1 and the inverter where it has a 0.
proof fn lemma_display_tick_digit(u: UnitModel, b: int, ins: Seq<(SignalName, bool, Vec<Id>)>, m: int)
    requires
        is_display(u, b),
        0 <= m < 16,
    ensures
        tick_model(u, ins).gates[19 + m].active == (emu_input_value(ins, SignalName('I', 0)) && (forall|t: int|
            0 <= t < 4 && bit_of(m, t) ==> #[trigger] u.gates[35 + t].active) && (forall|t: int|
            0 <= t < 4 && !bit_of(m, t) ==> #[trigger] u.gates[15 + t].active)),
{
    let x = b + 20 + m;
    lemma_display_gate(u, b, 19 + m);
    let ps = parents_of(u, x as Id);
    let ir = input_refs(u.inputs, x as Id);
    let gr = gate_refs(u.gates, x as Id);
    lemma_input_refs_members(u.inputs, x as Id);
    lemma_gate_refs_members(u.gates, x as Id);
    assert(ps == ir + gr);
    let vals = ps.map_values(|r: ParentRef| ref_value(u.gates, ins, r));
    let en = emu_input_value(ins, SignalName('I', 0));
    let cond = en && (forall|t: int| 0 <= t < 4 && bit_of(m, t) ==> #[trigger] u.gates[35 + t].active) && (forall|t: int|
        0 <= t < 4 && !bit_of(m, t) ==> #[trigger] u.gates[15 + t].active);
    lemma_display_input_has(b, 0, x);
    assert(u.inputs[0].ids.contains(x as Id));
    assert(ir.contains(ParentRef::Input(SignalName('I', 0))));
    let mi = choose|k: int| 0 <= k < ir.len() && ir[k] == ParentRef::Input(SignalName('I', 0));
    assert(ps[mi] == ir[mi]);
    assert(vals.len() > 0);
    if all_true(vals) {
        assert(vals[mi] == en);
        assert forall|t: int| 0 <= t < 4 && bit_of(m, t) implies #[trigger] u.gates[35 + t].active by {
            lemma_display_child_has(u, b, 35 + t, x);
            assert(gr.contains(ParentRef::Gate(u.gates[35 + t].id)));
            let k = choose|k: int| 0 <= k < gr.len() && gr[k] == ParentRef::Gate(u.gates[35 + t].id);
            assert(ps[ir.len() + k] == gr[k]);
            assert(vals[ir.len() + k]);
            lemma_display_gate(u, b, 35 + t);
        }
        assert forall|t: int| 0 <= t < 4 && !bit_of(m, t) implies #[trigger] u.gates[15 + t].active by {
            lemma_display_child_has(u, b, 15 + t, x);
            assert(gr.contains(ParentRef::Gate(u.gates[15 + t].id)));
            let k = choose|k: int| 0 <= k < gr.len() && gr[k] == ParentRef::Gate(u.gates[15 + t].id);
            assert(ps[ir.len() + k] == gr[k]);
            assert(vals[ir.len() + k]);
            lemma_display_gate(u, b, 15 + t);
        }
    }
    if cond {
        assert forall|k: int| 0 <= k < vals.len() implies vals[k] by {
            if k < ir.len() {
                let j = choose|j: int|
                    0 <= j < u.inputs.len() && u.inputs[j].ids.contains(x as Id) && ir[k] == ParentRef::Input(
                        u.inputs[j].name,
                    );
                lemma_display_input_has(b, j, x);
                assert(ps[k] == ir[k]);
            } else {
                let kk = k - ir.len();
                let j = choose|j: int|
                    0 <= j < u.gates.len() && u.gates[j].children.contains(x as Id) && gr[kk] == ParentRef::Gate(
                        u.gates[j].id,
                    );
                lemma_display_child_has(u, b, j, x);
                lemma_display_gate(u, b, j);
                assert(ps[k] == gr[kk]);
                if j < 35 {
                    let t = j - 15;
                    assert(!bit_of(m, t));
                    assert(u.gates[15 + t].active);
                } else {
                    let t = j - 35;
                    assert(bit_of(m, t));
                    assert(u.gates[35 + t].active);
                }
            }
        }
    }
}

/// One tick of pixel `i`: it becomes on when the decoder `and` of a digit that lights it
/// was on.
proof fn lemma_display_tick_pixel(u: UnitModel, b: int, ins: Seq<(SignalName, bool, Vec<Id>)>, i: int)
    requires
        is_display(u, b),
        0 <= i < 15,
    ensures
        tick_model(u, ins).gates[i].active == (exists|m: int|
            0 <= m < 10 && digit_row(m)[i] == 1 && #[trigger] u.gates[19 + m].active),
{
    let x = b + 1 + i;
    lemma_display_gate(u, b, i);
    let ps = parents_of(u, x as Id);
    let ir = input_refs(u.inputs, x as Id);
    let gr = gate_refs(u.gates, x as Id);
    lemma_input_refs_members(u.inputs, x as Id);
    lemma_gate_refs_members(u.gates, x as Id);
    assert(ir.len() == 0) by {
        if ir.len() > 0 {
            let j = choose|j: int|
                0 <= j < u.inputs.len() && u.inputs[j].ids.contains(x as Id) && ir[0] == ParentRef::Input(
                    u.inputs[j].name,
                );
            lemma_display_input_has(b, j, x);
        }
    }
    assert(ps =~= gr);
    let vals = ps.map_values(|r: ParentRef| ref_value(u.gates, ins, r));
    let some = exists|m: int| 0 <= m < 10 && digit_row(m)[i] == 1 && #[trigger] u.gates[19 + m].active;
    if any_true(vals) {
        let k = choose|k: int| 0 <= k < vals.len() && vals[k];
        let j = choose|j: int|
            0 <= j < u.gates.len() && u.gates[j].children.contains(x as Id) && gr[k] == ParentRef::Gate(u.gates[j].id);
        lemma_display_child_has(u, b, j, x);
        lemma_display_gate(u, b, j);
        assert(u.gates[19 + (j - 19)].active);
    }
    if some {
        let m = choose|m: int| 0 <= m < 10 && digit_row(m)[i] == 1 && #[trigger] u.gates[19 + m].active;
        lemma_display_child_has(u, b, 19 + m, x);
        assert(gr.contains(ParentRef::Gate(u.gates[19 + m].id)));
        let k = choose|k: int| 0 <= k < gr.len() && gr[k] == ParentRef::Gate(u.gates[19 + m].id);
        lemma_display_gate(u, b, 19 + m);
        assert(vals[k]);
    }
}

/// The digit display shows the digit: with `I` and the selects held, after four ticks,
/// whatever state its gates started in, pixel `d i` is on exactly when `I` is on and the
/// selects `S0 .. S3` spell a digit `m` below 10 whose pattern lights pixel `i`.
pub proof fn law_display_shows_digit(u: UnitModel, b: int, ins: Seq<(SignalName, bool, Vec<Id>)>)
    requires
        is_display(u, b),
    ensures
        ({
            let u4 = tick_model(tick_model(tick_model(tick_model(u, ins), ins), ins), ins);
            &&& is_display(u4, b)
            &&& forall|i: int|
                0 <= i < 15 ==> #[trigger] u4.outputs[i].id == u4.gates[i].id && u4.outputs[i].name == SignalName(
                    'd',
                    i as u8,
                )
            &&& forall|i: int|
                0 <= i < 15 ==> #[trigger] u4.gates[i].active == (emu_input_value(ins, SignalName('I', 0)) && exists|m: int|
                    0 <= m < 10 && spells(ins, 4, m) && #[trigger] digit_row(m)[i] == 1)
        }),
{
    let en = emu_input_value(ins, SignalName('I', 0));
    let u1 = tick_model(u, ins);
    let u2 = tick_model(u1, ins);
    let u3 = tick_model(u2, ins);
    let u4 = tick_model(u3, ins);
    lemma_display_tick_shape(u, b, ins);
    lemma_display_tick_shape(u1, b, ins);
    lemma_display_tick_shape(u2, b, ins);
    lemma_display_tick_shape(u3, b, ins);
    assert forall|t: int| 0 <= t < 4 implies #[trigger] u1.gates[35 + t].active == sel_in(ins, t) by {
        lemma_display_tick_buffer(u, b, ins, t);
    }
    assert forall|t: int| 0 <= t < 4 implies #[trigger] u2.gates[35 + t].active == sel_in(ins, t)
        && u2.gates[15 + t].active == !sel_in(ins, t) by {
        lemma_display_tick_buffer(u1, b, ins, t);
        lemma_display_tick_inverter(u1, b, ins, t);
    }
    assert forall|m: int| 0 <= m < 16 implies #[trigger] u3.gates[19 + m].active == (en && spells(ins, 4, m)) by {
        lemma_display_tick_digit(u2, b, ins, m);
        if u3.gates[19 + m].active {
            assert forall|t: int| 0 <= t < 4 implies #[trigger] sel_in(ins, t) == bit_of(m, t) by {
                if bit_of(m, t) {
                    assert(u2.gates[35 + t].active);
                } else {
                    assert(u2.gates[15 + t].active);
                    assert(u2.gates[35 + t].active == sel_in(ins, t));
                }
            }
        }
        if en && spells(ins, 4, m) {
            assert forall|t: int| 0 <= t < 4 && bit_of(m, t) implies #[trigger] u2.gates[35 + t].active by {
                assert(sel_in(ins, t) == bit_of(m, t));
            }
            assert forall|t: int| 0 <= t < 4 && !bit_of(m, t) implies #[trigger] u2.gates[15 + t].active by {
                assert(sel_in(ins, t) == bit_of(m, t));
                assert(u2.gates[35 + t].active == sel_in(ins, t));
            }
        }
    }
    assert forall|i: int| 0 <= i < 15 implies #[trigger] u4.gates[i].active == (en && exists|m: int|
        0 <= m < 10 && spells(ins, 4, m) && #[trigger] digit_row(m)[i] == 1) by {
        lemma_display_tick_pixel(u3, b, ins, i);
        if u4.gates[i].active {
            let m = choose|m: int| 0 <= m < 10 && digit_row(m)[i] == 1 && #[trigger] u3.gates[19 + m].active;
            assert(spells(ins, 4, m) && digit_row(m)[i] == 1);
        }
        if en && exists|m: int| 0 <= m < 10 && spells(ins, 4, m) && #[trigger] digit_row(m)[i] == 1 {
            let m = choose|m: int| 0 <= m < 10 && spells(ins, 4, m) && #[trigger] digit_row(m)[i] == 1;
            assert(u3.gates[19 + m].active);
        }
    }
    assert forall|i: int| 0 <= i < 15 implies #[trigger] u4.outputs[i].id == u4.gates[i].id && u4.outputs[i].name
        == SignalName('d', i as u8) by {
        lemma_display_gate(u4, b, i);
    }
}

} // verus!
