use vstd::prelude::*;

use crate::decoder_law::{
    lemma_gate_refs_members, lemma_input_refs_members, lemma_select_contains, sel_in, spells,
};
use crate::emulator::{emu_input_value, gate_refs, input_refs, parents_of, ref_value, ParentRef};
use crate::laws::tick_model;
use crate::logic::{at, bit_of, mux_2n_1_gates, mux_2n_1_inputs, outp, select_ids, sn};
use crate::logic_gate::{all_true, any_true, GateModel, LogicGateMode};
use crate::logic_unit::{first_gate, lemma_first_gate, UnitModel};
use crate::utils::{Id, SignalName};
use vstd::arithmetic::power2::{lemma_pow2_pos, pow2};

verus! {

// ---------------------------------------------------------------------------
// The 2^n : 1 multiplexer: the output `or` at place 0, the `and` of data input `i` at
// place `1 + i`, the inverter of select line `k` at place `1 + 2^n + k`.

/// The unit is a `2^n : 1` multiplexer built after id `b`, its gates in any state.
pub open spec fn is_mux_2n(u: UnitModel, b: int, n: int) -> bool {
    &&& 0 <= b
    &&& 0 <= n < 32
    &&& b + 1 + pow2(n as nat) + n <= u32::MAX
    &&& u.inputs == mux_2n_1_inputs(b, n)
    &&& u.outputs == seq![outp(sn('O', 0), b + 1)]
    &&& u.gates.len() == 1 + pow2(n as nat) + n
    &&& forall|k: int|
        0 <= k < u.gates.len() ==> #[trigger] u.gates[k] == (GateModel {
            active: u.gates[k].active,
            ..mux_2n_1_gates(b, n)[k]
        })
}

/// The value on data input `I i`.
pub open spec fn data_in(ins: Seq<(SignalName, bool, Vec<Id>)>, i: int) -> bool {
    emu_input_value(ins, SignalName('I', i as u8))
}

/// Gate `q` of a multiplexer: its id, mode and children, and where it sits.
proof fn lemma_mux_gate(u: UnitModel, b: int, n: int, q: int)
    requires
        is_mux_2n(u, b, n),
        0 <= q < u.gates.len(),
    ensures
        u.gates[q].id == b + 1 + q,
        u.gates[q].mode == (if q == 0 {
            LogicGateMode::Or
        } else if q <= pow2(n as nat) {
            LogicGateMode::And
        } else {
            LogicGateMode::Nand
        }),
        u.gates[q].children == (if q == 0 {
            Seq::<Id>::empty()
        } else if q <= pow2(n as nat) {
            seq![at(b, 1)]
        } else {
            select_ids(b + 2, q - 1 - pow2(n as nat), false, pow2(n as nat) as int)
        }),
        first_gate(u.gates, (b + 1 + q) as Id) == q,
{
    assert(u.gates[q] == (GateModel { active: u.gates[q].active, ..mux_2n_1_gates(b, n)[q] }));
    assert forall|j: int| 0 <= j < q implies u.gates[j].id != (b + 1 + q) as Id by {
        assert(u.gates[j] == (GateModel { active: u.gates[j].active, ..mux_2n_1_gates(b, n)[j] }));
    }
    lemma_first_gate(u.gates, (b + 1 + q) as Id, q);
}

/// The inputs of a multiplexer that have gate `x` among their gates.
proof fn lemma_mux_input_has(b: int, n: int, j: int, x: int)
    requires
        0 <= b,
        0 <= n < 32,
        b + 1 + pow2(n as nat) + n <= u32::MAX,
        0 <= j < n + pow2(n as nat),
        b + 1 <= x < b + 2 + pow2(n as nat) + n,
    ensures
        j < n ==> (mux_2n_1_inputs(b, n)[j].ids.contains(x as Id) <==> (x == b + 2 + pow2(n as nat) + j || (b + 2
            <= x < b + 2 + pow2(n as nat) && bit_of(x - (b + 2), j)))),
        j >= n ==> (mux_2n_1_inputs(b, n)[j].ids.contains(x as Id) <==> x == b + 2 + (j - n)),
        j < n ==> mux_2n_1_inputs(b, n)[j].name == SignalName('S', j as u8),
        j >= n ==> mux_2n_1_inputs(b, n)[j].name == SignalName('I', (j - n) as u8),
{
    let big = pow2(n as nat) as int;
    let ins = mux_2n_1_inputs(b, n);
    if j < n {
        let sel = select_ids(b + 2, j, true, big);
        lemma_select_contains(b + 2, j, true, big);
        let own = seq![at(b, 2 + big + j)];
        assert(ins[j].ids == own + sel);
        if ins[j].ids.contains(x as Id) {
            let m = choose|m: int| 0 <= m < ins[j].ids.len() && ins[j].ids[m] == x as Id;
            if m >= 1 {
                assert(sel[m - 1] == x as Id);
                if b + 2 <= x < b + 2 + big {
                    assert(sel.contains((b + 2 + (x - (b + 2))) as Id));
                }
            }
        }
        if b + 2 <= x < b + 2 + big && bit_of(x - (b + 2), j) {
            assert(sel.contains((b + 2 + (x - (b + 2))) as Id));
            let m = choose|m: int| 0 <= m < sel.len() && sel[m] == x as Id;
            assert(ins[j].ids[m + 1] == sel[m]);
        }
        if x == b + 2 + big + j {
            assert(ins[j].ids[0] == x as Id);
        }
    } else {
        assert(ins[j].ids == seq![at(b, 2 + j - n)]);
        if x == b + 2 + (j - n) {
            assert(ins[j].ids[0] == x as Id);
        }
    }
}

/// The gates of a multiplexer that have gate `x` among their children.
proof fn lemma_mux_child_has(u: UnitModel, b: int, n: int, j: int, x: int)
    requires
        is_mux_2n(u, b, n),
        0 <= j < u.gates.len(),
        b + 1 <= x < b + 2 + pow2(n as nat) + n,
    ensures
        u.gates[j].children.contains(x as Id) <==> ((1 <= j <= pow2(n as nat) && x == b + 1) || (j > pow2(n as nat)
            && b + 2 <= x < b + 2 + pow2(n as nat) && !bit_of(x - (b + 2), j - 1 - pow2(n as nat)))),
{
    let big = pow2(n as nat) as int;
    lemma_mux_gate(u, b, n, j);
    if 1 <= j <= big {
        if x == b + 1 {
            assert(u.gates[j].children[0] == x as Id);
        }
    } else if j > big {
        let sel = select_ids(b + 2, j - 1 - big, false, big);
        lemma_select_contains(b + 2, j - 1 - big, false, big);
        if sel.contains(x as Id) {
            let m = choose|m: int| 0 <= m < sel.len() && sel[m] == x as Id;
            assert(sel[m] >= b + 2);
        }
        if b + 2 <= x < b + 2 + big {
            assert(sel.contains((b + 2 + (x - (b + 2))) as Id) <==> !bit_of(x - (b + 2), j - 1 - big));
        }
    }
}

/// One tick of inverter `k`: it becomes `not S k`.
proof fn lemma_mux_tick_inverter(u: UnitModel, b: int, n: int, ins: Seq<(SignalName, bool, Vec<Id>)>, k: int)
    requires
        is_mux_2n(u, b, n),
        0 <= k < n,
    ensures
        tick_model(u, ins).gates[1 + pow2(n as nat) + k].active == !sel_in(ins, k),
{
    let big = pow2(n as nat) as int;
    let q = 1 + big + k;
    let x = b + 1 + q;
    lemma_mux_gate(u, b, n, q);
    let ps = parents_of(u, x as Id);
    let ir = input_refs(u.inputs, x as Id);
    let gr = gate_refs(u.gates, x as Id);
    lemma_input_refs_members(u.inputs, x as Id);
    lemma_gate_refs_members(u.gates, x as Id);
    assert(gr.len() == 0) by {
        if gr.len() > 0 {
            let j = choose|j: int|
                0 <= j < u.gates.len() && u.gates[j].children.contains(x as Id) && gr[0] == ParentRef::Gate(
                    u.gates[j].id,
                );
            lemma_mux_child_has(u, b, n, j, x);
        }
    }
    assert forall|m: int| 0 <= m < ir.len() implies ir[m] == ParentRef::Input(SignalName('S', k as u8)) by {
        let j = choose|j: int|
            0 <= j < u.inputs.len() && u.inputs[j].ids.contains(x as Id) && ir[m] == ParentRef::Input(
                u.inputs[j].name,
            );
        lemma_mux_input_has(b, n, j, x);
    }
    lemma_mux_input_has(b, n, k, x);
    assert(u.inputs[k].ids.contains(x as Id));
    assert(ir.contains(ParentRef::Input(SignalName('S', k as u8))));
    let vals = ps.map_values(|r: ParentRef| ref_value(u.gates, ins, r));
    assert(ps =~= ir);
    assert(vals.len() > 0);
    assert forall|m: int| 0 <= m < vals.len() implies vals[m] == sel_in(ins, k) by {
        assert(ps[m] == ParentRef::Input(SignalName('S', k as u8)));
    }
    assert(all_true(vals) == sel_in(ins, k)) by {
        if !sel_in(ins, k) {
            assert(!vals[0]);
        }
    }
}

/// One tick of the `and` of data input `i`: it becomes on when `I i` is on, the selects
/// that are set in `i` are on, and the inverters of the others were on.
proof fn lemma_mux_tick_and(u: UnitModel, b: int, n: int, ins: Seq<(SignalName, bool, Vec<Id>)>, i: int)
    requires
        is_mux_2n(u, b, n),
        0 <= i < pow2(n as nat),
    ensures
        tick_model(u, ins).gates[1 + i].active == (data_in(ins, i) && (forall|k: int|
            0 <= k < n && bit_of(i, k) ==> #[trigger] sel_in(ins, k)) && (forall|k: int|
            0 <= k < n && !bit_of(i, k) ==> #[trigger] u.gates[1 + pow2(n as nat) + k].active)),
{
    let big = pow2(n as nat) as int;
    let x = b + 2 + i;
    lemma_mux_gate(u, b, n, 1 + i);
    let ps = parents_of(u, x as Id);
    let ir = input_refs(u.inputs, x as Id);
    let gr = gate_refs(u.gates, x as Id);
    lemma_input_refs_members(u.inputs, x as Id);
    lemma_gate_refs_members(u.gates, x as Id);
    assert(ps == ir + gr);
    let vals = ps.map_values(|r: ParentRef| ref_value(u.gates, ins, r));
    let cond = data_in(ins, i) && (forall|k: int| 0 <= k < n && bit_of(i, k) ==> #[trigger] sel_in(ins, k))
        && (forall|k: int| 0 <= k < n && !bit_of(i, k) ==> #[trigger] u.gates[1 + big + k].active);
    // the data input drives its `and`
    lemma_mux_input_has(b, n, n + i, x);
    assert(u.inputs[n + i].ids.contains(x as Id));
    assert(ir.contains(ParentRef::Input(SignalName('I', i as u8))));
    let mi = choose|m: int| 0 <= m < ir.len() && ir[m] == ParentRef::Input(SignalName('I', i as u8));
    assert(ps[mi] == ir[mi]);
    assert(vals.len() > 0);
    if all_true(vals) {
        assert(vals[mi] == data_in(ins, i));
        assert forall|k: int| 0 <= k < n && bit_of(i, k) implies #[trigger] sel_in(ins, k) by {
            lemma_mux_input_has(b, n, k, x);
            assert(u.inputs[k].ids.contains(x as Id));
            assert(ir.contains(ParentRef::Input(SignalName('S', k as u8))));
            let m = choose|m: int| 0 <= m < ir.len() && ir[m] == ParentRef::Input(SignalName('S', k as u8));
            assert(ps[m] == ir[m]);
            assert(vals[m]);
        }
        assert forall|k: int| 0 <= k < n && !bit_of(i, k) implies #[trigger] u.gates[1 + big + k].active by {
            lemma_mux_child_has(u, b, n, 1 + big + k, x);
            assert(u.gates[1 + big + k].children.contains(x as Id));
            assert(gr.contains(ParentRef::Gate(u.gates[1 + big + k].id)));
            let m = choose|m: int| 0 <= m < gr.len() && gr[m] == ParentRef::Gate(u.gates[1 + big + k].id);
            assert(ps[ir.len() + m] == gr[m]);
            assert(vals[ir.len() + m]);
            lemma_mux_gate(u, b, n, 1 + big + k);
        }
    }
    if cond {
        assert forall|m: int| 0 <= m < vals.len() implies vals[m] by {
            if m < ir.len() {
                let j = choose|j: int|
                    0 <= j < u.inputs.len() && u.inputs[j].ids.contains(x as Id) && ir[m] == ParentRef::Input(
                        u.inputs[j].name,
                    );
                lemma_mux_input_has(b, n, j, x);
                assert(ps[m] == ir[m]);
                if j < n {
                    assert(bit_of(i, j));
                    assert(sel_in(ins, j));
                } else {
                    assert(j - n == i);
                    assert(data_in(ins, i));
                }
            } else {
                let mm = m - ir.len();
                let j = choose|j: int|
                    0 <= j < u.gates.len() && u.gates[j].children.contains(x as Id) && gr[mm] == ParentRef::Gate(
                        u.gates[j].id,
                    );
                lemma_mux_child_has(u, b, n, j, x);
                lemma_mux_gate(u, b, n, j);
                assert(ps[m] == gr[mm]);
                let k = j - 1 - big;
                assert(!bit_of(i, k));
                assert(u.gates[1 + big + k].active);
            }
        }
    }
}

/// One tick of the output `or`: it becomes on when one of the `and`s was on.
proof fn lemma_mux_tick_or(u: UnitModel, b: int, n: int, ins: Seq<(SignalName, bool, Vec<Id>)>)
    requires
        is_mux_2n(u, b, n),
    ensures
        tick_model(u, ins).gates[0].active == (exists|i: int| 0 <= i < pow2(n as nat) && #[trigger] u.gates[1 + i].active),
{
    let big = pow2(n as nat) as int;
    let x = b + 1;
    lemma_mux_gate(u, b, n, 0);
    let ps = parents_of(u, x as Id);
    let ir = input_refs(u.inputs, x as Id);
    let gr = gate_refs(u.gates, x as Id);
    lemma_input_refs_members(u.inputs, x as Id);
    lemma_gate_refs_members(u.gates, x as Id);
    assert(ir.len() == 0) by {
        if ir.len() > 0 {
            let j = choose|j: int|
                0 <= j < u.inputs.len() && u.inputs[j].ids.contains(x as Id) && ir[0] == ParentRef::Input(
                    u.inputs[j].name,
                );
            lemma_mux_input_has(b, n, j, x);
        }
    }
    assert(ps =~= gr);
    let vals = ps.map_values(|r: ParentRef| ref_value(u.gates, ins, r));
    let some = exists|i: int| 0 <= i < big && #[trigger] u.gates[1 + i].active;
    lemma_pow2_pos(n as nat);
    assert(u.gates[1].children.contains(x as Id)) by {
        lemma_mux_child_has(u, b, n, 1, x);
    }
    assert(gr.len() > 0);
    if any_true(vals) {
        let m = choose|m: int| 0 <= m < vals.len() && vals[m];
        let j = choose|j: int|
            0 <= j < u.gates.len() && u.gates[j].children.contains(x as Id) && gr[m] == ParentRef::Gate(u.gates[j].id);
        lemma_mux_child_has(u, b, n, j, x);
        lemma_mux_gate(u, b, n, j);
        assert(u.gates[1 + (j - 1)].active);
    }
    if some {
        let i = choose|i: int| 0 <= i < big && #[trigger] u.gates[1 + i].active;
        lemma_mux_child_has(u, b, n, 1 + i, x);
        assert(gr.contains(ParentRef::Gate(u.gates[1 + i].id)));
        let m = choose|m: int| 0 <= m < gr.len() && gr[m] == ParentRef::Gate(u.gates[1 + i].id);
        lemma_mux_gate(u, b, n, 1 + i);
        assert(vals[m]);
    }
}

/// A tick keeps the multiplexer's layout.
proof fn lemma_mux_tick_shape(u: UnitModel, b: int, n: int, ins: Seq<(SignalName, bool, Vec<Id>)>)
    requires
        is_mux_2n(u, b, n),
    ensures
        is_mux_2n(tick_model(u, ins), b, n),
{
    let t = tick_model(u, ins);
    assert forall|k: int| 0 <= k < t.gates.len() implies #[trigger] t.gates[k] == (GateModel {
        active: t.gates[k].active,
        ..mux_2n_1_gates(b, n)[k]
    }) by {
        assert(u.gates[k] == (GateModel { active: u.gates[k].active, ..mux_2n_1_gates(b, n)[k] }));
    }
}

/// A `2^n : 1` multiplexer selects: with the selects and the data inputs held, after three
/// ticks, whatever state its gates started in, output `O` is on exactly when some data
/// input `I i` is on whose index `i` the selects `S0 .. S(n-1)` spell in binary.
pub proof fn law_mux_2n_1_selects(u: UnitModel, b: int, n: int, ins: Seq<(SignalName, bool, Vec<Id>)>)
    requires
        is_mux_2n(u, b, n),
    ensures
        ({
            let u3 = tick_model(tick_model(tick_model(u, ins), ins), ins);
            &&& is_mux_2n(u3, b, n)
            &&& u3.gates[0].id == u3.outputs[0].id && u3.outputs[0].name == SignalName('O', 0)
            &&& u3.gates[0].active == exists|i: int| 0 <= i < pow2(n as nat) && #[trigger] data_in(ins, i) && spells(ins, n, i)
        }),
{
    let big = pow2(n as nat) as int;
    let u1 = tick_model(u, ins);
    let u2 = tick_model(u1, ins);
    let u3 = tick_model(u2, ins);
    lemma_mux_tick_shape(u, b, n, ins);
    lemma_mux_tick_shape(u1, b, n, ins);
    lemma_mux_tick_shape(u2, b, n, ins);
    assert forall|k: int| 0 <= k < n implies #[trigger] u1.gates[1 + big + k].active == !sel_in(ins, k) by {
        lemma_mux_tick_inverter(u, b, n, ins, k);
    }
    assert forall|i: int| 0 <= i < big implies #[trigger] u2.gates[1 + i].active == (data_in(ins, i) && spells(
        ins,
        n,
        i,
    )) by {
        lemma_mux_tick_and(u1, b, n, ins, i);
        if u2.gates[1 + i].active {
            assert forall|k: int| 0 <= k < n implies #[trigger] sel_in(ins, k) == bit_of(i, k) by {
                if !bit_of(i, k) {
                    assert(u1.gates[1 + big + k].active);
                }
            }
        }
        if data_in(ins, i) && spells(ins, n, i) {
            assert forall|k: int| 0 <= k < n && !bit_of(i, k) implies #[trigger] u1.gates[1 + big + k].active by {
                assert(sel_in(ins, k) == bit_of(i, k));
            }
        }
    }
    lemma_mux_tick_or(u2, b, n, ins);
    if u3.gates[0].active {
        let i = choose|i: int| 0 <= i < big && #[trigger] u2.gates[1 + i].active;
        assert(data_in(ins, i) && spells(ins, n, i));
    }
    if exists|i: int| 0 <= i < big && #[trigger] data_in(ins, i) && spells(ins, n, i) {
        let i = choose|i: int| 0 <= i < big && #[trigger] data_in(ins, i) && spells(ins, n, i);
        assert(u2.gates[1 + i].active);
    }
    lemma_mux_gate(u3, b, n, 0);
}

} // verus!
