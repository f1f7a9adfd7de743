use vstd::prelude::*;

use crate::adder_law::{lemma_ids_refs_once, lemma_two_values, ticks};
use crate::alu_law::{gate_refs_at, input_refs_at, lemma_gate_refs_at, lemma_input_refs_at};
use crate::emulator::{emu_input_value, parents_of, ref_value, ParentRef};
use crate::laws::tick_model;
use crate::logic::{
    at, lemma_reg_8b_index, reg_1b_gates, reg_8b_gates, reg_8b_inputs, reg_8b_outputs, reg_8b_write_ids, sn,
};
use crate::logic_gate::{all_true, gate_output, GateModel, LogicGateMode};
use crate::logic_unit::{lemma_first_gate, UnitModel};
use crate::utils::{Id, SignalName};

verus! {

// ---------------------------------------------------------------------------
// The layout of the eight-bit register, by place: place `p` holds a gate with id
// `b + p + 1`; bit `i` has its one-bit register `nand1 (O), nand2, h1, h2, nand3, nand4,
// not` at places `7 i .. 7 i + 6`.

/// The gates are those of the eight-bit register built after id `b`, in any state.
#[verifier::opaque]
pub open spec fn reg8_layout(gs: Seq<GateModel>, b: int) -> bool {
    forall|k: int|
        0 <= k < 56 ==> #[trigger] gs[k] == (GateModel { active: gs[k].active, ..reg_8b_gates(b, 8)[k] })
}

/// The unit is the eight-bit register built after id `b`, its gates in any state.
pub open spec fn reg8_shaped(gs: Seq<GateModel>, b: int) -> bool {
    &&& 0 <= b
    &&& b + 56 <= u32::MAX
    &&& gs.len() == 56
    &&& reg8_layout(gs, b)
}

/// The unit of the eight-bit register built after id `b`, with gates `gs`.
pub open spec fn reg8_unit(gs: Seq<GateModel>, b: int) -> UnitModel {
    UnitModel { gates: gs, inputs: reg_8b_inputs(b), outputs: reg_8b_outputs(b) }
}

/// The places of the gates that gate `q` of the register drives.
pub open spec fn reg8_child_places(q: int) -> Seq<int> {
    let i = q / 7;
    let r = q % 7;
    let c = 7 * i;
    if r == 0 {
        seq![c + 3]
    } else if r == 1 {
        seq![c + 2]
    } else if r == 2 || r == 5 {
        seq![c]
    } else if r == 3 || r == 4 {
        seq![c + 1]
    } else {
        seq![c + 4]
    }
}

/// Gate `q` of the register: its id, mode, and the ids of the gates it drives.
pub proof fn lemma_reg8_gate(gs: Seq<GateModel>, b: int, q: int)
    requires
        reg8_shaped(gs, b),
        0 <= q < 56,
    ensures
        gs[q].id == at(b, q + 1),
        gs[q].mode == reg_1b_gates(0)[q % 7].mode,
        gs[q].children.len() == 1,
        gs[q].children[0] == at(b, reg8_child_places(q)[0] + 1),
{
    reveal(reg8_layout);
    assert(gs[q] == (GateModel { active: gs[q].active, ..reg_8b_gates(b, 8)[q] }));
    lemma_reg_8b_index(b, 8, q);
    assert(q == 7 * (q / 7) + q % 7);
}

/// The places of the gates that input `j` of the register drives (`W`, then `I0 .. I7`).
pub open spec fn reg8_input_places(j: int) -> Seq<int> {
    if j == 0 {
        Seq::new(16, |m: int| 7 * (m / 2) + 4 + m % 2)
    } else {
        seq![7 * (j - 1) + 5, 7 * (j - 1) + 6]
    }
}

/// The name of input `j` of the register.
pub open spec fn reg8_input_name(j: int) -> SignalName {
    if j == 0 {
        sn('W', 0)
    } else {
        sn('I', (j - 1) as u8)
    }
}

/// The write-enable ids, one by one.
proof fn lemma_reg8_write_ids(b: int, r: int)
    requires
        0 <= r <= 8,
    ensures
        reg_8b_write_ids(b, r).len() == 2 * r,
        forall|m: int| 0 <= m < 2 * r ==> #[trigger] reg_8b_write_ids(b, r)[m] == at(b, 7 * (m / 2) + 5 + m % 2),
    decreases r,
{
    if r > 0 {
        lemma_reg8_write_ids(b, r - 1);
        assert forall|m: int| 0 <= m < 2 * r implies #[trigger] reg_8b_write_ids(b, r)[m] == at(
            b,
            7 * (m / 2) + 5 + m % 2,
        ) by {
            if m >= 2 * (r - 1) {
                assert(m / 2 == r - 1);
                assert(m % 2 == m - 2 * (r - 1));
            }
        }
    }
}

/// Input `j` of the register: its name, and the ids of the gates it drives.
pub proof fn lemma_reg8_input(b: int, j: int)
    requires
        0 <= b,
        b + 56 <= u32::MAX,
        0 <= j < 9,
    ensures
        reg_8b_inputs(b).len() == 9,
        reg_8b_inputs(b)[j].name == reg8_input_name(j),
        reg_8b_inputs(b)[j].ids.len() == reg8_input_places(j).len(),
        forall|m: int|
            0 <= m < reg8_input_places(j).len() ==> #[trigger] reg_8b_inputs(b)[j].ids[m] == at(
                b,
                reg8_input_places(j)[m] + 1,
            ),
{
    lemma_reg8_write_ids(b, 8);
}

// ---------------------------------------------------------------------------
// Who drives whom in the register, by place

/// The places of the gates that drive place `p` of the register, in order.
pub open spec fn reg8_gate_drivers(p: int) -> Seq<int> {
    let i = p / 7;
    let r = p % 7;
    let c = 7 * i;
    if r == 0 {
        seq![c + 2, c + 5]
    } else if r == 1 {
        seq![c + 3, c + 4]
    } else if r == 2 {
        seq![c + 1]
    } else if r == 3 {
        seq![c]
    } else if r == 4 {
        seq![c + 6]
    } else {
        seq![]
    }
}

/// The places of the inputs that drive place `p` of the register, in order.
pub open spec fn reg8_input_drivers(p: int) -> Seq<int> {
    let i = p / 7;
    let r = p % 7;
    if r == 4 {
        seq![0]
    } else if r == 5 {
        seq![0, 1 + i]
    } else if r == 6 {
        seq![1 + i]
    } else {
        seq![]
    }
}

/// A gate that drives place `p` is among its drivers.
proof fn lemma_reg8_child_driver(q: int)
    requires
        0 <= q < 56,
    ensures
        reg8_gate_drivers(reg8_child_places(q)[0]).contains(q),
        0 <= reg8_child_places(q)[0] < 56,
{
    let i = q / 7;
    let r = q % 7;
    assert(q == 7 * i + r);
    let p = reg8_child_places(q)[0];
    assert(p / 7 == i);
    let d = reg8_gate_drivers(p);
    if r <= 3 || r == 6 {
        assert(d[0] == q);
    } else {
        assert(d[1] == q);
    }
}

/// Each gate driver of place `p` drives it, and the drivers are in order.
proof fn lemma_reg8_driver_child(p: int, a: int)
    requires
        0 <= p < 56,
        0 <= a < reg8_gate_drivers(p).len(),
    ensures
        0 <= reg8_gate_drivers(p)[a] < 56,
        reg8_child_places(reg8_gate_drivers(p)[a])[0] == p,
        forall|c: int| 0 <= c < a ==> reg8_gate_drivers(p)[c] < reg8_gate_drivers(p)[a],
{
    let i = p / 7;
    let r = p % 7;
    assert(p == 7 * i + r);
    let q = reg8_gate_drivers(p)[a];
    assert(q / 7 == i);
}

/// Where place `p` sits in the list of input `j`: exactly one `m`.
proof fn lemma_reg8_input_index(j: int, m: int)
    requires
        0 <= j < 9,
        0 <= m < reg8_input_places(j).len(),
    ensures
        0 <= reg8_input_places(j)[m] < 56,
        reg8_input_drivers(reg8_input_places(j)[m]).contains(j),
        forall|n: int|
            0 <= n < reg8_input_places(j).len() && n != m ==> reg8_input_places(j)[n] != reg8_input_places(j)[m],
{
    let ps = reg8_input_places(j);
    let p = ps[m];
    let d = reg8_input_drivers(p);
    if j == 0 {
        assert(m == 2 * (m / 2) + m % 2);
        assert(p / 7 == m / 2 && p % 7 == 4 + m % 2);
        assert(d[0] == 0);
        assert forall|n: int| 0 <= n < ps.len() && n != m implies ps[n] != p by {
            assert(n == 2 * (n / 2) + n % 2);
        }
    } else {
        assert(p / 7 == j - 1 && p % 7 == 5 + m);
        if m == 0 {
            assert(d[1] == j);
        } else {
            assert(d[0] == j);
        }
    }
}

/// Each input that drives place `p` has it in its list, and the drivers are in order.
proof fn lemma_reg8_input_driver(p: int, a: int)
    requires
        0 <= p < 56,
        0 <= a < reg8_input_drivers(p).len(),
    ensures
        0 <= reg8_input_drivers(p)[a] < 9,
        reg8_input_places(reg8_input_drivers(p)[a]).contains(p),
        forall|c: int| 0 <= c < a ==> reg8_input_drivers(p)[c] < reg8_input_drivers(p)[a],
{
    let i = p / 7;
    let r = p % 7;
    assert(p == 7 * i + r);
    let j = reg8_input_drivers(p)[a];
    let ps = reg8_input_places(j);
    if j == 0 {
        let m = 2 * i + (r - 4);
        assert(m / 2 == i && m % 2 == r - 4);
        assert(ps[m] == p);
    } else {
        assert(ps[r - 5] == p);
    }
}

// ---------------------------------------------------------------------------
// What drives each gate of the register

/// The drivers of place `p` of the register: its inputs, then its gates.
pub open spec fn reg8_parents(b: int, p: int) -> Seq<ParentRef> {
    reg8_input_drivers(p).map_values(|j: int| ParentRef::Input(reg8_input_name(j))) + reg8_gate_drivers(
        p,
    ).map_values(|q: int| ParentRef::Gate(at(b, q + 1)))
}

/// Distinct places have distinct ids.
proof fn lemma_at_injective(b: int, p1: int, p2: int)
    requires
        0 <= b,
        b + 56 <= u32::MAX,
        0 <= p1 < 56,
        0 <= p2 < 56,
        at(b, p1 + 1) == at(b, p2 + 1),
    ensures
        p1 == p2,
{
}

/// The first `k` gate drivers of place `p`, one each.
proof fn lemma_reg8_gate_refs_at(gs: Seq<GateModel>, b: int, p: int, k: int)
    requires
        reg8_shaped(gs, b),
        0 <= p < 56,
        0 <= k <= reg8_gate_drivers(p).len(),
    ensures
        gate_refs_at(gs, at(b, p + 1), reg8_gate_drivers(p).take(k)) == reg8_gate_drivers(p).take(k).map_values(
            |q: int| ParentRef::Gate(at(b, q + 1)),
        ),
    decreases k,
{
    let js = reg8_gate_drivers(p);
    let x = at(b, p + 1);
    if k > 0 {
        lemma_reg8_gate_refs_at(gs, b, p, k - 1);
        assert(js.take(k).drop_last() =~= js.take(k - 1));
        let q = js[k - 1];
        lemma_reg8_driver_child(p, k - 1);
        lemma_reg8_gate(gs, b, q);
        lemma_ids_refs_once(gs[q].children, x, ParentRef::Gate(gs[q].id), 0);
        assert(gate_refs_at(gs, x, js.take(k)) =~= js.take(k).map_values(|q: int| ParentRef::Gate(at(b, q + 1))));
    } else {
        assert(js.take(0).map_values(|q: int| ParentRef::Gate(at(b, q + 1))) =~= Seq::<ParentRef>::empty());
    }
}

/// The first `k` input drivers of place `p`, one each.
proof fn lemma_reg8_input_refs_at(b: int, p: int, k: int)
    requires
        0 <= b,
        b + 56 <= u32::MAX,
        0 <= p < 56,
        0 <= k <= reg8_input_drivers(p).len(),
    ensures
        input_refs_at(reg_8b_inputs(b), at(b, p + 1), reg8_input_drivers(p).take(k)) == reg8_input_drivers(p).take(
            k,
        ).map_values(|j: int| ParentRef::Input(reg8_input_name(j))),
    decreases k,
{
    let js = reg8_input_drivers(p);
    let ins = reg_8b_inputs(b);
    let x = at(b, p + 1);
    if k > 0 {
        lemma_reg8_input_refs_at(b, p, k - 1);
        assert(js.take(k).drop_last() =~= js.take(k - 1));
        let j = js[k - 1];
        lemma_reg8_input_driver(p, k - 1);
        lemma_reg8_input(b, j);
        let ps = reg8_input_places(j);
        let m = choose|m: int| 0 <= m < ps.len() && ps[m] == p;
        lemma_reg8_input_index(j, m);
        assert forall|n: int| 0 <= n < ins[j].ids.len() && n != m implies ins[j].ids[n] != x by {
            lemma_reg8_input_index(j, n);
            if ins[j].ids[n] == x {
                lemma_at_injective(b, ps[n], p);
            }
        }
        lemma_ids_refs_once(ins[j].ids, x, ParentRef::Input(ins[j].name), m);
        assert(input_refs_at(ins, x, js.take(k)) =~= js.take(k).map_values(
            |j: int| ParentRef::Input(reg8_input_name(j)),
        ));
    } else {
        assert(js.take(0).map_values(|j: int| ParentRef::Input(reg8_input_name(j))) =~= Seq::<ParentRef>::empty());
    }
}

/// What drives place `p` of the register is `reg8_parents`.
pub proof fn lemma_reg8_parents(gs: Seq<GateModel>, b: int, p: int)
    requires
        reg8_shaped(gs, b),
        0 <= p < 56,
    ensures
        parents_of(reg8_unit(gs, b), at(b, p + 1)) == reg8_parents(b, p),
{
    let x = at(b, p + 1);
    let js = reg8_gate_drivers(p);
    assert forall|a: int| 0 <= a < js.len() implies 0 <= #[trigger] js[a] < 56 by {
        lemma_reg8_driver_child(p, a);
    }
    assert forall|a: int, c: int| 0 <= a < c < js.len() implies js[a] < js[c] by {
        lemma_reg8_driver_child(p, c);
    }
    assert forall|q: int, m: int|
        0 <= q < gs.len() && 0 <= m < gs[q].children.len() && gs[q].children[m] == x implies js.contains(q) by {
        lemma_reg8_gate(gs, b, q);
        lemma_reg8_child_driver(q);
        lemma_at_injective(b, reg8_child_places(q)[0], p);
    }
    lemma_gate_refs_at(gs, x, js);
    lemma_reg8_gate_refs_at(gs, b, p, js.len() as int);
    assert(js.take(js.len() as int) =~= js);
    let ins = reg_8b_inputs(b);
    let is = reg8_input_drivers(p);
    lemma_reg8_input(b, 0);
    assert forall|a: int| 0 <= a < is.len() implies 0 <= #[trigger] is[a] < 9 by {
        lemma_reg8_input_driver(p, a);
    }
    assert forall|a: int, c: int| 0 <= a < c < is.len() implies is[a] < is[c] by {
        lemma_reg8_input_driver(p, c);
    }
    assert forall|q: int, m: int|
        0 <= q < ins.len() && 0 <= m < ins[q].ids.len() && ins[q].ids[m] == x implies is.contains(q) by {
        lemma_reg8_input(b, q);
        lemma_reg8_input_index(q, m);
        lemma_at_injective(b, reg8_input_places(q)[m], p);
    }
    lemma_input_refs_at(ins, x, is);
    lemma_reg8_input_refs_at(b, p, is.len() as int);
    assert(is.take(is.len() as int) =~= is);
}

// ---------------------------------------------------------------------------
// One tick of the register

/// The value on input `name`.
pub open spec fn in_value(ins: Seq<(SignalName, bool, Vec<Id>)>, name: SignalName) -> bool {
    emu_input_value(ins, name)
}

/// The values that reach place `p` of the register: its inputs', then its gates'.
pub open spec fn reg8_vals(gs: Seq<GateModel>, ins: Seq<(SignalName, bool, Vec<Id>)>, p: int) -> Seq<bool> {
    reg8_input_drivers(p).map_values(|j: int| in_value(ins, reg8_input_name(j))) + reg8_gate_drivers(p).map_values(
        |q: int| gs[q].active,
    )
}

/// One tick of place `p` of the register: its mode applied to `reg8_vals`.
proof fn lemma_reg8_tick_vals(gs: Seq<GateModel>, b: int, ins: Seq<(SignalName, bool, Vec<Id>)>, p: int)
    requires
        reg8_shaped(gs, b),
        0 <= p < 56,
    ensures
        tick_model(reg8_unit(gs, b), ins).gates[p].active == gate_output(
            reg_1b_gates(0)[p % 7].mode,
            reg8_vals(gs, ins, p),
        ),
{
    let u = reg8_unit(gs, b);
    lemma_reg8_gate(gs, b, p);
    lemma_reg8_parents(gs, b, p);
    let vals = reg8_parents(b, p).map_values(|r: ParentRef| ref_value(gs, ins, r));
    assert(tick_model(u, ins).gates[p].active == gate_output(gs[p].mode, vals));
    let gd = reg8_gate_drivers(p);
    assert forall|a: int| 0 <= a < gd.len() implies ref_value(gs, ins, ParentRef::Gate(at(b, #[trigger] gd[a] + 1)))
        == gs[gd[a]].active by {
        lemma_reg8_driver_child(p, a);
        let q = gd[a];
        assert forall|j: int| 0 <= j < 56 implies #[trigger] gs[j].id == at(b, j + 1) by {
            lemma_reg8_gate(gs, b, j);
        }
        assert forall|j: int| 0 <= j < q implies gs[j].id != at(b, q + 1) by {
            assert(gs[j].id == at(b, j + 1));
        }
        lemma_first_gate(gs, at(b, q + 1), q);
    }
    assert(vals =~= reg8_vals(gs, ins, p));
}

/// One tick of the one-bit register of bit `i`: `nand1 = not (h1 and nand4)`,
/// `nand2 = not (h2 and nand3)`, `h1 = nand2`, `h2 = nand1`, `nand3 = not (W and not)`,
/// `nand4 = not (W and I i)`, `not = not I i`, each from the values before the tick.
#[verifier::spinoff_prover]
proof fn lemma_reg8_tick_bit(gs: Seq<GateModel>, b: int, ins: Seq<(SignalName, bool, Vec<Id>)>, i: int)
    requires
        reg8_shaped(gs, b),
        0 <= i < 8,
    ensures
        ({
            let t = tick_model(reg8_unit(gs, b), ins).gates;
            let c = 7 * i;
            let w = in_value(ins, SignalName('W', 0));
            let x = in_value(ins, SignalName('I', i as u8));
            &&& t[c].active == !(gs[c + 2].active && gs[c + 5].active)
            &&& t[c + 1].active == !(gs[c + 3].active && gs[c + 4].active)
            &&& t[c + 2].active == gs[c + 1].active
            &&& t[c + 3].active == gs[c].active
            &&& t[c + 4].active == !(w && gs[c + 6].active)
            &&& t[c + 5].active == !(w && x)
            &&& t[c + 6].active == !x
        }),
{
    let c = 7 * i;
    let w = in_value(ins, SignalName('W', 0));
    let x = in_value(ins, SignalName('I', i as u8));
    assert(reg8_input_name(1 + i) == SignalName('I', i as u8));
    assert(c / 7 == i && c % 7 == 0);
    assert((c + 1) / 7 == i && (c + 1) % 7 == 1);
    assert((c + 2) / 7 == i && (c + 2) % 7 == 2);
    assert((c + 3) / 7 == i && (c + 3) % 7 == 3);
    assert((c + 4) / 7 == i && (c + 4) % 7 == 4);
    assert((c + 5) / 7 == i && (c + 5) % 7 == 5);
    assert((c + 6) / 7 == i && (c + 6) % 7 == 6);
    lemma_reg8_tick_vals(gs, b, ins, c);
    lemma_reg8_tick_vals(gs, b, ins, c + 1);
    lemma_reg8_tick_vals(gs, b, ins, c + 2);
    lemma_reg8_tick_vals(gs, b, ins, c + 3);
    lemma_reg8_tick_vals(gs, b, ins, c + 4);
    lemma_reg8_tick_vals(gs, b, ins, c + 5);
    lemma_reg8_tick_vals(gs, b, ins, c + 6);
    let g = |q: int| gs[q].active;
    assert(reg8_vals(gs, ins, c) =~= seq![g(c + 2), g(c + 5)]);
    assert(reg8_vals(gs, ins, c + 1) =~= seq![g(c + 3), g(c + 4)]);
    assert(reg8_vals(gs, ins, c + 2) =~= seq![g(c + 1)]);
    assert(reg8_vals(gs, ins, c + 3) =~= seq![g(c)]);
    assert(reg8_vals(gs, ins, c + 4) =~= seq![w, g(c + 6)]);
    assert(reg8_vals(gs, ins, c + 5) =~= seq![w, x]);
    assert(reg8_vals(gs, ins, c + 6) =~= seq![x]);
    lemma_two_values(LogicGateMode::And, g(c + 2), g(c + 5));
    lemma_two_values(LogicGateMode::And, g(c + 3), g(c + 4));
    lemma_two_values(LogicGateMode::And, w, g(c + 6));
    lemma_two_values(LogicGateMode::And, w, x);
    assert(all_true(seq![g(c + 1)]) == g(c + 1)) by {
        if !g(c + 1) {
            assert(!seq![g(c + 1)][0]);
        }
    }
    assert(all_true(seq![g(c)]) == g(c)) by {
        if !g(c) {
            assert(!seq![g(c)][0]);
        }
    }
    assert(all_true(seq![x]) == x) by {
        if !x {
            assert(!seq![x][0]);
        }
    }
}

/// A tick keeps the layout of the register, its inputs and its outputs.
proof fn lemma_reg8_tick_shape(gs: Seq<GateModel>, b: int, ins: Seq<(SignalName, bool, Vec<Id>)>)
    requires
        reg8_shaped(gs, b),
    ensures
        reg8_shaped(tick_model(reg8_unit(gs, b), ins).gates, b),
        tick_model(reg8_unit(gs, b), ins) == reg8_unit(tick_model(reg8_unit(gs, b), ins).gates, b),
{
    reveal(reg8_layout);
    let ng = tick_model(reg8_unit(gs, b), ins).gates;
    assert forall|k: int| 0 <= k < 56 implies #[trigger] ng[k] == (GateModel {
        active: ng[k].active,
        ..reg_8b_gates(b, 8)[k]
    }) by {
        assert(gs[k] == (GateModel { active: gs[k].active, ..reg_8b_gates(b, 8)[k] }));
    }
}

// ---------------------------------------------------------------------------
// The register writes and holds

/// The one-bit register of bit `i` stores `v`: its output is `v` and its feedback loop
/// keeps it so.
pub open spec fn reg8_stores(gs: Seq<GateModel>, i: int, v: bool) -> bool {
    let c = 7 * i;
    &&& gs[c].active == v
    &&& gs[c + 1].active == !v
    &&& gs[c + 2].active == !v
    &&& gs[c + 3].active == v
    &&& (v ==> gs[c + 4].active)
    &&& (!v ==> gs[c + 5].active)
}

/// Bit `i` stores `v` while `v` is being written.
pub open spec fn reg8_written(gs: Seq<GateModel>, i: int, v: bool) -> bool {
    &&& reg8_stores(gs, i, v)
    &&& gs[7 * i + 5].active == !v
    &&& gs[7 * i + 6].active == !v
}

/// Ticking keeps the register's layout, tick after tick.
proof fn lemma_reg8_run_shape(u: UnitModel, b: int, ins: Seq<(SignalName, bool, Vec<Id>)>, n: nat)
    requires
        reg8_shaped(u.gates, b),
        u == reg8_unit(u.gates, b),
    ensures
        reg8_shaped(ticks(u, ins, n).gates, b),
        ticks(u, ins, n) == reg8_unit(ticks(u, ins, n).gates, b),
        ticks(u, ins, n + 1) == tick_model(reg8_unit(ticks(u, ins, n).gates, b), ins),
    decreases n,
{
    if n > 0 {
        lemma_reg8_run_shape(u, b, ins, (n - 1) as nat);
        lemma_reg8_tick_shape(ticks(u, ins, (n - 1) as nat).gates, b, ins);
    }
}

/// Six ticks with `W` on write `I i` into bit `i`, whatever state its gates started in.
proof fn lemma_reg8_bit_settles(u: UnitModel, b: int, ins: Seq<(SignalName, bool, Vec<Id>)>, i: int)
    requires
        reg8_shaped(u.gates, b),
        u == reg8_unit(u.gates, b),
        in_value(ins, SignalName('W', 0)),
        0 <= i < 8,
    ensures
        reg8_written(ticks(u, ins, 6).gates, i, in_value(ins, SignalName('I', i as u8))),
{
    lemma_reg8_run_shape(u, b, ins, 0);
    lemma_reg8_run_shape(u, b, ins, 1);
    lemma_reg8_run_shape(u, b, ins, 2);
    lemma_reg8_run_shape(u, b, ins, 3);
    lemma_reg8_run_shape(u, b, ins, 4);
    lemma_reg8_run_shape(u, b, ins, 5);
    lemma_reg8_tick_bit(ticks(u, ins, 0).gates, b, ins, i);
    lemma_reg8_tick_bit(ticks(u, ins, 1).gates, b, ins, i);
    lemma_reg8_tick_bit(ticks(u, ins, 2).gates, b, ins, i);
    lemma_reg8_tick_bit(ticks(u, ins, 3).gates, b, ins, i);
    lemma_reg8_tick_bit(ticks(u, ins, 4).gates, b, ins, i);
    lemma_reg8_tick_bit(ticks(u, ins, 5).gates, b, ins, i);
}

/// Further ticks with `W` on keep `I i` written in bit `i`.
proof fn lemma_reg8_bit_keeps_written(u: UnitModel, b: int, ins: Seq<(SignalName, bool, Vec<Id>)>, i: int, n: nat)
    requires
        reg8_shaped(u.gates, b),
        u == reg8_unit(u.gates, b),
        in_value(ins, SignalName('W', 0)),
        0 <= i < 8,
        reg8_written(u.gates, i, in_value(ins, SignalName('I', i as u8))),
    ensures
        reg8_written(ticks(u, ins, n).gates, i, in_value(ins, SignalName('I', i as u8))),
    decreases n,
{
    if n > 0 {
        lemma_reg8_bit_keeps_written(u, b, ins, i, (n - 1) as nat);
        lemma_reg8_run_shape(u, b, ins, (n - 1) as nat);
        lemma_reg8_tick_bit(ticks(u, ins, (n - 1) as nat).gates, b, ins, i);
    }
}

/// Ticks with `W` off keep what bit `i` stores.
proof fn lemma_reg8_bit_holds(u: UnitModel, b: int, ins: Seq<(SignalName, bool, Vec<Id>)>, i: int, v: bool, n: nat)
    requires
        reg8_shaped(u.gates, b),
        u == reg8_unit(u.gates, b),
        !in_value(ins, SignalName('W', 0)),
        0 <= i < 8,
        reg8_stores(u.gates, i, v),
    ensures
        reg8_stores(ticks(u, ins, n).gates, i, v),
    decreases n,
{
    if n > 0 {
        lemma_reg8_bit_holds(u, b, ins, i, v, (n - 1) as nat);
        lemma_reg8_run_shape(u, b, ins, (n - 1) as nat);
        lemma_reg8_tick_bit(ticks(u, ins, (n - 1) as nat).gates, b, ins, i);
    }
}

/// `m` ticks after `n` ticks are `n + m` ticks.
proof fn lemma_ticks_add(u: UnitModel, ins: Seq<(SignalName, bool, Vec<Id>)>, n: nat, m: nat)
    ensures
        ticks(ticks(u, ins, n), ins, m) == ticks(u, ins, n + m),
    decreases m,
{
    if m > 0 {
        lemma_ticks_add(u, ins, n, (m - 1) as nat);
    }
}

/// Output `O i` of the register is the `nand1` of bit `i`.
proof fn lemma_reg8_outputs(gs: Seq<GateModel>, b: int)
    requires
        reg8_shaped(gs, b),
    ensures
        forall|i: int|
            0 <= i < 8 ==> #[trigger] reg_8b_outputs(b)[i].id == gs[7 * i].id && reg_8b_outputs(b)[i].name
                == SignalName('O', i as u8),
{
    assert forall|i: int| 0 <= i < 8 implies #[trigger] reg_8b_outputs(b)[i].id == gs[7 * i].id
        && reg_8b_outputs(b)[i].name == SignalName('O', i as u8) by {
        lemma_reg8_gate(gs, b, 7 * i);
    }
}

/// The eight-bit register is written: with `W` on and `I0 .. I7` held, after six ticks or
/// more, whatever state its gates started in, each bit stores its input and output `O i`
/// shows `I i`.
pub proof fn law_reg_8b_writes(u: UnitModel, b: int, ins: Seq<(SignalName, bool, Vec<Id>)>, n: nat)
    requires
        reg8_shaped(u.gates, b),
        u.inputs == reg_8b_inputs(b),
        u.outputs == reg_8b_outputs(b),
        in_value(ins, SignalName('W', 0)),
        n >= 6,
    ensures
        ({
            let un = ticks(u, ins, n);
            &&& reg8_shaped(un.gates, b)
            &&& un.outputs == u.outputs
            &&& forall|i: int|
                0 <= i < 8 ==> #[trigger] un.outputs[i].id == un.gates[7 * i].id && un.outputs[i].name
                    == SignalName('O', i as u8)
            &&& forall|i: int|
                0 <= i < 8 ==> #[trigger] reg8_stores(un.gates, i, in_value(ins, SignalName('I', i as u8)))
            &&& forall|i: int| 0 <= i < 8 ==> #[trigger] un.gates[7 * i].active == in_value(ins, SignalName('I', i as u8))
        }),
{
    assert(u == reg8_unit(u.gates, b));
    lemma_reg8_run_shape(u, b, ins, 6);
    lemma_reg8_run_shape(u, b, ins, n);
    let u6 = ticks(u, ins, 6);
    lemma_ticks_add(u, ins, 6, (n - 6) as nat);
    assert forall|i: int| 0 <= i < 8 implies #[trigger] reg8_stores(
        ticks(u, ins, n).gates,
        i,
        in_value(ins, SignalName('I', i as u8)),
    ) by {
        lemma_reg8_bit_settles(u, b, ins, i);
        lemma_reg8_bit_keeps_written(u6, b, ins, i, (n - 6) as nat);
    }
    let un = ticks(u, ins, n);
    assert forall|i: int| 0 <= i < 8 implies #[trigger] un.gates[7 * i].active == in_value(
        ins,
        SignalName('I', i as u8),
    ) by {
        assert(reg8_stores(un.gates, i, in_value(ins, SignalName('I', i as u8))));
    }
    lemma_reg8_outputs(un.gates, b);
}

/// The eight-bit register holds: once bit `i` stores `v[i]` for every `i`, for any number
/// of ticks with `W` off, whatever `I0 .. I7` are, each bit still stores its value and
/// output `O i` shows `v[i]`.
pub proof fn law_reg_8b_holds(u: UnitModel, b: int, ins: Seq<(SignalName, bool, Vec<Id>)>, v: Seq<bool>, n: nat)
    requires
        reg8_shaped(u.gates, b),
        u.inputs == reg_8b_inputs(b),
        u.outputs == reg_8b_outputs(b),
        v.len() == 8,
        forall|i: int| 0 <= i < 8 ==> #[trigger] reg8_stores(u.gates, i, v[i]),
        !in_value(ins, SignalName('W', 0)),
    ensures
        ({
            let un = ticks(u, ins, n);
            &&& reg8_shaped(un.gates, b)
            &&& forall|i: int|
                0 <= i < 8 ==> #[trigger] un.outputs[i].id == un.gates[7 * i].id && un.outputs[i].name
                    == SignalName('O', i as u8)
            &&& forall|i: int| 0 <= i < 8 ==> #[trigger] reg8_stores(un.gates, i, v[i])
            &&& forall|i: int| 0 <= i < 8 ==> #[trigger] un.gates[7 * i].active == v[i]
        }),
{
    assert(u == reg8_unit(u.gates, b));
    lemma_reg8_run_shape(u, b, ins, n);
    let un = ticks(u, ins, n);
    assert forall|i: int| 0 <= i < 8 implies #[trigger] reg8_stores(un.gates, i, v[i]) by {
        lemma_reg8_bit_holds(u, b, ins, i, v[i], n);
    }
    assert forall|i: int| 0 <= i < 8 implies #[trigger] un.gates[7 * i].active == v[i] by {
        assert(reg8_stores(un.gates, i, v[i]));
    }
    lemma_reg8_outputs(un.gates, b);
}

} // verus!
