use vstd::prelude::*;

use crate::emulator::{emu_input_value, gate_refs, ids_refs, input_refs, parents_of, ref_value, ParentRef};
use crate::laws::tick_model;
use crate::logic::{at, bit_of, decoder_1_2n_gates, decoder_1_2n_inputs, decoder_1_2n_outputs, select_ids};
use crate::logic_gate::{all_true, gate_output, GateModel, LogicGateMode};
use crate::logic_unit::{first_gate, lemma_first_gate, InputModel, Output, UnitModel};
use crate::utils::{Id, SignalName};
use vstd::arithmetic::power2::pow2;

verus! {

// ---------------------------------------------------------------------------
// Drivers by membership

/// Every driver found for `x` in `s` is `r`; `r` is found when `x` occurs.
pub proof fn lemma_ids_refs_members(s: Seq<Id>, x: Id, r: ParentRef)
    ensures
        forall|m: int| 0 <= m < ids_refs(s, x, r).len() ==> #[trigger] ids_refs(s, x, r)[m] == r,
        s.contains(x) ==> ids_refs(s, x, r).len() > 0,
    decreases s.len(),
{
    if s.len() > 0 {
        lemma_ids_refs_members(s.drop_last(), x, r);
        if s.contains(x) && s.last() != x {
            let k = choose|k: int| 0 <= k < s.len() && s[k] == x;
            assert(s.drop_last()[k] == x);
        }
    }
}

/// The input drivers of `x` are the inputs that have `x` among their gates.
pub proof fn lemma_input_refs_members(ins: Seq<InputModel>, x: Id)
    ensures
        forall|m: int|
            0 <= m < input_refs(ins, x).len() ==> exists|j: int|
                0 <= j < ins.len() && ins[j].ids.contains(x) && #[trigger] input_refs(ins, x)[m]
                    == ParentRef::Input(ins[j].name),
        forall|j: int|
            0 <= j < ins.len() && #[trigger] ins[j].ids.contains(x) ==> input_refs(ins, x).contains(
                ParentRef::Input(ins[j].name),
            ),
    decreases ins.len(),
{
    if ins.len() > 0 {
        let d = ins.drop_last();
        let l = ins.last();
        lemma_input_refs_members(d, x);
        lemma_ids_refs_members(l.ids, x, ParentRef::Input(l.name));
        let a = input_refs(d, x);
        let e = ids_refs(l.ids, x, ParentRef::Input(l.name));
        assert(input_refs(ins, x) == a + e);
        assert forall|m: int| 0 <= m < input_refs(ins, x).len() implies exists|j: int|
            0 <= j < ins.len() && ins[j].ids.contains(x) && #[trigger] input_refs(ins, x)[m]
                == ParentRef::Input(ins[j].name) by {
            if m < a.len() {
                let j = choose|j: int| 0 <= j < d.len() && d[j].ids.contains(x) && a[m] == ParentRef::Input(d[j].name);
                assert(ins[j] == d[j]);
            } else {
                assert(e[m - a.len()] == ParentRef::Input(l.name));
                assert(e.len() > 0);
                if !l.ids.contains(x) {
                    lemma_no_refs(l.ids, x, ParentRef::Input(l.name));
                }
                assert(ins[ins.len() - 1] == l);
            }
        }
        assert forall|j: int| 0 <= j < ins.len() && #[trigger] ins[j].ids.contains(x) implies input_refs(
            ins,
            x,
        ).contains(ParentRef::Input(ins[j].name)) by {
            if j < d.len() {
                assert(d[j] == ins[j]);
                assert(a.contains(ParentRef::Input(d[j].name)));
                let m = choose|m: int| 0 <= m < a.len() && a[m] == ParentRef::Input(d[j].name);
                assert((a + e)[m] == a[m]);
            } else {
                assert(e[0] == ParentRef::Input(l.name));
                assert((a + e)[a.len() as int] == e[0]);
            }
        }
    }
}

/// No driver is found where `x` does not occur.
pub proof fn lemma_no_refs(s: Seq<Id>, x: Id, r: ParentRef)
    requires
        !s.contains(x),
    ensures
        ids_refs(s, x, r).len() == 0,
    decreases s.len(),
{
    if s.len() > 0 {
        assert(!s.drop_last().contains(x)) by {
            if s.drop_last().contains(x) {
                let k = choose|k: int| 0 <= k < s.drop_last().len() && s.drop_last()[k] == x;
                assert(s[k] == x);
            }
        }
        lemma_no_refs(s.drop_last(), x, r);
        assert(s.last() != x) by {
            if s.last() == x {
                assert(s[s.len() - 1] == x);
            }
        }
    }
}

/// Each driver of `x` listed by `gate_refs` is a gate that has `x` among its children.
pub proof fn lemma_gate_refs_members(gs: Seq<GateModel>, x: Id)
    ensures
        forall|m: int|
            0 <= m < gate_refs(gs, x).len() ==> exists|j: int|
                0 <= j < gs.len() && gs[j].children.contains(x) && #[trigger] gate_refs(gs, x)[m]
                    == ParentRef::Gate(gs[j].id),
        forall|j: int|
            0 <= j < gs.len() && #[trigger] gs[j].children.contains(x) ==> gate_refs(gs, x).contains(
                ParentRef::Gate(gs[j].id),
            ),
    decreases gs.len(),
{
    if gs.len() > 0 {
        let d = gs.drop_last();
        let l = gs.last();
        lemma_gate_refs_members(d, x);
        lemma_ids_refs_members(l.children, x, ParentRef::Gate(l.id));
        let a = gate_refs(d, x);
        let e = ids_refs(l.children, x, ParentRef::Gate(l.id));
        assert(gate_refs(gs, x) == a + e);
        assert forall|m: int| 0 <= m < gate_refs(gs, x).len() implies exists|j: int|
            0 <= j < gs.len() && gs[j].children.contains(x) && #[trigger] gate_refs(gs, x)[m]
                == ParentRef::Gate(gs[j].id) by {
            if m < a.len() {
                let j = choose|j: int| 0 <= j < d.len() && d[j].children.contains(x) && a[m] == ParentRef::Gate(d[j].id);
                assert(gs[j] == d[j]);
            } else {
                assert(e[m - a.len()] == ParentRef::Gate(l.id));
                if !l.children.contains(x) {
                    lemma_no_refs(l.children, x, ParentRef::Gate(l.id));
                }
                assert(gs[gs.len() - 1] == l);
            }
        }
        assert forall|j: int| 0 <= j < gs.len() && #[trigger] gs[j].children.contains(x) implies gate_refs(
            gs,
            x,
        ).contains(ParentRef::Gate(gs[j].id)) by {
            if j < d.len() {
                assert(d[j] == gs[j]);
                assert(a.contains(ParentRef::Gate(d[j].id)));
                let m = choose|m: int| 0 <= m < a.len() && a[m] == ParentRef::Gate(d[j].id);
                assert((a + e)[m] == a[m]);
            } else {
                assert(e[0] == ParentRef::Gate(l.id));
                assert((a + e)[a.len() as int] == e[0]);
            }
        }
    }
}

/// Membership in `select_ids`: `first + i` is listed exactly when bit `j` of `i` is `val`,
/// and only ids from `first` to `first + count - 1` are listed.
pub proof fn lemma_select_contains(first: int, j: int, val: bool, count: int)
    requires
        0 <= first,
        0 <= count,
        first + count <= u32::MAX + 1,
    ensures
        forall|i: int|
            0 <= i < count ==> (#[trigger] select_ids(first, j, val, count).contains((first + i) as Id) <==> bit_of(
                i,
                j,
            ) == val),
        forall|m: int|
            0 <= m < select_ids(first, j, val, count).len() ==> first <= #[trigger] select_ids(
                first,
                j,
                val,
                count,
            )[m] < first + count,
    decreases count,
{
    if count > 0 {
        lemma_select_contains(first, j, val, count - 1);
        let prev = select_ids(first, j, val, count - 1);
        let cur = select_ids(first, j, val, count);
        assert forall|i: int| 0 <= i < count implies (#[trigger] cur.contains((first + i) as Id) <==> bit_of(i, j) == val) by {
            if i < count - 1 {
                if bit_of(count - 1, j) == val {
                    assert(cur == prev.push((first + count - 1) as Id));
                    if prev.contains((first + i) as Id) {
                        let m = choose|m: int| 0 <= m < prev.len() && prev[m] == (first + i) as Id;
                        assert(cur[m] == prev[m]);
                    }
                    if cur.contains((first + i) as Id) {
                        let m = choose|m: int| 0 <= m < cur.len() && cur[m] == (first + i) as Id;
                        if m < prev.len() {
                            assert(prev[m] == cur[m]);
                        }
                    }
                }
            } else {
                if bit_of(count - 1, j) == val {
                    assert(cur[prev.len() as int] == (first + count - 1) as Id);
                } else {
                    if cur.contains((first + i) as Id) {
                        let m = choose|m: int| 0 <= m < cur.len() && cur[m] == (first + i) as Id;
                        assert(prev[m] < first + count - 1);
                    }
                }
            }
        }
    }
}

// ---------------------------------------------------------------------------
// The decoder decodes

/// The unit is an `n`-to-`2^n` decoder built after id `b`, its gates in any state.
pub open spec fn is_decoder(u: UnitModel, b: int, n: int) -> bool {
    &&& 0 <= b
    &&& 0 <= n < 32
    &&& b + n + pow2(n as nat) <= u32::MAX
    &&& u.inputs == decoder_1_2n_inputs(b, n)
    &&& u.outputs == decoder_1_2n_outputs(b, n)
    &&& u.gates.len() == n + pow2(n as nat)
    &&& forall|k: int|
        0 <= k < u.gates.len() ==> #[trigger] u.gates[k] == (GateModel {
            active: u.gates[k].active,
            ..decoder_1_2n_gates(b, n)[k]
        })
}

/// The value on select line `S k`.
pub open spec fn sel_in(ins: Seq<(SignalName, bool, Vec<Id>)>, k: int) -> bool {
    emu_input_value(ins, SignalName('S', k as u8))
}

/// The value on the enable input `I`.
pub open spec fn enable_in(ins: Seq<(SignalName, bool, Vec<Id>)>) -> bool {
    emu_input_value(ins, SignalName('I', 0))
}

/// The select lines spell `i`.
pub open spec fn spells(ins: Seq<(SignalName, bool, Vec<Id>)>, n: int, i: int) -> bool {
    forall|k: int| 0 <= k < n ==> #[trigger] sel_in(ins, k) == bit_of(i, k)
}

/// The id of gate `q` of a decoder is `b + 1 + q`.
proof fn lemma_decoder_gate(u: UnitModel, b: int, n: int, q: int)
    requires
        is_decoder(u, b, n),
        0 <= q < u.gates.len(),
    ensures
        u.gates[q].id == b + 1 + q,
        u.gates[q].mode == (if q < n { LogicGateMode::Nand } else { LogicGateMode::And }),
        u.gates[q].children == (if q < n { select_ids(b + 1 + n, q, false, pow2(n as nat) as int) } else { Seq::<Id>::empty() }),
        first_gate(u.gates, (b + 1 + q) as Id) == q,
{
    assert(u.gates[q] == (GateModel { active: u.gates[q].active, ..decoder_1_2n_gates(b, n)[q] }));
    assert forall|j: int| 0 <= j < q implies u.gates[j].id != (b + 1 + q) as Id by {
        assert(u.gates[j] == (GateModel { active: u.gates[j].active, ..decoder_1_2n_gates(b, n)[j] }));
    }
    lemma_first_gate(u.gates, (b + 1 + q) as Id, q);
}

/// The inputs of a decoder that have gate `x` among their gates.
proof fn lemma_decoder_input_has(b: int, n: int, j: int, x: int)
    requires
        0 <= b,
        0 <= n < 32,
        b + n + pow2(n as nat) <= u32::MAX,
        0 <= j <= n,
        b + 1 <= x < b + 1 + n + pow2(n as nat),
    ensures
        j < n && x < b + 1 + n ==> (decoder_1_2n_inputs(b, n)[j].ids.contains(x as Id) <==> x == b + 1 + j),
        j < n && x >= b + 1 + n ==> (decoder_1_2n_inputs(b, n)[j].ids.contains(x as Id) <==> bit_of(
            x - (b + 1 + n),
            j,
        )),
        j == n ==> (decoder_1_2n_inputs(b, n)[j].ids.contains(x as Id) <==> x >= b + 1 + n),
        j < n ==> decoder_1_2n_inputs(b, n)[j].name == SignalName('S', j as u8),
        j == n ==> decoder_1_2n_inputs(b, n)[j].name == SignalName('I', 0),
{
    let big = pow2(n as nat) as int;
    let ins = decoder_1_2n_inputs(b, n);
    if j < n {
        let sel = select_ids(b + 1 + n, j, true, big);
        lemma_select_contains(b + 1 + n, j, true, big);
        assert(ins[j].ids == sel.push(at(b, 1 + j)));
        if ins[j].ids.contains(x as Id) {
            let m = choose|m: int| 0 <= m < ins[j].ids.len() && ins[j].ids[m] == x as Id;
            if m < sel.len() {
                assert(sel[m] == x as Id);
                if x >= b + 1 + n {
                    assert(sel.contains((b + 1 + n + (x - (b + 1 + n))) as Id));
                }
            }
        }
        if x >= b + 1 + n && bit_of(x - (b + 1 + n), j) {
            assert(sel.contains((b + 1 + n + (x - (b + 1 + n))) as Id));
            let m = choose|m: int| 0 <= m < sel.len() && sel[m] == x as Id;
            assert(ins[j].ids[m] == sel[m]);
        }
        if x == b + 1 + j {
            assert(ins[j].ids[sel.len() as int] == x as Id);
        }
    } else {
        let all = Seq::new(big as nat, |i: int| at(b, 1 + n + i));
        assert(ins[j].ids == all);
        if x >= b + 1 + n {
            assert(all[x - (b + 1 + n)] == x as Id);
        }
    }
}

/// The gates of a decoder that have gate `x` among their children.
proof fn lemma_decoder_child_has(u: UnitModel, b: int, n: int, j: int, x: int)
    requires
        is_decoder(u, b, n),
        0 <= j < u.gates.len(),
        b + 1 <= x < b + 1 + n + pow2(n as nat),
    ensures
        u.gates[j].children.contains(x as Id) <==> (j < n && x >= b + 1 + n && !bit_of(x - (b + 1 + n), j)),
{
    let big = pow2(n as nat) as int;
    lemma_decoder_gate(u, b, n, j);
    if j < n {
        let sel = select_ids(b + 1 + n, j, false, big);
        lemma_select_contains(b + 1 + n, j, false, big);
        if sel.contains(x as Id) {
            let m = choose|m: int| 0 <= m < sel.len() && sel[m] == x as Id;
            assert(sel[m] >= b + 1 + n);
        }
        if x >= b + 1 + n {
            assert(sel.contains((b + 1 + n + (x - (b + 1 + n))) as Id) <==> !bit_of(x - (b + 1 + n), j));
        }
    }
}

/// One tick of inverter `k`: it becomes `not S k`.
proof fn lemma_decoder_tick_inverter(u: UnitModel, b: int, n: int, ins: Seq<(SignalName, bool, Vec<Id>)>, k: int)
    requires
        is_decoder(u, b, n),
        0 <= k < n,
    ensures
        tick_model(u, ins).gates[k].active == !sel_in(ins, k),
{
    let x = b + 1 + k;
    lemma_decoder_gate(u, b, n, k);
    let ps = parents_of(u, x as Id);
    let ir = input_refs(u.inputs, x as Id);
    let gr = gate_refs(u.gates, x as Id);
    lemma_input_refs_members(u.inputs, x as Id);
    lemma_gate_refs_members(u.gates, x as Id);
    assert(gr.len() == 0) by {
        if gr.len() > 0 {
            let j = choose|j: int| 0 <= j < u.gates.len() && u.gates[j].children.contains(x as Id) && gr[0] == ParentRef::Gate(u.gates[j].id);
            lemma_decoder_child_has(u, b, n, j, x);
        }
    }
    assert forall|m: int| 0 <= m < ir.len() implies ir[m] == ParentRef::Input(SignalName('S', k as u8)) by {
        let j = choose|j: int| 0 <= j < u.inputs.len() && u.inputs[j].ids.contains(x as Id) && ir[m] == ParentRef::Input(u.inputs[j].name);
        lemma_decoder_input_has(b, n, j, x);
    }
    lemma_decoder_input_has(b, n, k, x);
    assert(u.inputs[k].ids.contains(x as Id));
    assert(ir.contains(ParentRef::Input(SignalName('S', k as u8))));
    let vals = ps.map_values(|r: ParentRef| ref_value(u.gates, ins, r));
    assert(ps == ir + gr);
    assert(ps =~= ir);
    assert(vals.len() > 0);
    assert forall|m: int| 0 <= m < vals.len() implies vals[m] == sel_in(ins, k) by {
        assert(ps[m] == ParentRef::Input(SignalName('S', k as u8)));
    }
    assert(all_true(vals) == sel_in(ins, k)) by {
        if !sel_in(ins, k) {
            assert(!vals[0]);
        }
    }
}

/// One tick of output gate `i`: it becomes on when `I` is on, the selects that are set in
/// `i` are on, and the inverters of the others were on.
proof fn lemma_decoder_tick_output(u: UnitModel, b: int, n: int, ins: Seq<(SignalName, bool, Vec<Id>)>, i: int)
    requires
        is_decoder(u, b, n),
        0 <= i < pow2(n as nat),
    ensures
        tick_model(u, ins).gates[n + i].active == (enable_in(ins) && (forall|k: int|
            0 <= k < n && bit_of(i, k) ==> #[trigger] sel_in(ins, k)) && (forall|k: int|
            0 <= k < n && !bit_of(i, k) ==> #[trigger] u.gates[k].active)),
{
    let x = b + 1 + n + i;
    lemma_decoder_gate(u, b, n, n + i);
    let ps = parents_of(u, x as Id);
    let ir = input_refs(u.inputs, x as Id);
    let gr = gate_refs(u.gates, x as Id);
    lemma_input_refs_members(u.inputs, x as Id);
    lemma_gate_refs_members(u.gates, x as Id);
    assert(ps == ir + gr);
    let vals = ps.map_values(|r: ParentRef| ref_value(u.gates, ins, r));
    let cond = enable_in(ins) && (forall|k: int| 0 <= k < n && bit_of(i, k) ==> #[trigger] sel_in(ins, k))
        && (forall|k: int| 0 <= k < n && !bit_of(i, k) ==> #[trigger] u.gates[k].active);
    // the enable input drives every output gate
    lemma_decoder_input_has(b, n, n, x);
    assert(u.inputs[n].ids.contains(x as Id));
    assert(ir.contains(ParentRef::Input(SignalName('I', 0))));
    let mi = choose|m: int| 0 <= m < ir.len() && ir[m] == ParentRef::Input(SignalName('I', 0));
    assert(ps[mi] == ir[mi]);
    assert(vals.len() > 0);
    if all_true(vals) {
        assert(vals[mi] == enable_in(ins));
        assert forall|k: int| 0 <= k < n && bit_of(i, k) implies #[trigger] sel_in(ins, k) by {
            lemma_decoder_input_has(b, n, k, x);
            assert(u.inputs[k].ids.contains(x as Id));
            assert(ir.contains(ParentRef::Input(SignalName('S', k as u8))));
            let m = choose|m: int| 0 <= m < ir.len() && ir[m] == ParentRef::Input(SignalName('S', k as u8));
            assert(ps[m] == ir[m]);
            assert(vals[m]);
        }
        assert forall|k: int| 0 <= k < n && !bit_of(i, k) implies #[trigger] u.gates[k].active by {
            lemma_decoder_child_has(u, b, n, k, x);
            assert(u.gates[k].children.contains(x as Id));
            assert(gr.contains(ParentRef::Gate(u.gates[k].id)));
            let m = choose|m: int| 0 <= m < gr.len() && gr[m] == ParentRef::Gate(u.gates[k].id);
            assert(ps[ir.len() + m] == gr[m]);
            assert(vals[ir.len() + m]);
            lemma_decoder_gate(u, b, n, k);
        }
    }
    if cond {
        assert forall|m: int| 0 <= m < vals.len() implies vals[m] by {
            if m < ir.len() {
                let j = choose|j: int| 0 <= j < u.inputs.len() && u.inputs[j].ids.contains(x as Id) && ir[m] == ParentRef::Input(u.inputs[j].name);
                lemma_decoder_input_has(b, n, j, x);
                assert(ps[m] == ir[m]);
                if j < n {
                    assert(bit_of(i, j));
                    assert(sel_in(ins, j));
                } else {
                    assert(enable_in(ins));
                }
            } else {
                let mm = m - ir.len();
                let j = choose|j: int| 0 <= j < u.gates.len() && u.gates[j].children.contains(x as Id) && gr[mm] == ParentRef::Gate(u.gates[j].id);
                lemma_decoder_child_has(u, b, n, j, x);
                lemma_decoder_gate(u, b, n, j);
                assert(ps[m] == gr[mm]);
                assert(!bit_of(i, j));
                assert(u.gates[j].active);
            }
        }
    }
}

/// A decoder decodes: with the selects and `I` held, after two ticks, whatever state its
/// gates started in, output `O i` is on exactly when `I` is on and the selects
/// `S0 .. S(n-1)` spell `i` in binary.
pub proof fn law_decoder_decodes(u: UnitModel, b: int, n: int, ins: Seq<(SignalName, bool, Vec<Id>)>)
    requires
        is_decoder(u, b, n),
    ensures
        ({
            let u2 = tick_model(tick_model(u, ins), ins);
            &&& is_decoder(u2, b, n)
            &&& forall|i: int|
                0 <= i < pow2(n as nat) ==> #[trigger] u2.gates[n + i].active == (enable_in(ins) && spells(ins, n, i))
                    && u2.outputs[i].id == u2.gates[n + i].id && u2.outputs[i].name == SignalName('O', i as u8)
        }),
{
    let u1 = tick_model(u, ins);
    let u2 = tick_model(u1, ins);
    assert(is_decoder(u1, b, n)) by {
        assert forall|k: int| 0 <= k < u1.gates.len() implies #[trigger] u1.gates[k] == (GateModel {
            active: u1.gates[k].active,
            ..decoder_1_2n_gates(b, n)[k]
        }) by {
            assert(u.gates[k] == (GateModel { active: u.gates[k].active, ..decoder_1_2n_gates(b, n)[k] }));
        }
    }
    assert(is_decoder(u2, b, n)) by {
        assert forall|k: int| 0 <= k < u2.gates.len() implies #[trigger] u2.gates[k] == (GateModel {
            active: u2.gates[k].active,
            ..decoder_1_2n_gates(b, n)[k]
        }) by {
            assert(u1.gates[k] == (GateModel { active: u1.gates[k].active, ..decoder_1_2n_gates(b, n)[k] }));
        }
    }
    assert forall|k: int| 0 <= k < n implies #[trigger] u1.gates[k].active == !sel_in(ins, k) by {
        lemma_decoder_tick_inverter(u, b, n, ins, k);
    }
    assert forall|i: int| 0 <= i < pow2(n as nat) implies #[trigger] u2.gates[n + i].active == (enable_in(ins)
        && spells(ins, n, i)) && u2.outputs[i].id == u2.gates[n + i].id && u2.outputs[i].name == SignalName(
        'O',
        i as u8,
    ) by {
        lemma_decoder_tick_output(u1, b, n, ins, i);
        lemma_decoder_gate(u2, b, n, n + i);
        if enable_in(ins) && spells(ins, n, i) {
            assert forall|k: int| 0 <= k < n && !bit_of(i, k) implies #[trigger] u1.gates[k].active by {
                assert(sel_in(ins, k) == bit_of(i, k));
            }
        }
        if u2.gates[n + i].active {
            assert forall|k: int| 0 <= k < n implies #[trigger] sel_in(ins, k) == bit_of(i, k) by {
                if !bit_of(i, k) {
                    assert(u1.gates[k].active);
                }
            }
        }
    }
}

} // verus!
