use vstd::prelude::*;

use crate::adder_law::{lemma_ids_refs_once, lemma_two_values};
use crate::alu_law::{gate_refs_at, input_refs_at, lemma_gate_refs_at, lemma_input_refs_at};
use crate::emulator::{emu_input_value, parents_of, ref_value, ParentRef};
use crate::laws::tick_model;
use crate::logic::{at, counter_8b_gates, counter_8b_inputs, counter_gate, counter_outputs_upto, sn};
use crate::logic_gate::{gate_output, parity, GateModel, LogicGateMode};
use crate::logic_unit::{first_gate, lemma_first_gate, UnitModel};
use crate::utils::{Id, SignalName};
use vstd::arithmetic::power2::{lemma2_to64, lemma_pow2_pos, lemma_pow2_unfold, pow2};

verus! {

// ---------------------------------------------------------------------------
// The layout of the counter, by place: place `p` holds a gate with id `b + p + 1`.
// Places 0 .. 7 are the increment gates; bit `j` has its flip-flop `bit, xor, and` at
// places `8 + 3 j`, `9 + 3 j`, `10 + 3 j`.

/// The gates are those of the counter built after id `b`, in any state.
#[verifier::opaque]
pub open spec fn counter_layout(gs: Seq<GateModel>, b: int) -> bool {
    forall|k: int|
        0 <= k < 32 ==> #[trigger] gs[k] == (GateModel { active: gs[k].active, ..counter_8b_gates(b)[k] })
}

/// The unit is the counter built after id `b`, its gates in any state.
pub open spec fn counter_shaped(gs: Seq<GateModel>, b: int) -> bool {
    &&& 0 <= b
    &&& b + 32 <= u32::MAX
    &&& gs.len() == 32
    &&& counter_layout(gs, b)
}

/// The unit of the counter built after id `b`, with gates `gs`.
pub open spec fn counter_unit(gs: Seq<GateModel>, b: int) -> UnitModel {
    UnitModel { gates: gs, inputs: counter_8b_inputs(b), outputs: counter_outputs_upto(b, 8) }
}

/// The places of the gates that gate `q` of the counter drives.
pub open spec fn counter_child_places(q: int) -> Seq<int> {
    if q < 8 {
        seq![8 + 3 * q]
    } else {
        let j = (q - 8) / 3;
        let t = (q - 8) % 3;
        if t == 0 {
            seq![8 + 3 * j, 9 + 3 * j] + Seq::new((7 - j) as nat, |s: int| j + 1 + s)
        } else if t == 1 {
            seq![10 + 3 * j]
        } else {
            seq![8 + 3 * j]
        }
    }
}

/// The mode of gate `q` of the counter.
pub open spec fn counter_mode(q: int) -> LogicGateMode {
    if q < 8 {
        LogicGateMode::And
    } else if (q - 8) % 3 == 2 {
        LogicGateMode::And
    } else {
        LogicGateMode::Xor
    }
}

/// Gate `q` of the counter: its id, mode, and the ids of the gates it drives.
pub proof fn lemma_counter_gate(gs: Seq<GateModel>, b: int, q: int)
    requires
        counter_shaped(gs, b),
        0 <= q < 32,
    ensures
        gs[q].id == at(b, q + 1),
        gs[q].mode == counter_mode(q),
        gs[q].children.len() == counter_child_places(q).len(),
        forall|m: int|
            0 <= m < gs[q].children.len() ==> #[trigger] gs[q].children[m] == at(
                b,
                counter_child_places(q)[m] + 1,
            ),
{
    reveal(counter_layout);
    assert(gs[q] == (GateModel { active: gs[q].active, ..counter_8b_gates(b)[q] }));
    assert(counter_8b_gates(b)[q] == counter_gate(b, q, 8, 8, 0));
    if q >= 8 {
        assert(q - 8 == 3 * ((q - 8) / 3) + (q - 8) % 3);
    }
}

/// The places of the gates that input `j` of the counter drives (inputs `S`, `D0 .. D7`, `I`).
pub open spec fn counter_input_places(j: int) -> Seq<int> {
    if j == 0 {
        Seq::new(8, |k: int| 10 + 3 * k)
    } else if j < 9 {
        seq![9 + 3 * (j - 1)]
    } else {
        Seq::new(8, |k: int| k)
    }
}

/// The name of input `j` of the counter.
pub open spec fn counter_input_name(j: int) -> SignalName {
    if j == 0 {
        sn('S', 0)
    } else if j < 9 {
        sn('D', (j - 1) as u8)
    } else {
        sn('I', 0)
    }
}

/// Input `j` of the counter: its name, and the ids of the gates it drives.
pub proof fn lemma_counter_input(b: int, j: int)
    requires
        0 <= b,
        b + 32 <= u32::MAX,
        0 <= j < 10,
    ensures
        counter_8b_inputs(b).len() == 10,
        counter_8b_inputs(b)[j].name == counter_input_name(j),
        counter_8b_inputs(b)[j].ids.len() == counter_input_places(j).len(),
        forall|m: int|
            0 <= m < counter_input_places(j).len() ==> #[trigger] counter_8b_inputs(b)[j].ids[m] == at(
                b,
                counter_input_places(j)[m] + 1,
            ),
{
}

// ---------------------------------------------------------------------------
// Who drives whom in the counter, by place

/// The places of the gates that drive place `p` of the counter, in order.
pub open spec fn counter_gate_drivers(p: int) -> Seq<int> {
    if p < 8 {
        Seq::new(p as nat, |j: int| 8 + 3 * j)
    } else {
        let j = (p - 8) / 3;
        let t = (p - 8) % 3;
        if t == 0 {
            seq![j, 8 + 3 * j, 10 + 3 * j]
        } else if t == 1 {
            seq![8 + 3 * j]
        } else {
            seq![9 + 3 * j]
        }
    }
}

/// The places of the inputs that drive place `p` of the counter, in order.
pub open spec fn counter_input_drivers(p: int) -> Seq<int> {
    if p < 8 {
        seq![9]
    } else {
        let j = (p - 8) / 3;
        let t = (p - 8) % 3;
        if t == 0 {
            seq![]
        } else if t == 1 {
            seq![1 + j]
        } else {
            seq![0]
        }
    }
}

/// A gate that drives place `p` is among its drivers.
proof fn lemma_counter_child_driver(q: int, m: int)
    requires
        0 <= q < 32,
        0 <= m < counter_child_places(q).len(),
    ensures
        counter_gate_drivers(counter_child_places(q)[m]).contains(q),
        0 <= counter_child_places(q)[m] < 32,
{
    let p = counter_child_places(q)[m];
    let d = counter_gate_drivers(p);
    if q < 8 {
        assert((p - 8) / 3 == q && (p - 8) % 3 == 0);
        assert(d[0] == q);
    } else {
        let j = (q - 8) / 3;
        let t = (q - 8) % 3;
        assert(q == 8 + 3 * j + t);
        if t == 0 {
            if m == 0 {
                assert((p - 8) / 3 == j && (p - 8) % 3 == 0);
                assert(d[1] == q);
            } else if m == 1 {
                assert((p - 8) / 3 == j && (p - 8) % 3 == 1);
                assert(d[0] == q);
            } else {
                assert(p == j + 1 + (m - 2));
                assert(d[j] == q);
            }
        } else if t == 1 {
            assert((p - 8) / 3 == j && (p - 8) % 3 == 2);
            assert(d[0] == q);
        } else {
            assert((p - 8) / 3 == j && (p - 8) % 3 == 0);
            assert(d[2] == q);
        }
    }
}

/// Each gate driver of place `p` drives it once, and the drivers are in order.
#[verifier::spinoff_prover]
proof fn lemma_counter_driver_child(p: int, a: int)
    requires
        0 <= p < 32,
        0 <= a < counter_gate_drivers(p).len(),
    ensures
        0 <= counter_gate_drivers(p)[a] < 32,
        ({
            let q = counter_gate_drivers(p)[a];
            let cs = counter_child_places(q);
            exists|m: int| 0 <= m < cs.len() && cs[m] == p && forall|n: int| 0 <= n < cs.len() && n != m ==> cs[n] != p
        }),
        forall|c: int| 0 <= c < a ==> counter_gate_drivers(p)[c] < counter_gate_drivers(p)[a],
{
    let q = counter_gate_drivers(p)[a];
    let cs = counter_child_places(q);
    if p < 8 {
        assert(q == 8 + 3 * a);
        assert((q - 8) / 3 == a && (q - 8) % 3 == 0);
        let m = 2 + (p - a - 1);
        assert(cs[m] == p);
        assert forall|n: int| 0 <= n < cs.len() && n != m implies cs[n] != p by {
            if n >= 2 {
                assert(cs[n] == a + 1 + (n - 2));
            }
        }
    } else {
        let j = (p - 8) / 3;
        let t = (p - 8) % 3;
        assert(p == 8 + 3 * j + t);
        if t == 0 {
            if a == 0 {
                assert(cs[0] == p);
            } else if a == 1 {
                assert((q - 8) / 3 == j && (q - 8) % 3 == 0);
                assert(cs[0] == p);
            } else {
                assert((q - 8) / 3 == j && (q - 8) % 3 == 2);
                assert(cs[0] == p);
            }
        } else if t == 1 {
            assert((q - 8) / 3 == j && (q - 8) % 3 == 0);
            assert(cs[1] == p);
        } else {
            assert((q - 8) / 3 == j && (q - 8) % 3 == 1);
            assert(cs[0] == p);
        }
    }
}

/// Where place `p` sits in the list of input `j`: exactly one `m`.
proof fn lemma_counter_input_index(j: int, m: int)
    requires
        0 <= j < 10,
        0 <= m < counter_input_places(j).len(),
    ensures
        0 <= counter_input_places(j)[m] < 32,
        counter_input_drivers(counter_input_places(j)[m]).contains(j),
        forall|n: int|
            0 <= n < counter_input_places(j).len() && n != m ==> counter_input_places(j)[n]
                != counter_input_places(j)[m],
{
    let p = counter_input_places(j)[m];
    let d = counter_input_drivers(p);
    if j == 0 {
        assert((p - 8) / 3 == m && (p - 8) % 3 == 2);
    } else if j < 9 {
        assert((p - 8) / 3 == j - 1 && (p - 8) % 3 == 1);
    }
    assert(d[0] == j);
}

/// Each input that drives place `p` has it in its list.
proof fn lemma_counter_input_driver(p: int, a: int)
    requires
        0 <= p < 32,
        0 <= a < counter_input_drivers(p).len(),
    ensures
        0 <= counter_input_drivers(p)[a] < 10,
        counter_input_places(counter_input_drivers(p)[a]).contains(p),
        a == 0,
{
    let j = counter_input_drivers(p)[a];
    let ps = counter_input_places(j);
    if p < 8 {
        assert(ps[p] == p);
    } else {
        let k = (p - 8) / 3;
        let t = (p - 8) % 3;
        assert(p == 8 + 3 * k + t);
        if t == 1 {
            assert(ps[0] == p);
        } else {
            assert(ps[k] == p);
        }
    }
}

// ---------------------------------------------------------------------------
// What drives each gate of the counter

/// The drivers of place `p` of the counter: its inputs, then its gates.
pub open spec fn counter_parents(b: int, p: int) -> Seq<ParentRef> {
    counter_input_drivers(p).map_values(|j: int| ParentRef::Input(counter_input_name(j)))
        + counter_gate_drivers(p).map_values(|q: int| ParentRef::Gate(at(b, q + 1)))
}

/// Distinct places have distinct ids.
proof fn lemma_at_injective(b: int, p1: int, p2: int)
    requires
        0 <= b,
        b + 32 <= u32::MAX,
        0 <= p1 < 32,
        0 <= p2 < 32,
        at(b, p1 + 1) == at(b, p2 + 1),
    ensures
        p1 == p2,
{
}

/// The first `k` gate drivers of place `p`, one each.
proof fn lemma_counter_gate_refs_at(gs: Seq<GateModel>, b: int, p: int, k: int)
    requires
        counter_shaped(gs, b),
        0 <= p < 32,
        0 <= k <= counter_gate_drivers(p).len(),
    ensures
        gate_refs_at(gs, at(b, p + 1), counter_gate_drivers(p).take(k)) == counter_gate_drivers(p).take(
            k,
        ).map_values(|q: int| ParentRef::Gate(at(b, q + 1))),
    decreases k,
{
    let js = counter_gate_drivers(p);
    let x = at(b, p + 1);
    if k > 0 {
        lemma_counter_gate_refs_at(gs, b, p, k - 1);
        assert(js.take(k).drop_last() =~= js.take(k - 1));
        let q = js[k - 1];
        lemma_counter_driver_child(p, k - 1);
        lemma_counter_gate(gs, b, q);
        let cs = counter_child_places(q);
        let m = choose|m: int| 0 <= m < cs.len() && cs[m] == p && forall|n: int| 0 <= n < cs.len() && n != m ==> cs[n] != p;
        assert forall|n: int| 0 <= n < gs[q].children.len() && n != m implies gs[q].children[n] != x by {
            if gs[q].children[n] == x {
                lemma_counter_child_driver(q, n);
                lemma_at_injective(b, cs[n], p);
            }
        }
        lemma_ids_refs_once(gs[q].children, x, ParentRef::Gate(gs[q].id), m);
        assert(gate_refs_at(gs, x, js.take(k)) =~= js.take(k).map_values(|q: int| ParentRef::Gate(at(b, q + 1))));
    } else {
        assert(js.take(0).map_values(|q: int| ParentRef::Gate(at(b, q + 1))) =~= Seq::<ParentRef>::empty());
    }
}

/// What drives place `p` of the counter is `counter_parents`.
pub proof fn lemma_counter_parents(gs: Seq<GateModel>, b: int, p: int)
    requires
        counter_shaped(gs, b),
        0 <= p < 32,
    ensures
        parents_of(counter_unit(gs, b), at(b, p + 1)) == counter_parents(b, p),
{
    let x = at(b, p + 1);
    // the gates
    let js = counter_gate_drivers(p);
    assert forall|a: int| 0 <= a < js.len() implies 0 <= #[trigger] js[a] < 32 by {
        lemma_counter_driver_child(p, a);
    }
    assert forall|a: int, c: int| 0 <= a < c < js.len() implies js[a] < js[c] by {
        lemma_counter_driver_child(p, c);
    }
    assert forall|q: int, m: int|
        0 <= q < gs.len() && 0 <= m < gs[q].children.len() && gs[q].children[m] == x implies js.contains(q) by {
        lemma_counter_gate(gs, b, q);
        lemma_counter_child_driver(q, m);
        lemma_at_injective(b, counter_child_places(q)[m], p);
    }
    lemma_gate_refs_at(gs, x, js);
    lemma_counter_gate_refs_at(gs, b, p, js.len() as int);
    assert(js.take(js.len() as int) =~= js);
    // the inputs
    let ins = counter_8b_inputs(b);
    let is = counter_input_drivers(p);
    lemma_counter_input(b, 0);
    assert forall|a: int| 0 <= a < is.len() implies 0 <= #[trigger] is[a] < 10 by {
        lemma_counter_input_driver(p, a);
    }
    assert forall|q: int, m: int|
        0 <= q < ins.len() && 0 <= m < ins[q].ids.len() && ins[q].ids[m] == x implies is.contains(q) by {
        lemma_counter_input(b, q);
        lemma_counter_input_index(q, m);
        lemma_at_injective(b, counter_input_places(q)[m], p);
    }
    lemma_input_refs_at(ins, x, is);
    if is.len() == 1 {
        let j = is[0];
        lemma_counter_input_driver(p, 0);
        lemma_counter_input(b, j);
        let ps = counter_input_places(j);
        let m = choose|m: int| 0 <= m < ps.len() && ps[m] == p;
        lemma_counter_input_index(j, m);
        assert forall|n: int| 0 <= n < ins[j].ids.len() && n != m implies ins[j].ids[n] != x by {
            lemma_counter_input_index(j, n);
            if ins[j].ids[n] == x {
                lemma_at_injective(b, ps[n], p);
            }
        }
        lemma_ids_refs_once(ins[j].ids, x, ParentRef::Input(ins[j].name), m);
        assert(is.drop_last() =~= Seq::<int>::empty());
        assert(input_refs_at(ins, x, is.drop_last()) == Seq::<ParentRef>::empty());
        assert(is.last() == j);
        assert(input_refs_at(ins, x, is) == seq![ParentRef::Input(counter_input_name(j))]);
    } else {
        lemma_counter_input_index(0, 0);
        assert(is.len() == 0);
    }
    assert(input_refs_at(ins, x, is) =~= is.map_values(|j: int| ParentRef::Input(counter_input_name(j))));
}

// ---------------------------------------------------------------------------
// One tick of the counter

/// The value on input `name`.
pub open spec fn in_value(ins: Seq<(SignalName, bool, Vec<Id>)>, name: SignalName) -> bool {
    emu_input_value(ins, name)
}

/// The outputs of the bits below `k` are all on.
pub open spec fn low_bits_on(gs: Seq<GateModel>, k: int) -> bool {
    forall|j: int| 0 <= j < k ==> #[trigger] gs[8 + 3 * j].active
}

/// The values that reach place `p` of the counter: its inputs', then its gates'.
pub open spec fn counter_vals(gs: Seq<GateModel>, ins: Seq<(SignalName, bool, Vec<Id>)>, p: int) -> Seq<bool> {
    counter_input_drivers(p).map_values(|j: int| in_value(ins, counter_input_name(j)))
        + counter_gate_drivers(p).map_values(|q: int| gs[q].active)
}

/// With the gates of the counter in place order, place `q` holds the first gate with its id.
proof fn lemma_counter_first(gs: Seq<GateModel>, b: int, q: int)
    requires
        counter_shaped(gs, b),
        0 <= q < 32,
    ensures
        first_gate(gs, at(b, q + 1)) == q,
{
    assert forall|j: int| 0 <= j < 32 implies #[trigger] gs[j].id == at(b, j + 1) by {
        lemma_counter_gate(gs, b, j);
    }
    assert forall|j: int| 0 <= j < q implies gs[j].id != at(b, q + 1) by {
        assert(gs[j].id == at(b, j + 1));
    }
    lemma_first_gate(gs, at(b, q + 1), q);
}

/// One tick of place `p` of the counter: its mode applied to `counter_vals`.
proof fn lemma_counter_tick_vals(gs: Seq<GateModel>, b: int, ins: Seq<(SignalName, bool, Vec<Id>)>, p: int)
    requires
        counter_shaped(gs, b),
        0 <= p < 32,
    ensures
        tick_model(counter_unit(gs, b), ins).gates[p].active == gate_output(counter_mode(p), counter_vals(gs, ins, p)),
{
    let u = counter_unit(gs, b);
    lemma_counter_gate(gs, b, p);
    lemma_counter_parents(gs, b, p);
    let vals = counter_parents(b, p).map_values(|r: ParentRef| ref_value(gs, ins, r));
    assert(tick_model(u, ins).gates[p].active == gate_output(gs[p].mode, vals));
    let gd = counter_gate_drivers(p);
    assert forall|a: int| 0 <= a < gd.len() implies ref_value(gs, ins, ParentRef::Gate(at(b, #[trigger] gd[a] + 1)))
        == gs[gd[a]].active by {
        lemma_counter_driver_child(p, a);
        lemma_counter_first(gs, b, gd[a]);
    }
    assert(vals =~= counter_vals(gs, ins, p));
}

/// One tick of increment gate `k`: on when `I` is on and every bit below `k` is on.
proof fn lemma_counter_tick_inc(gs: Seq<GateModel>, b: int, ins: Seq<(SignalName, bool, Vec<Id>)>, k: int)
    requires
        counter_shaped(gs, b),
        0 <= k < 8,
    ensures
        tick_model(counter_unit(gs, b), ins).gates[k].active == (in_value(ins, SignalName('I', 0))
            && low_bits_on(gs, k)),
{
    lemma_counter_tick_vals(gs, b, ins, k);
    let vals = counter_vals(gs, ins, k);
    let i = in_value(ins, SignalName('I', 0));
    assert(vals.len() == k + 1);
    assert(vals[0] == i);
    assert forall|j: int| 0 <= j < k implies vals[j + 1] == #[trigger] gs[8 + 3 * j].active by {}
    if i && low_bits_on(gs, k) {
        assert forall|n: int| 0 <= n < vals.len() implies vals[n] by {
            if n > 0 {
                assert(vals[(n - 1) + 1] == gs[8 + 3 * (n - 1)].active);
            }
        }
    } else if !i {
        assert(!vals[0]);
    } else {
        let j = choose|j: int| 0 <= j < k && !#[trigger] gs[8 + 3 * j].active;
        assert(!vals[j + 1]);
    }
}

/// One tick of the flip-flop of bit `j`: `bit = inc xor bit xor and`, `xor = D xor bit`,
/// `and = S and xor`, each from the values before the tick.
proof fn lemma_counter_tick_bit(gs: Seq<GateModel>, b: int, ins: Seq<(SignalName, bool, Vec<Id>)>, j: int)
    requires
        counter_shaped(gs, b),
        0 <= j < 8,
    ensures
        ({
            let t = tick_model(counter_unit(gs, b), ins).gates;
            &&& t[8 + 3 * j].active == ((gs[j].active != gs[8 + 3 * j].active) != gs[10 + 3 * j].active)
            &&& t[9 + 3 * j].active == (in_value(ins, SignalName('D', j as u8)) != gs[8 + 3 * j].active)
            &&& t[10 + 3 * j].active == (in_value(ins, SignalName('S', 0)) && gs[9 + 3 * j].active)
        }),
{
    let p0 = 8 + 3 * j;
    assert((p0 - 8) / 3 == j && (p0 - 8) % 3 == 0);
    assert((p0 + 1 - 8) / 3 == j && (p0 + 1 - 8) % 3 == 1);
    assert((p0 + 2 - 8) / 3 == j && (p0 + 2 - 8) % 3 == 2);
    lemma_counter_tick_vals(gs, b, ins, p0);
    lemma_counter_tick_vals(gs, b, ins, p0 + 1);
    lemma_counter_tick_vals(gs, b, ins, p0 + 2);
    let v0 = counter_vals(gs, ins, p0);
    let v1 = counter_vals(gs, ins, p0 + 1);
    let v2 = counter_vals(gs, ins, p0 + 2);
    assert(counter_input_name(1 + j) == SignalName('D', j as u8));
    assert(v0 =~= seq![gs[j].active, gs[p0].active, gs[p0 + 2].active]);
    assert(v1 =~= seq![in_value(ins, SignalName('D', j as u8)), gs[p0].active]);
    assert(v2 =~= seq![in_value(ins, SignalName('S', 0)), gs[p0 + 1].active]);
    reveal_with_fuel(parity, 4);
    assert(v0.drop_last() =~= seq![gs[j].active, gs[p0].active]);
    assert(seq![gs[j].active, gs[p0].active].drop_last() =~= seq![gs[j].active]);
    assert(seq![gs[j].active].drop_last() =~= Seq::<bool>::empty());
    lemma_two_values(counter_mode(p0 + 1), v1[0], v1[1]);
    lemma_two_values(counter_mode(p0 + 2), v2[0], v2[1]);
}

/// A tick keeps the layout of the counter, its inputs and its outputs.
proof fn lemma_counter_tick_shape(gs: Seq<GateModel>, b: int, ins: Seq<(SignalName, bool, Vec<Id>)>)
    requires
        counter_shaped(gs, b),
    ensures
        counter_shaped(tick_model(counter_unit(gs, b), ins).gates, b),
        tick_model(counter_unit(gs, b), ins) == counter_unit(tick_model(counter_unit(gs, b), ins).gates, b),
{
    reveal(counter_layout);
    let ng = tick_model(counter_unit(gs, b), ins).gates;
    assert forall|k: int| 0 <= k < 32 implies #[trigger] ng[k] == (GateModel {
        active: ng[k].active,
        ..counter_8b_gates(b)[k]
    }) by {
        assert(gs[k] == (GateModel { active: gs[k].active, ..counter_8b_gates(b)[k] }));
    }
}

// ---------------------------------------------------------------------------
// The counter counts and loads

/// The number the outputs of the first `n` bits of the counter spell, bit 0 lowest.
pub open spec fn counter_number(gs: Seq<GateModel>, n: int) -> int
    decreases n,
{
    if n <= 0 {
        0
    } else {
        counter_number(gs, n - 1) + if gs[8 + 3 * (n - 1)].active {
            pow2((n - 1) as nat) as int
        } else {
            0
        }
    }
}

/// The number the first `n` bits spell once each bit with all the bits below it on has
/// flipped.
pub open spec fn flipped_up(gs: Seq<GateModel>, n: int) -> int
    decreases n,
{
    if n <= 0 {
        0
    } else {
        flipped_up(gs, n - 1) + if gs[8 + 3 * (n - 1)].active != low_bits_on(gs, n - 1) {
            pow2((n - 1) as nat) as int
        } else {
            0
        }
    }
}

/// Flipping each bit whose lower bits are all on adds one: the result is `N + 1`, or 0
/// when all `n` bits were on.
proof fn lemma_flipped_up(gs: Seq<GateModel>, n: int)
    requires
        0 <= n,
    ensures
        0 <= counter_number(gs, n) < pow2(n as nat),
        low_bits_on(gs, n) <==> counter_number(gs, n) == pow2(n as nat) - 1,
        flipped_up(gs, n) == if low_bits_on(gs, n) {
            0
        } else {
            counter_number(gs, n) + 1
        },
    decreases n,
{
    if n == 0 {
        lemma2_to64();
    } else {
        lemma_flipped_up(gs, n - 1);
        lemma_pow2_unfold(n as nat);
        lemma_pow2_pos((n - 1) as nat);
        let q = gs[8 + 3 * (n - 1)].active;
        if low_bits_on(gs, n) {
            assert(low_bits_on(gs, n - 1));
            assert(q);
        } else if low_bits_on(gs, n - 1) {
            assert(!q) by {
                if q {
                    assert forall|j: int| 0 <= j < n implies #[trigger] gs[8 + 3 * j].active by {
                        if j < n - 1 {
                            assert(gs[8 + 3 * j].active);
                        }
                    }
                }
            }
        } else {
            let j = choose|j: int| 0 <= j < n - 1 && !#[trigger] gs[8 + 3 * j].active;
            assert(!gs[8 + 3 * j].active);
        }
    }
}

/// Increment gate `k` and the `and` of the flip-flop of bit `k` are off.
pub open spec fn resting_at(gs: Seq<GateModel>, k: int) -> bool {
    !gs[k].active && !gs[10 + 3 * k].active
}

/// The counter rests: every increment gate and every flip-flop's `and` is off.
pub open spec fn counter_resting(gs: Seq<GateModel>) -> bool {
    forall|k: int| 0 <= k < 8 ==> #[trigger] resting_at(gs, k)
}

/// Output `O j` of the counter is the flip-flop of bit `j`.
proof fn lemma_counter_outputs(gs: Seq<GateModel>, b: int)
    requires
        counter_shaped(gs, b),
    ensures
        forall|j: int|
            0 <= j < 8 ==> #[trigger] counter_outputs_upto(b, 8)[j].id == gs[8 + 3 * j].id && counter_outputs_upto(
                b,
                8,
            )[j].name == SignalName('O', j as u8),
{
    assert forall|j: int| 0 <= j < 8 implies #[trigger] counter_outputs_upto(b, 8)[j].id == gs[8 + 3 * j].id
        && counter_outputs_upto(b, 8)[j].name == SignalName('O', j as u8) by {
        lemma_counter_gate(gs, b, 8 + 3 * j);
    }
}

/// The counter counts: from rest, a one-tick pulse on `I` (one tick with `I` on, then one
/// with it off, `S` off throughout) adds one to the number its outputs `O0 .. O7` spell
/// (modulo 256), and leaves it at rest.
pub proof fn law_counter_increments(
    u: UnitModel,
    b: int,
    on: Seq<(SignalName, bool, Vec<Id>)>,
    off: Seq<(SignalName, bool, Vec<Id>)>,
)
    requires
        counter_shaped(u.gates, b),
        u.inputs == counter_8b_inputs(b),
        u.outputs == counter_outputs_upto(b, 8),
        counter_resting(u.gates),
        in_value(on, SignalName('I', 0)),
        !in_value(on, SignalName('S', 0)),
        !in_value(off, SignalName('I', 0)),
        !in_value(off, SignalName('S', 0)),
    ensures
        ({
            let u2 = tick_model(tick_model(u, on), off);
            &&& counter_shaped(u2.gates, b)
            &&& u2.outputs == u.outputs
            &&& forall|j: int|
                0 <= j < 8 ==> #[trigger] u2.outputs[j].id == u2.gates[8 + 3 * j].id && u2.outputs[j].name
                    == SignalName('O', j as u8)
            &&& counter_resting(u2.gates)
            &&& counter_number(u2.gates, 8) == (counter_number(u.gates, 8) + 1) % 256
        }),
{
    let gs = u.gates;
    assert(u == counter_unit(gs, b));
    lemma_counter_tick_shape(gs, b, on);
    let u1 = tick_model(u, on);
    let g1 = u1.gates;
    lemma_counter_tick_shape(g1, b, off);
    let u2 = tick_model(u1, off);
    let g2 = u2.gates;
    assert forall|k: int| 0 <= k < 8 implies #[trigger] g1[k].active == low_bits_on(gs, k) && g1[8 + 3 * k].active
        == gs[8 + 3 * k].active && !g1[10 + 3 * k].active by {
        assert(resting_at(gs, k));
        lemma_counter_tick_inc(gs, b, on, k);
        lemma_counter_tick_bit(gs, b, on, k);
    }
    assert forall|k: int| 0 <= k < 8 implies #[trigger] resting_at(g2, k) by {
        lemma_counter_tick_inc(g1, b, off, k);
        lemma_counter_tick_bit(g1, b, off, k);
    }
    assert forall|k: int| 0 <= k < 8 implies #[trigger] g2[8 + 3 * k].active == (gs[8 + 3 * k].active
        != low_bits_on(gs, k)) by {
        lemma_counter_tick_bit(g1, b, off, k);
        assert(g1[k].active == low_bits_on(gs, k));
    }
    assert forall|n: int| 0 <= n <= 8 implies #[trigger] counter_number(g2, n) == flipped_up(gs, n) by {
        lemma_counter_number_flipped(gs, g2, n);
    }
    lemma_flipped_up(gs, 8);
    lemma2_to64();
    lemma_counter_outputs(g2, b);
    assert(counter_resting(g2));
}

/// A number spelled by bits that are each flipped-up bits is the flipped-up number.
proof fn lemma_counter_number_flipped(gs: Seq<GateModel>, g2: Seq<GateModel>, n: int)
    requires
        0 <= n <= 8,
        forall|k: int|
            0 <= k < 8 ==> #[trigger] g2[8 + 3 * k].active == (gs[8 + 3 * k].active != low_bits_on(gs, k)),
    ensures
        counter_number(g2, n) == flipped_up(gs, n),
    decreases n,
{
    if n > 0 {
        lemma_counter_number_flipped(gs, g2, n - 1);
        assert(g2[8 + 3 * (n - 1)].active == (gs[8 + 3 * (n - 1)].active != low_bits_on(gs, n - 1)));
    }
}

/// The number the inputs `D0 .. D(n-1)` spell, bit 0 lowest.
pub open spec fn data_number(ins: Seq<(SignalName, bool, Vec<Id>)>, n: int) -> int
    decreases n,
{
    if n <= 0 {
        0
    } else {
        data_number(ins, n - 1) + if in_value(ins, SignalName('D', (n - 1) as u8)) {
            pow2((n - 1) as nat) as int
        } else {
            0
        }
    }
}

/// Outputs that show the data bits spell the data number.
proof fn lemma_counter_number_data(gs: Seq<GateModel>, ins: Seq<(SignalName, bool, Vec<Id>)>, n: int)
    requires
        0 <= n <= 8,
        forall|k: int| 0 <= k < 8 ==> #[trigger] gs[8 + 3 * k].active == in_value(ins, SignalName('D', k as u8)),
    ensures
        counter_number(gs, n) == data_number(ins, n),
    decreases n,
{
    if n > 0 {
        lemma_counter_number_data(gs, ins, n - 1);
        assert(gs[8 + 3 * (n - 1)].active == in_value(ins, SignalName('D', (n - 1) as u8)));
    }
}

/// The counter loads: from rest, with `D0 .. D7` held for a tick already (each
/// flip-flop's `xor` shows `D j xor O j`), a one-tick pulse on `S` (one tick with `S` on,
/// then one with it off, `I` off and `D` unchanged throughout) sets outputs `O0 .. O7` to
/// `D0 .. D7`, and leaves the counter at rest.
pub proof fn law_counter_loads(
    u: UnitModel,
    b: int,
    on: Seq<(SignalName, bool, Vec<Id>)>,
    off: Seq<(SignalName, bool, Vec<Id>)>,
)
    requires
        counter_shaped(u.gates, b),
        u.inputs == counter_8b_inputs(b),
        u.outputs == counter_outputs_upto(b, 8),
        counter_resting(u.gates),
        forall|j: int|
            0 <= j < 8 ==> #[trigger] u.gates[9 + 3 * j].active == (in_value(on, SignalName('D', j as u8))
                != u.gates[8 + 3 * j].active),
        forall|j: int|
            0 <= j < 8 ==> #[trigger] in_value(off, SignalName('D', j as u8)) == in_value(on, SignalName('D', j as u8)),
        in_value(on, SignalName('S', 0)),
        !in_value(on, SignalName('I', 0)),
        !in_value(off, SignalName('S', 0)),
        !in_value(off, SignalName('I', 0)),
    ensures
        ({
            let u2 = tick_model(tick_model(u, on), off);
            &&& counter_shaped(u2.gates, b)
            &&& u2.outputs == u.outputs
            &&& forall|j: int|
                0 <= j < 8 ==> #[trigger] u2.outputs[j].id == u2.gates[8 + 3 * j].id && u2.outputs[j].name
                    == SignalName('O', j as u8)
            &&& counter_resting(u2.gates)
            &&& forall|j: int| 0 <= j < 8 ==> #[trigger] u2.gates[8 + 3 * j].active == in_value(on, SignalName('D', j as u8))
            &&& counter_number(u2.gates, 8) == data_number(on, 8)
        }),
{
    let gs = u.gates;
    assert(u == counter_unit(gs, b));
    lemma_counter_tick_shape(gs, b, on);
    let u1 = tick_model(u, on);
    let g1 = u1.gates;
    lemma_counter_tick_shape(g1, b, off);
    let u2 = tick_model(u1, off);
    let g2 = u2.gates;
    assert forall|k: int| 0 <= k < 8 implies !#[trigger] g1[k].active && g1[8 + 3 * k].active == gs[8 + 3
        * k].active && g1[10 + 3 * k].active == (in_value(on, SignalName('D', k as u8)) != gs[8 + 3 * k].active) by {
        assert(resting_at(gs, k));
        lemma_counter_tick_inc(gs, b, on, k);
        lemma_counter_tick_bit(gs, b, on, k);
    }
    assert forall|k: int| 0 <= k < 8 implies #[trigger] resting_at(g2, k) by {
        lemma_counter_tick_inc(g1, b, off, k);
        lemma_counter_tick_bit(g1, b, off, k);
    }
    assert forall|k: int| 0 <= k < 8 implies #[trigger] g2[8 + 3 * k].active == in_value(
        on,
        SignalName('D', k as u8),
    ) by {
        lemma_counter_tick_bit(g1, b, off, k);
        assert(!g1[k].active);
        assert(g1[10 + 3 * k].active == (in_value(on, SignalName('D', k as u8)) != gs[8 + 3 * k].active));
    }
    lemma_counter_number_data(g2, on, 8);
    lemma_counter_outputs(g2, b);
    assert(counter_resting(g2));
}

} // verus!
