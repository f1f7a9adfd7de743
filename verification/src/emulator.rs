use vstd::prelude::*;

use std::collections::HashMap;

use itertools::Itertools;

use crate::logic_gate::{gate_output, GateModel, LogicGate};
use crate::logic_unit::{
    find_gate, first_gate, has_gate, has_input, inputs_model, is_first_gate, lemma_first_gate,
    InputModel, LogicUnit, Output, UnitModel,
};
use crate::assemble::output_name_keys;
use crate::order::{pos_before, stable_order, stable_positions};
use crate::utils::{Id, SignalName};

verus! {

broadcast use vstd::std_specs::hash::group_hash_axioms;

/// What drives a gate: an input of the unit, or another gate.
#[derive(Clone, Copy, Debug, PartialEq, Eq, Structural, Hash)]
pub enum ParentRef {
    Input(SignalName),
    Gate(Id),
}

/// `r` once for every occurrence of `x` in `ids`.
pub open spec fn ids_refs(ids: Seq<Id>, x: Id, r: ParentRef) -> Seq<ParentRef>
    decreases ids.len(),
{
    if ids.len() == 0 {
        Seq::empty()
    } else {
        ids_refs(ids.drop_last(), x, r) + if ids.last() == x {
            seq![r]
        } else {
            Seq::empty()
        }
    }
}

/// The inputs that drive `x`, once per occurrence of `x` in their ids, in order.
pub open spec fn input_refs(ins: Seq<InputModel>, x: Id) -> Seq<ParentRef>
    decreases ins.len(),
{
    if ins.len() == 0 {
        Seq::empty()
    } else {
        input_refs(ins.drop_last(), x) + ids_refs(
            ins.last().ids,
            x,
            ParentRef::Input(ins.last().name),
        )
    }
}

/// The gates that drive `x`, once per occurrence of `x` in their children, in order.
pub open spec fn gate_refs(gs: Seq<GateModel>, x: Id) -> Seq<ParentRef>
    decreases gs.len(),
{
    if gs.len() == 0 {
        Seq::empty()
    } else {
        gate_refs(gs.drop_last(), x) + ids_refs(gs.last().children, x, ParentRef::Gate(gs.last().id))
    }
}

/// Everything that drives `x` in the unit: first the inputs, then the gates.
pub open spec fn parents_of(u: UnitModel, x: Id) -> Seq<ParentRef> {
    input_refs(u.inputs, x) + gate_refs(u.gates, x)
}

/// The list a parents map holds for `x` (empty when it holds none).
pub open spec fn refs_in(m: Map<Id, Vec<ParentRef>>, x: Id) -> Seq<ParentRef> {
    if m.dom().contains(x) {
        m[x]@
    } else {
        Seq::empty()
    }
}

/// The map holds, for every id, exactly the given lists, and no empty list.
pub open spec fn map_holds(m: Map<Id, Vec<ParentRef>>, f: spec_fn(Id) -> Seq<ParentRef>) -> bool {
    forall|x: Id|
        #![trigger refs_in(m, x)]
        refs_in(m, x) == f(x) && (m.dom().contains(x) ==> f(x).len() > 0)
}

/// An emulator input: its name, its current value, and the gates it drives.
pub open spec fn emu_input_model(e: (SignalName, bool, Vec<Id>)) -> (SignalName, bool, Seq<Id>) {
    (e.0, e.1, e.2@)
}

/// The inputs of a unit, sorted by name with a stable sort, all off.
pub open spec fn sorted_inputs_from(
    ins: Seq<InputModel>,
    keys: Seq<u64>,
    out: Seq<(SignalName, bool, Seq<Id>)>,
) -> bool {
    exists|p: Seq<usize>|
        stable_order(keys, p) && out.len() == p.len() && forall|i: int|
            0 <= i < out.len() ==> #[trigger] out[i] == (
                ins[p[i] as int].name,
                false,
                ins[p[i] as int].ids,
            )
}

/// The sort key of a signal name: letter first, then bit index.
pub open spec fn name_key(n: SignalName) -> u64 {
    ((n.0 as u64) * 256 + n.1 as u64) as u64
}

/// The sort keys of the names of the inputs.
pub open spec fn name_keys(ins: Seq<InputModel>) -> Seq<u64> {
    ins.map_values(|i: InputModel| name_key(i.name))
}

/// The sort key of a signal name: letter first, then bit index.
pub(crate) fn signal_key(n: SignalName) -> (k: u64)
    ensures
        k == name_key(n),
{
    (n.0 as u64) * 256 + n.1 as u64
}

/// Lexicographic order of pairs, as std orders tuples.
pub open spec fn pair_le(a: (u64, usize), b: (u64, usize)) -> bool {
    a.0 < b.0 || (a.0 == b.0 && a.1 <= b.1)
}

/// Calls `Itertools::sorted`, which collects the items into a `Vec`, sorts it with
/// `slice::sort` and hands it back: the same items, in ascending order, where std orders
/// tuples lexicographically.
#[verifier::external_body]
fn sorted_pairs(v: Vec<(u64, usize)>) -> (r: Vec<(u64, usize)>)
    ensures
        r@.to_multiset() == v@.to_multiset(),
        forall|i: int, j: int| 0 <= i < j < r@.len() ==> pair_le(r@[i], r@[j]),
{
    v.into_iter().sorted().collect()
}

/// The state of an emulated unit: the unit, the inputs and their values, and what
/// drives each gate.
pub struct Emulator {
    unit: LogicUnit,
    inputs: Vec<(SignalName, bool, Vec<Id>)>,
    parents: HashMap<Id, Vec<ParentRef>>,
    tick: u64,
}

/// The position of the first emulator input named `name`.
pub open spec fn is_first_emu_input(ins: Seq<(SignalName, bool, Vec<Id>)>, name: SignalName, k: int) -> bool {
    &&& 0 <= k < ins.len()
    &&& ins[k].0 == name
    &&& forall|j: int| 0 <= j < k ==> ins[j].0 != name
}

/// Some emulator input is named `name`.
pub open spec fn has_emu_input(ins: Seq<(SignalName, bool, Vec<Id>)>, name: SignalName) -> bool {
    exists|i: int| 0 <= i < ins.len() && ins[i].0 == name
}

/// The value of the first emulator input named `name`.
pub open spec fn emu_input_value(ins: Seq<(SignalName, bool, Vec<Id>)>, name: SignalName) -> bool {
    let k = choose|k: int| is_first_emu_input(ins, name, k);
    ins[k].1
}

/// The value a parent carries: a gate's state, or an input's value.
pub open spec fn ref_value(
    gs: Seq<GateModel>,
    ins: Seq<(SignalName, bool, Vec<Id>)>,
    r: ParentRef,
) -> bool {
    match r {
        ParentRef::Gate(id) => gs[first_gate(gs, id)].active,
        ParentRef::Input(name) => emu_input_value(ins, name),
    }
}

impl Emulator {
    pub closed spec fn spec_unit(&self) -> UnitModel {
        self.unit@
    }

    pub closed spec fn spec_inputs(&self) -> Seq<(SignalName, bool, Vec<Id>)> {
        self.inputs@
    }

    pub closed spec fn spec_parents(&self) -> Map<Id, Vec<ParentRef>> {
        self.parents@
    }

    pub closed spec fn spec_tick(&self) -> u64 {
        self.tick
    }

    /// The parents map describes the unit, and every input of the unit has a value.
    pub open spec fn wf(&self) -> bool {
        &&& map_holds(self.spec_parents(), |x: Id| parents_of(self.spec_unit(), x))
        &&& forall|k: int|
            0 <= k < self.spec_unit().inputs.len() ==> has_emu_input(
                self.spec_inputs(),
                #[trigger] self.spec_unit().inputs[k].name,
            )
    }
}

/// Adds `r` to the list of `x`.
fn push_parent(parents: &mut HashMap<Id, Vec<ParentRef>>, x: Id, r: ParentRef)
    ensures
        forall|y: Id|
            #![trigger refs_in(final(parents)@, y)]
            y != x ==> refs_in(final(parents)@, y) == refs_in(old(parents)@, y)
                && (final(parents)@.dom().contains(y) == old(parents)@.dom().contains(y)),
        refs_in(final(parents)@, x) == refs_in(old(parents)@, x).push(r),
        final(parents)@.dom().contains(x),
{
    let mut v = match parents.remove(&x) {
        Some(v) => v,
        None => Vec::new(),
    };
    v.push(r);
    parents.insert(x, v);
}

/// Adds `r` once for every occurrence of an id among `children`, in order.
fn push_all(
    parents: &mut HashMap<Id, Vec<ParentRef>>,
    children: &Vec<Id>,
    r: ParentRef,
    Ghost(f): Ghost<spec_fn(Id) -> Seq<ParentRef>>,
)
    requires
        map_holds(old(parents)@, f),
    ensures
        map_holds(final(parents)@, |x: Id| f(x) + ids_refs(children@, x, r)),
{
    let mut m: usize = 0;
    while m < children.len()
        invariant
            m <= children@.len(),
            map_holds(parents@, |x: Id| f(x) + ids_refs(children@.take(m as int), x, r)),
        decreases children@.len() - m,
    {
        let child = children[m];
        let ghost before = parents@;
        push_parent(parents, child, r);
        proof {
            assert(children@.take(m as int + 1).drop_last() =~= children@.take(m as int));
            assert forall|x: Id| #![trigger refs_in(parents@, x)]
                refs_in(parents@, x) == f(x) + ids_refs(children@.take(m as int + 1), x, r)
                    && (parents@.dom().contains(x) ==> (f(x) + ids_refs(
                    children@.take(m as int + 1),
                    x,
                    r,
                )).len() > 0) by {
                assert(refs_in(before, x) == f(x) + ids_refs(children@.take(m as int), x, r));
                if x == child {
                    assert((f(x) + ids_refs(children@.take(m as int), x, r)).push(r) =~= f(x) + ids_refs(
                        children@.take(m as int + 1),
                        x,
                        r,
                    ));
                } else {
                    assert(ids_refs(children@.take(m as int + 1), x, r) =~= ids_refs(
                        children@.take(m as int),
                        x,
                        r,
                    ));
                }
            }
        }
        m += 1;
    }
    proof {
        assert(children@.take(children@.len() as int) =~= children@);
    }
}

/// For every id of the unit, the list of what drives it.
fn parents_map(unit: &LogicUnit) -> (parents: HashMap<Id, Vec<ParentRef>>)
    ensures
        map_holds(parents@, |x: Id| parents_of(unit@, x)),
{
    let mut parents: HashMap<Id, Vec<ParentRef>> = HashMap::new();
    let ghost ins = unit@.inputs;
    let ghost gs = unit@.gates;
    proof {
        assert forall|x: Id| #![trigger refs_in(parents@, x)]
            refs_in(parents@, x) == input_refs(ins.take(0), x) && (parents@.dom().contains(x)
                ==> input_refs(ins.take(0), x).len() > 0) by {
            assert(ins.take(0) =~= Seq::<InputModel>::empty());
        }
    }
    let mut k: usize = 0;
    while k < unit.io.inputs.len()
        invariant
            k <= ins.len(),
            ins == unit@.inputs,
            map_holds(parents@, |x: Id| input_refs(ins.take(k as int), x)),
        decreases ins.len() - k,
    {
        let input = &unit.io.inputs[k];
        let ghost r = ParentRef::Input(input.name);
        let ghost before = ins.take(k as int);
        push_all(&mut parents, &input.ids, ParentRef::Input(input.name), Ghost(|x: Id| input_refs(before, x)));
        proof {
            assert(ins.take(k as int + 1).drop_last() =~= before);
            assert(ins.take(k as int + 1).last() == ins[k as int]);
            assert forall|x: Id| #![trigger refs_in(parents@, x)]
                refs_in(parents@, x) == input_refs(ins.take(k as int + 1), x) && (parents@.dom().contains(x)
                    ==> input_refs(ins.take(k as int + 1), x).len() > 0) by {
                assert(input_refs(ins.take(k as int + 1), x) == input_refs(before, x) + ids_refs(
                    input.ids@,
                    x,
                    r,
                ));
            }
        }
        k += 1;
    }
    proof {
        assert(ins.take(ins.len() as int) =~= ins);
        assert forall|x: Id| #![trigger refs_in(parents@, x)]
            refs_in(parents@, x) == input_refs(ins, x) + gate_refs(gs.take(0), x) && (parents@.dom().contains(x)
                ==> (input_refs(ins, x) + gate_refs(gs.take(0), x)).len() > 0) by {
            assert(gs.take(0) =~= Seq::<GateModel>::empty());
            assert(input_refs(ins, x) + gate_refs(gs.take(0), x) =~= input_refs(ins, x));
        }
    }
    let mut k: usize = 0;
    while k < unit.gates.len()
        invariant
            k <= gs.len(),
            ins == unit@.inputs,
            gs == unit@.gates,
            map_holds(parents@, |x: Id| input_refs(ins, x) + gate_refs(gs.take(k as int), x)),
        decreases gs.len() - k,
    {
        let gate = &unit.gates[k];
        let ghost r = ParentRef::Gate(gate.id);
        let ghost before = gs.take(k as int);
        push_all(
            &mut parents,
            &gate.children,
            ParentRef::Gate(gate.id),
            Ghost(|x: Id| input_refs(ins, x) + gate_refs(before, x)),
        );
        proof {
            assert(gs.take(k as int + 1).drop_last() =~= before);
            assert(gs.take(k as int + 1).last() == gs[k as int]);
            assert(gs[k as int].children == gate.children@);
            assert forall|x: Id| #![trigger refs_in(parents@, x)]
                refs_in(parents@, x) == input_refs(ins, x) + gate_refs(gs.take(k as int + 1), x) && (parents@.dom().contains(x)
                    ==> (input_refs(ins, x) + gate_refs(gs.take(k as int + 1), x)).len() > 0) by {
                assert(gate_refs(gs.take(k as int + 1), x) == gate_refs(before, x) + ids_refs(
                    gate.children@,
                    x,
                    r,
                ));
                assert(input_refs(ins, x) + gate_refs(gs.take(k as int + 1), x) =~= input_refs(ins, x)
                    + gate_refs(before, x) + ids_refs(gate.children@, x, r));
            }
        }
        k += 1;
    }
    proof {
        assert(gs.take(gs.len() as int) =~= gs);
        assert forall|x: Id| #![trigger refs_in(parents@, x)]
            refs_in(parents@, x) == parents_of(unit@, x) && (parents@.dom().contains(x)
                ==> parents_of(unit@, x).len() > 0) by {
            assert(parents_of(unit@, x) == input_refs(ins, x) + gate_refs(gs, x));
        }
    }
    parents
}

impl Emulator {
    /// Prepares the emulation of `unit`: all inputs off, inputs sorted by name (stably),
    /// and for every gate the list of what drives it.
    pub fn new(unit: LogicUnit) -> (e: Self)
        ensures
            e.wf(),
            e.spec_unit() == unit@,
            e.spec_tick() == 0,
            sorted_inputs_from(
                unit@.inputs,
                name_keys(unit@.inputs),
                e.spec_inputs().map_values(|t: (SignalName, bool, Vec<Id>)| emu_input_model(t)),
            ),
    {
        let ghost ins = unit@.inputs;
        let ghost gs = unit@.gates;
        let parents = parents_map(&unit);

        // Inputs sorted by name; equal names keep their order.
        let mut keyed: Vec<(u64, usize)> = Vec::new();
        let mut k: usize = 0;
        while k < unit.io.inputs.len()
            invariant
                k <= ins.len(),
                ins == unit@.inputs,
                keyed@.len() == k,
                forall|j: int| 0 <= j < k ==> #[trigger] keyed@[j] == (name_key(ins[j].name), j as usize),
            decreases ins.len() - k,
        {
            keyed.push((signal_key(unit.io.inputs[k].name), k));
            k += 1;
        }
        let ghost keys = name_keys(ins);
        let ghost keyed_v = keyed@;
        let sorted = sorted_pairs(keyed);
        let ghost ps = sorted@.map_values(|t: (u64, usize)| t.1);
        proof {
            lemma_sorted_pairs_order(keys, keyed_v, sorted@);
        }
        let mut inputs: Vec<(SignalName, bool, Vec<Id>)> = Vec::new();
        let mut i: usize = 0;
        while i < sorted.len()
            invariant
                i <= sorted@.len(),
                sorted@.len() == ins.len(),
                ins == unit@.inputs,
                forall|j: int| 0 <= j < sorted@.len() ==> #[trigger] sorted@[j].1 < ins.len(),
                inputs@.len() == i,
                forall|j: int| 0 <= j < i ==> #[trigger] emu_input_model(inputs@[j]) == (
                    ins[sorted@[j].1 as int].name,
                    false,
                    ins[sorted@[j].1 as int].ids,
                ),
            decreases sorted@.len() - i,
        {
            let pos = sorted[i].1;
            let input = &unit.io.inputs[pos];
            let ids = input.ids.clone();
            proof {
                assert(ids@ =~= input.ids@);
            }
            inputs.push((input.name, false, ids));
            i += 1;
        }
        let e = Self { inputs, unit, parents, tick: 0 };
        proof {
            let out = e.spec_inputs().map_values(|t: (SignalName, bool, Vec<Id>)| emu_input_model(t));
            assert(stable_order(keys, ps));
            assert forall|i: int| 0 <= i < out.len() implies #[trigger] out[i] == (
                ins[ps[i] as int].name,
                false,
                ins[ps[i] as int].ids,
            ) by {
                assert(out[i] == emu_input_model(e.spec_inputs()[i]));
            }
            assert(sorted_inputs_from(ins, keys, out));
            assert forall|k: int| 0 <= k < e.spec_unit().inputs.len() implies has_emu_input(
                e.spec_inputs(),
                #[trigger] e.spec_unit().inputs[k].name,
            ) by {
                assert(ps.contains(k as usize));
                let i = choose|i: int| 0 <= i < ps.len() && ps[i] == k as usize;
                assert(out[i].0 == e.spec_inputs()[i].0);
            }
        }
        e
    }
}

/// The pairs `(key, position)` sorted in lexicographic order list the positions in the
/// order of a stable sort by key.
proof fn lemma_sorted_pairs_order(keys: Seq<u64>, v: Seq<(u64, usize)>, r: Seq<(u64, usize)>)
    requires
        v.len() == keys.len(),
        v.len() <= usize::MAX,
        forall|j: int| 0 <= j < v.len() ==> #[trigger] v[j] == (keys[j], j as usize),
        r.to_multiset() == v.to_multiset(),
        forall|i: int, j: int| 0 <= i < j < r.len() ==> pair_le(r[i], r[j]),
    ensures
        r.len() == v.len(),
        forall|j: int| 0 <= j < r.len() ==> #[trigger] r[j].1 < keys.len() && r[j].0 == keys[r[j].1 as int],
        stable_order(keys, r.map_values(|t: (u64, usize)| t.1)),
{
    broadcast use vstd::multiset::group_multiset_axioms;
    broadcast use vstd::seq_lib::group_seq_properties;

    let ps = r.map_values(|t: (u64, usize)| t.1);
    assert(v.no_duplicates()) by {
        assert forall|a: int, b: int| 0 <= a < v.len() && 0 <= b < v.len() && a != b implies v[a] != v[b] by {
            assert(v[a].1 == a as usize);
            assert(v[b].1 == b as usize);
        }
    }
    v.lemma_multiset_has_no_duplicates();
    r.lemma_multiset_has_no_duplicates_conv();
    assert(r.len() == v.len()) by {
        assert(r.to_multiset().len() == r.len());
        assert(v.to_multiset().len() == v.len());
    }
    assert forall|j: int| 0 <= j < r.len() implies #[trigger] r[j].1 < keys.len() && r[j].0 == keys[r[j].1 as int] by {
        assert(r.to_multiset().count(r[j]) > 0);
        assert(v.to_multiset().count(r[j]) > 0);
        assert(v.contains(r[j]));
        let a = choose|a: int| 0 <= a < v.len() && v[a] == r[j];
        assert(v[a] == (keys[a], a as usize));
    }
    assert forall|t: usize| t < keys.len() implies #[trigger] ps.contains(t) by {
        assert(v[t as int] == (keys[t as int], t));
        assert(v.to_multiset().count(v[t as int]) > 0);
        assert(r.to_multiset().count(v[t as int]) > 0);
        assert(r.contains(v[t as int]));
        let a = choose|a: int| 0 <= a < r.len() && r[a] == v[t as int];
        assert(ps[a] == t);
    }
    assert forall|i: int, j: int| 0 <= i < j < ps.len() implies pos_before(keys, #[trigger] ps[i], #[trigger] ps[j]) by {
        assert(pair_le(r[i], r[j]));
        assert(r[i] != r[j]);
        assert(r[i].0 == keys[r[i].1 as int]);
        assert(r[j].0 == keys[r[j].1 as int]);
    }
}

/// Every element of `ids_refs(ids, x, r)` is `r`.
proof fn lemma_ids_refs(ids: Seq<Id>, x: Id, r: ParentRef)
    ensures
        forall|i: int| 0 <= i < ids_refs(ids, x, r).len() ==> #[trigger] ids_refs(ids, x, r)[i] == r,
    decreases ids.len(),
{
    if ids.len() > 0 {
        lemma_ids_refs(ids.drop_last(), x, r);
    }
}

/// What a gate list lists as drivers are gates of that list.
proof fn lemma_gate_refs(gs: Seq<GateModel>, x: Id)
    ensures
        forall|i: int|
            0 <= i < gate_refs(gs, x).len() ==> (#[trigger] gate_refs(gs, x)[i] matches ParentRef::Gate(
                id,
            ) && has_gate(gs, id)),
    decreases gs.len(),
{
    if gs.len() > 0 {
        let prev = gs.drop_last();
        lemma_gate_refs(prev, x);
        lemma_ids_refs(gs.last().children, x, ParentRef::Gate(gs.last().id));
        let a = gate_refs(prev, x);
        assert forall|i: int| 0 <= i < gate_refs(gs, x).len() implies (#[trigger] gate_refs(gs, x)[i] matches ParentRef::Gate(
            id,
        ) && has_gate(gs, id)) by {
            if i < a.len() {
                assert(gate_refs(gs, x)[i] == a[i]);
                if let ParentRef::Gate(id) = a[i] {
                    let k = choose|k: int| 0 <= k < prev.len() && prev[k].id == id;
                    assert(gs[k].id == id);
                }
            } else {
                assert(gs[gs.len() - 1].id == gs.last().id);
            }
        }
    }
}

/// What an input list lists as drivers are inputs of that list.
proof fn lemma_input_refs(ins: Seq<InputModel>, x: Id)
    ensures
        forall|i: int|
            0 <= i < input_refs(ins, x).len() ==> (#[trigger] input_refs(ins, x)[i] matches ParentRef::Input(
                n,
            ) && has_input(ins, n)),
    decreases ins.len(),
{
    if ins.len() > 0 {
        let prev = ins.drop_last();
        lemma_input_refs(prev, x);
        lemma_ids_refs(ins.last().ids, x, ParentRef::Input(ins.last().name));
        let a = input_refs(prev, x);
        assert forall|i: int| 0 <= i < input_refs(ins, x).len() implies (#[trigger] input_refs(ins, x)[i] matches ParentRef::Input(
            n,
        ) && has_input(ins, n)) by {
            if i < a.len() {
                assert(input_refs(ins, x)[i] == a[i]);
                if let ParentRef::Input(n) = a[i] {
                    let k = choose|k: int| 0 <= k < prev.len() && prev[k].name == n;
                    assert(ins[k].name == n);
                }
            } else {
                assert(ins[ins.len() - 1].name == ins.last().name);
            }
        }
    }
}

/// The drivers depend only on the ids and children of the gates.
#[verifier::spinoff_prover]
proof fn lemma_gate_refs_same(gs: Seq<GateModel>, hs: Seq<GateModel>, x: Id)
    requires
        gs.len() == hs.len(),
        forall|k: int| 0 <= k < gs.len() ==> #[trigger] gs[k].id == hs[k].id && gs[k].children == hs[k].children,
    ensures
        gate_refs(gs, x) == gate_refs(hs, x),
    decreases gs.len(),
{
    if gs.len() > 0 {
        let g2 = gs.drop_last();
        let h2 = hs.drop_last();
        assert forall|k: int| 0 <= k < g2.len() implies #[trigger] g2[k].id == h2[k].id && g2[k].children == h2[k].children by {
            assert(g2[k] == gs[k]);
            assert(h2[k] == hs[k]);
            assert(gs[k].id == hs[k].id);
            assert(gs[k].children =~= hs[k].children);
        }
        lemma_gate_refs_same(g2, h2, x);
        assert(gs.last().id == hs.last().id);
    }
}

/// The state of gate `k` after one tick: what its mode computes from the values of its
/// drivers before the tick.
pub open spec fn next_active(e: &Emulator, k: int) -> bool {
    let u = e.spec_unit();
    gate_output(
        u.gates[k].mode,
        parents_of(u, u.gates[k].id).map_values(|r: ParentRef| ref_value(u.gates, e.spec_inputs(), r)),
    )
}

/// Every gate of the unit has at least one driver.
pub open spec fn all_driven(u: UnitModel) -> bool {
    forall|k: int| 0 <= k < u.gates.len() ==> parents_of(u, #[trigger] u.gates[k].id).len() > 0
}

/// Finds the first emulator input named `name`.
fn find_emu_input(ins: &Vec<(SignalName, bool, Vec<Id>)>, name: SignalName) -> (k: usize)
    requires
        has_emu_input(ins@, name),
    ensures
        is_first_emu_input(ins@, name, k as int),
{
    let mut k: usize = 0;
    while k < ins.len()
        invariant
            k <= ins@.len(),
            forall|j: int| 0 <= j < k ==> ins@[j].0 != name,
            has_emu_input(ins@, name),
        decreases ins@.len() - k,
    {
        if ins[k].0 == name {
            return k;
        }
        k += 1;
    }
    0
}

/// The first emulator input named `name` is unique.
pub proof fn lemma_first_emu_input(ins: Seq<(SignalName, bool, Vec<Id>)>, name: SignalName, k: int)
    requires
        is_first_emu_input(ins, name, k),
    ensures
        emu_input_value(ins, name) == ins[k].1,
{
    let f = choose|f: int| is_first_emu_input(ins, name, f);
    assert(is_first_emu_input(ins, name, f));
    if f < k {
        assert(ins[f].0 != name);
    } else if f > k {
        assert(ins[k].0 != name);
    }
}

impl Emulator {
    /// Advances the emulation by one tick: every gate takes the value its mode computes
    /// from the values its drivers had before the tick.
    pub fn tick(&mut self)
        requires
            old(self).wf(),
            old(self).spec_tick() < u64::MAX,
            all_driven(old(self).spec_unit()),
        ensures
            final(self).wf(),
            final(self).spec_tick() == old(self).spec_tick() + 1,
            final(self).spec_inputs() == old(self).spec_inputs(),
            final(self).spec_parents() == old(self).spec_parents(),
            final(self).spec_unit().inputs == old(self).spec_unit().inputs,
            final(self).spec_unit().outputs == old(self).spec_unit().outputs,
            final(self).spec_unit().gates.len() == old(self).spec_unit().gates.len(),
            forall|k: int|
                0 <= k < old(self).spec_unit().gates.len() ==> #[trigger] final(self).spec_unit().gates[k]
                    == (GateModel { active: next_active(old(self), k), ..old(self).spec_unit().gates[k] }),
    {
        let ghost u = self.unit@;
        let n = self.unit.gates.len();
        let mut next: Vec<LogicGate> = Vec::new();
        let mut i: usize = 0;
        while i < n
            invariant
                self.wf(),
                u == self.unit@,
                all_driven(u),
                n == u.gates.len(),
                i <= n,
                next@.len() == i,
                forall|k: int|
                    0 <= k < i ==> #[trigger] next@[k]@ == (GateModel { active: next_active(self, k), ..u.gates[k] }),
            decreases n - i,
        {
            let g = &self.unit.gates[i];
            let ghost x = g.id;
            assert(u.gates[i as int].id == x);
            let refs = match self.parents.get(&g.id) {
                Some(v) => v,
                None => {
                    proof {
                        assert(refs_in(self.parents@, x) == parents_of(u, x));
                        assert(parents_of(u, x).len() > 0);
                    }
                    return;
                },
            };
            proof {
                assert(refs_in(self.parents@, x) == parents_of(u, x));
                assert(refs@ == parents_of(u, x));
                lemma_gate_refs(u.gates, x);
                lemma_input_refs(u.inputs, x);
            }
            let ghost ps = parents_of(u, x);
            let ghost ia = input_refs(u.inputs, x);
            let mut vals: Vec<bool> = Vec::new();
            let mut m: usize = 0;
            while m < refs.len()
                invariant
                    self.wf(),
                    u == self.unit@,
                    refs@ == ps,
                    ps == ia + gate_refs(u.gates, x),
                    ia == input_refs(u.inputs, x),
                    forall|t: int|
                        0 <= t < ia.len() ==> (#[trigger] ia[t] matches ParentRef::Input(nm) && has_input(
                            u.inputs,
                            nm,
                        )),
                    forall|t: int|
                        0 <= t < gate_refs(u.gates, x).len() ==> (#[trigger] gate_refs(u.gates, x)[t] matches ParentRef::Gate(
                            id,
                        ) && has_gate(u.gates, id)),
                    m <= ps.len(),
                    vals@.len() == m,
                    forall|t: int|
                        0 <= t < m ==> #[trigger] vals@[t] == ref_value(u.gates, self.inputs@, ps[t]),
                decreases ps.len() - m,
            {
                let r = refs[m];
                let v = match r {
                    ParentRef::Gate(id) => {
                        proof {
                            assert(ps[m as int] == gate_refs(u.gates, x)[m - ia.len()]);
                        }
                        match find_gate(&self.unit.gates, id) {
                            Some(k) => {
                                proof {
                                    lemma_first_gate(u.gates, id, k as int);
                                }
                                self.unit.gates[k].active
                            },
                            None => {
                                proof {
                                    assert(false);
                                }
                                false
                            },
                        }
                    },
                    ParentRef::Input(name) => {
                        proof {
                            assert(ps[m as int] == ia[m as int]);
                            let k = choose|k: int| 0 <= k < u.inputs.len() && u.inputs[k].name == name;
                            assert(has_emu_input(self.inputs@, u.inputs[k].name));
                        }
                        let k = find_emu_input(&self.inputs, name);
                        proof {
                            lemma_first_emu_input(self.inputs@, name, k as int);
                        }
                        self.inputs[k].1
                    },
                };
                vals.push(v);
                m += 1;
            }
            let value = g.evaluate(vals.as_slice());
            proof {
                assert(vals@ =~= ps.map_values(|r: ParentRef| ref_value(u.gates, self.inputs@, r)));
            }
            let mut ng = g.duplicate();
            ng.active = value;
            next.push(ng);
            i += 1;
        }
        let ghost old_self = *self;
        self.unit.gates = next;
        self.tick = self.tick + 1;
        proof {
            let nu = self.unit@;
            assert forall|k: int| 0 <= k < nu.gates.len() implies #[trigger] nu.gates[k] == (GateModel {
                active: next_active(&old_self, k),
                ..u.gates[k]
            }) by {
                assert(nu.gates[k] == next@[k]@);
            }
            assert forall|x: Id| #[trigger] gate_refs(nu.gates, x) == gate_refs(u.gates, x) by {
                lemma_gate_refs_same(nu.gates, u.gates, x);
            }
            assert forall|x: Id| #![trigger refs_in(self.parents@, x)]
                refs_in(self.parents@, x) == parents_of(nu, x) && (self.parents@.dom().contains(x)
                    ==> parents_of(nu, x).len() > 0) by {
                assert(parents_of(nu, x) == parents_of(u, x));
                assert(refs_in(old_self.parents@, x) == parents_of(u, x));
            }
        }
    }
}

/// What a key press asks of the emulator.
#[derive(Debug, Clone, Copy, PartialEq, Eq, Structural)]
pub enum Command {
    Quit,
    Tick,
    Nothing,
}

/// `q` quits, `t` advances one tick, other keys do nothing.
pub fn command_for_key(c: char) -> (cmd: Command)
    ensures
        cmd == (if c == 'q' {
            Command::Quit
        } else if c == 't' {
            Command::Tick
        } else {
            Command::Nothing
        }),
{
    if c == 'q' {
        Command::Quit
    } else if c == 't' {
        Command::Tick
    } else {
        Command::Nothing
    }
}

/// The inputs with input `i` flipped.
pub open spec fn flip_input(ins: Seq<(SignalName, bool, Vec<Id>)>, i: int) -> Seq<(SignalName, bool, Vec<Id>)> {
    ins.update(i, (ins[i].0, !ins[i].1, ins[i].2))
}

/// A click at `(column, row)` hits the switch of an input: row 1, three columns per input.
pub open spec fn click_hits(len: nat, column: u16, row: u16) -> bool {
    row == 1 && column / 3 <= (len as u16)
}

impl Emulator {
    /// The emulated unit.
    pub fn unit(&self) -> (r: &LogicUnit)
        ensures
            r@ == self.spec_unit(),
    {
        &self.unit
    }

    /// The inputs: name, current value, driven gates; sorted by name.
    pub fn inputs(&self) -> (r: &Vec<(SignalName, bool, Vec<Id>)>)
        ensures
            r@ == self.spec_inputs(),
    {
        &self.inputs
    }

    /// The number of ticks emulated so far.
    pub fn tick_count(&self) -> (r: u64)
        ensures
            r == self.spec_tick(),
    {
        self.tick
    }

    /// A mouse click at `(column, row)`: on row 1, the click flips input `column / 3`.
    /// Returns whether an input was flipped.
    pub fn click(&mut self, column: u16, row: u16) -> (toggled: bool)
        requires
            click_hits(old(self).spec_inputs().len(), column, row) ==> (column / 3) < old(
                self,
            ).spec_inputs().len(),
        ensures
            toggled == click_hits(old(self).spec_inputs().len(), column, row),
            final(self).spec_unit() == old(self).spec_unit(),
            final(self).spec_parents() == old(self).spec_parents(),
            final(self).spec_tick() == old(self).spec_tick(),
            toggled ==> final(self).spec_inputs() == flip_input(old(self).spec_inputs(), (column / 3) as int),
            !toggled ==> final(self).spec_inputs() == old(self).spec_inputs(),
            old(self).wf() ==> final(self).wf(),
    {
        let x = column;
        let y = row;
        if y == 1 && x / 3 <= self.inputs.len() as u16 {
            let idx = (x / 3) as usize;
            let ghost before = self.inputs@;
            let (name, value, ids) = self.inputs.remove(idx);
            self.inputs.insert(idx, (name, !value, ids));
            proof {
                assert(self.inputs@ =~= before.update(idx as int, (name, !value, ids)));
                assert forall|k: int| 0 <= k < self.unit@.inputs.len() && has_emu_input(before, #[trigger] self.unit@.inputs[k].name)
                    implies has_emu_input(self.inputs@, self.unit@.inputs[k].name) by {
                    let i = choose|i: int| 0 <= i < before.len() && before[i].0 == self.unit@.inputs[k].name;
                    assert(self.inputs@[i].0 == before[i].0);
                }
            }
            true
        } else {
            false
        }
    }
}

// ---------------------------------------------------------------------------
// What the emulator shows

/// An output as shown: its name and the state of its gate.
pub open spec fn output_state(gs: Seq<GateModel>, o: Output) -> (SignalName, bool) {
    (o.name, gs[first_gate(gs, o.id)].active)
}

/// `k` is the first output carried by gate `id`.
pub open spec fn is_first_output_of(outs: Seq<Output>, id: Id, k: int) -> bool {
    &&& 0 <= k < outs.len()
    &&& outs[k].id == id
    &&& forall|j: int| 0 <= j < k ==> outs[j].id != id
}

/// The name of the first output carried by gate `id`, or `0` (bit 0) if it carries
/// none.
pub open spec fn output_name_of(outs: Seq<Output>, id: Id) -> SignalName {
    if exists|k: int| is_first_output_of(outs, id, k) {
        outs[choose|k: int| is_first_output_of(outs, id, k)].name
    } else {
        SignalName('0', 0)
    }
}

/// A gate as listed: its id, its state, and the name of the output it carries.
pub open spec fn gate_row(outs: Seq<Output>, g: GateModel) -> (Id, bool, SignalName) {
    (g.id, g.active, output_name_of(outs, g.id))
}

impl Emulator {
    /// The outputs of the unit sorted by name (a stable sort), each with the state of its
    /// gate.
    pub fn output_states(&self) -> (r: Vec<(SignalName, bool)>)
        requires
            forall|k: int|
                0 <= k < self.spec_unit().outputs.len() ==> has_gate(
                    self.spec_unit().gates,
                    #[trigger] self.spec_unit().outputs[k].id,
                ),
        ensures
            exists|p: Seq<usize>|
                #[trigger] stable_order(output_name_keys(self.spec_unit().outputs), p) && r@.len() == p.len()
                    && forall|i: int|
                    0 <= i < r@.len() ==> #[trigger] r@[i] == output_state(
                        self.spec_unit().gates,
                        self.spec_unit().outputs[p[i] as int],
                    ),
    {
        let outs = &self.unit.io.outputs;
        let mut keys: Vec<u64> = Vec::new();
        let mut k: usize = 0;
        while k < outs.len()
            invariant
                k <= outs@.len(),
                keys@ == output_name_keys(outs@).take(k as int),
            decreases outs@.len() - k,
        {
            keys.push(signal_key(outs[k].name));
            proof {
                assert(keys@ =~= output_name_keys(outs@).take(k + 1));
            }
            k += 1;
        }
        proof {
            assert(keys@ =~= output_name_keys(outs@));
        }
        let p = stable_positions(&keys);
        proof {
            assert forall|k: int| 0 <= k < self.unit@.outputs.len() implies has_gate(self.unit@.gates, #[trigger] self.unit@.outputs[k].id) by {
                assert(self.spec_unit().outputs[k].id == self.unit@.outputs[k].id);
            }
        }
        let mut r: Vec<(SignalName, bool)> = Vec::new();
        let mut i: usize = 0;
        while i < p.len()
            invariant
                i <= p@.len(),
                stable_order(keys@, p@),
                keys@ == output_name_keys(self.unit@.outputs),
                outs@ == self.unit@.outputs,
                forall|k: int|
                    0 <= k < self.unit@.outputs.len() ==> has_gate(self.unit@.gates, #[trigger] self.unit@.outputs[k].id),
                r@.len() == i,
                forall|j: int|
                    0 <= j < i ==> #[trigger] r@[j] == output_state(self.unit@.gates, self.unit@.outputs[p@[j] as int]),
            decreases p@.len() - i,
        {
            let o = outs[p[i]];
            let active = match self.unit.get(o.id) {
                Some(g) => g.active,
                None => {
                    proof {
                        assert(has_gate(self.unit@.gates, self.unit@.outputs[p@[i as int] as int].id));
                    }
                    false
                },
            };
            r.push((o.name, active));
            i += 1;
        }
        proof {
            assert(stable_order(output_name_keys(self.spec_unit().outputs), p@));
        }
        r
    }

    /// Every gate of the unit, in order: its id, its state, and the name of the first
    /// output it carries (`0`, bit 0, if none).
    pub fn gate_rows(&self) -> (r: Vec<(Id, bool, SignalName)>)
        ensures
            r@.len() == self.spec_unit().gates.len(),
            forall|i: int|
                0 <= i < r@.len() ==> #[trigger] r@[i] == gate_row(
                    self.spec_unit().outputs,
                    self.spec_unit().gates[i],
                ),
    {
        let outs = &self.unit.io.outputs;
        let gates = &self.unit.gates;
        let mut r: Vec<(Id, bool, SignalName)> = Vec::new();
        let mut i: usize = 0;
        while i < gates.len()
            invariant
                i <= gates@.len(),
                outs@ == self.unit@.outputs,
                gates_model_of(gates@) == self.unit@.gates,
                r@.len() == i,
                forall|j: int|
                    0 <= j < i ==> #[trigger] r@[j] == gate_row(self.unit@.outputs, self.unit@.gates[j]),
            decreases gates@.len() - i,
        {
            let id = gates[i].id;
            let mut name = SignalName('0', 0);
            let mut found = false;
            let mut k: usize = 0;
            while k < outs.len()
                invariant
                    k <= outs@.len(),
                    found ==> name == output_name_of(outs@, id),
                    !found ==> name == SignalName('0', 0) && forall|j: int| 0 <= j < k ==> outs@[j].id != id,
                decreases outs@.len() - k,
            {
                if !found && outs[k].id == id {
                    name = outs[k].name;
                    found = true;
                    proof {
                        assert(is_first_output_of(outs@, id, k as int));
                        let c = choose|c: int| is_first_output_of(outs@, id, c);
                        if c < k {
                            assert(outs@[c].id != id);
                        } else if c > k {
                            assert(outs@[k as int].id != id);
                        }
                    }
                }
                k += 1;
            }
            proof {
                if !found {
                    assert(!(exists|c: int| is_first_output_of(outs@, id, c)));
                }
                assert(self.unit@.gates[i as int] == gates@[i as int]@);
            }
            r.push((id, gates[i].active, name));
            i += 1;
        }
        r
    }
}

/// The models of a sequence of gates.
pub open spec fn gates_model_of(v: Seq<LogicGate>) -> Seq<GateModel> {
    v.map_values(|g: LogicGate| g@)
}

} // verus!
