use vstd::prelude::*;

use std::collections::HashMap;

use std::collections::HashSet;

use crate::assemble::{
    PartModel,
    copy_input, gate_at, input_color, input_letter_keys, input_letters, letter_flag, permuted,
    placed_model, sort_inputs_by_letter, stable_sorted, switch_at, Part, Placed, PlacedModel,
};
use crate::color::Color;
use crate::logic_gate::{GateModel, IdSource, LogicGate, LogicGateMode, Switch};
use crate::logic_unit::{gates_model, has_gate, InputModel, LogicUnit, Output};
use crate::order::{stable_order, stable_positions};
use crate::pos::{fits_i32, Pos};
use crate::utils::Id;

verus! {

broadcast use vstd::std_specs::hash::group_hash_axioms;

/// A gate with id `p` drives `c`.
pub open spec fn drives(gs: Seq<GateModel>, p: Id, c: Id) -> bool {
    exists|k: int| 0 <= k < gs.len() && gs[k].id == p && #[trigger] gs[k].children.contains(c)
}

/// `x` is the id of an output.
pub open spec fn is_output_id(outs: Seq<Output>, x: Id) -> bool {
    exists|k: int| 0 <= k < outs.len() && #[trigger] outs[k].id == x
}

/// From `x`, an output is at most `k` steps away along the wires.
pub open spec fn within(gs: Seq<GateModel>, outs: Seq<Output>, x: Id, k: nat) -> bool
    decreases k,
{
    if k == 0 {
        is_output_id(outs, x)
    } else {
        within(gs, outs, x, (k - 1) as nat) || exists|c: Id|
            #[trigger] drives(gs, x, c) && within(gs, outs, c, (k - 1) as nat)
    }
}

/// The nearest output is exactly `d` steps away from `x`.
pub open spec fn at_depth(gs: Seq<GateModel>, outs: Seq<Output>, x: Id, d: nat) -> bool {
    within(gs, outs, x, d) && (d == 0 || !within(gs, outs, x, (d - 1) as nat))
}

/// What a parents map lists for `c` (nothing when it holds no list).
pub open spec fn listed(m: Map<Id, Vec<Id>>, c: Id) -> Seq<Id> {
    if m.dom().contains(c) {
        m[c]@
    } else {
        Seq::empty()
    }
}

/// The map lists, for every `c`, exactly the ids of the gates that drive `c`.
pub open spec fn parents_listed(m: Map<Id, Vec<Id>>, gs: Seq<GateModel>) -> bool {
    forall|c: Id, p: Id| #[trigger] listed(m, c).contains(p) <==> drives(gs, p, c)
}

/// Builds the map from every driven id to the ids of the gates that drive it.
fn parent_map(gates: &Vec<LogicGate>) -> (m: HashMap<Id, Vec<Id>>)
    ensures
        parents_listed(m@, gates_model(gates@)),
{
    let ghost gs = gates_model(gates@);
    let mut m: HashMap<Id, Vec<Id>> = HashMap::new();
    let mut k: usize = 0;
    while k < gates.len()
        invariant
            k <= gs.len(),
            gs == gates_model(gates@),
            parents_listed(m@, gs.take(k as int)),
        decreases gs.len() - k,
    {
        let gate = &gates[k];
        let mut j: usize = 0;
        while j < gate.children.len()
            invariant
                k < gs.len(),
                gs == gates_model(gates@),
                gate@ == gs[k as int],
                j <= gate.children@.len(),
                forall|c: Id, p: Id|
                    #[trigger] listed(m@, c).contains(p) <==> (drives(gs.take(k as int), p, c) || (p
                        == gate.id && gate.children@.take(j as int).contains(c))),
            decreases gate.children@.len() - j,
        {
            let c = gate.children[j];
            let ghost before = m@;
            let mut v = match m.remove(&c) {
                Some(v) => v,
                None => Vec::new(),
            };
            v.push(gate.id);
            m.insert(c, v);
            proof {
                assert(listed(m@, c) == listed(before, c).push(gate.id));
                assert forall|c2: Id, p: Id| #[trigger] listed(m@, c2).contains(p) <==> (drives(
                    gs.take(k as int),
                    p,
                    c2,
                ) || (p == gate.id && gate.children@.take(j as int + 1).contains(c2))) by {
                    let t1 = gate.children@.take(j as int + 1);
                    let t0 = gate.children@.take(j as int);
                    assert(t1 =~= t0.push(c));
                    assert(t1[j as int] == c);
                    if c2 != c {
                        assert(listed(m@, c2) == listed(before, c2));
                        if t1.contains(c2) {
                            let i = choose|i: int| 0 <= i < t1.len() && t1[i] == c2;
                            assert(t0[i] == c2);
                        }
                        if t0.contains(c2) {
                            let i = choose|i: int| 0 <= i < t0.len() && t0[i] == c2;
                            assert(t1[i] == c2);
                        }
                    } else {
                        if listed(m@, c2).contains(p) && p != gate.id {
                            let i = choose|i: int| 0 <= i < listed(m@, c2).len() && listed(m@, c2)[i] == p;
                            assert(listed(before, c2)[i] == p);
                        }
                        if listed(before, c2).contains(p) {
                            let i = choose|i: int| 0 <= i < listed(before, c2).len() && listed(before, c2)[i] == p;
                            assert(listed(m@, c2)[i] == p);
                        }
                        if p == gate.id {
                            assert(listed(m@, c2)[listed(before, c2).len() as int] == p);
                        }
                    }
                }
            }
            j += 1;
        }
        proof {
            assert(gate.children@.take(gate.children@.len() as int) =~= gate.children@);
            assert forall|c: Id, p: Id| #[trigger] listed(m@, c).contains(p) <==> drives(gs.take(k as int + 1), p, c) by {
                let t1 = gs.take(k as int + 1);
                let t0 = gs.take(k as int);
                if drives(t1, p, c) {
                    let i = choose|i: int| 0 <= i < t1.len() && t1[i].id == p && #[trigger] t1[i].children.contains(c);
                    if i < k {
                        assert(t0[i] == t1[i]);
                        assert(drives(t0, p, c));
                    } else {
                        assert(t1[i] == gate@);
                    }
                }
                if drives(t0, p, c) {
                    let i = choose|i: int| 0 <= i < t0.len() && t0[i].id == p && #[trigger] t0[i].children.contains(c);
                    assert(t1[i] == t0[i]);
                    assert(drives(t1, p, c));
                }
                if p == gate.id && gate.children@.contains(c) {
                    assert(t1[k as int] == gate@);
                    assert(t1[k as int].children.contains(c));
                    assert(drives(t1, p, c));
                }
            }
        }
        k += 1;
    }
    proof {
        assert(gs.take(gs.len() as int) =~= gs);
    }
    m
}

/// `l` lists, each once, the ids whose nearest output is exactly `d` steps away.
pub open spec fn is_level(gs: Seq<GateModel>, outs: Seq<Output>, l: Seq<Id>, d: nat) -> bool {
    &&& l.no_duplicates()
    &&& forall|x: Id| #[trigger] l.contains(x) <==> at_depth(gs, outs, x, d)
}

/// `ls[d]` is level `d` for every `d`, no level is empty, and there is nothing beyond.
pub open spec fn levels_ok(gs: Seq<GateModel>, outs: Seq<Output>, ls: Seq<Seq<Id>>) -> bool {
    &&& forall|d: int| 0 <= d < ls.len() ==> is_level(gs, outs, #[trigger] ls[d], d as nat) && ls[d].len() > 0
    &&& forall|x: Id, d: nat| d >= ls.len() ==> !#[trigger] at_depth(gs, outs, x, d)
}

/// The ids of all gates and outputs.
pub open spec fn universe(gs: Seq<GateModel>, outs: Seq<Output>) -> Set<Id> {
    gs.map_values(|g: GateModel| g.id).to_set().union(outs.map_values(|o: Output| o.id).to_set())
}

proof fn lemma_universe(gs: Seq<GateModel>, outs: Seq<Output>)
    ensures
        universe(gs, outs).finite(),
        universe(gs, outs).len() <= gs.len() + outs.len(),
        forall|k: int| 0 <= k < gs.len() ==> universe(gs, outs).contains(#[trigger] gs[k].id),
        forall|k: int| 0 <= k < outs.len() ==> universe(gs, outs).contains(#[trigger] outs[k].id),
{
    let a = gs.map_values(|g: GateModel| g.id);
    let b = outs.map_values(|o: Output| o.id);
    a.lemma_cardinality_of_set();
    b.lemma_cardinality_of_set();
    vstd::set_lib::lemma_len_union(a.to_set(), b.to_set());
    assert forall|k: int| 0 <= k < gs.len() implies universe(gs, outs).contains(#[trigger] gs[k].id) by {
        assert(a[k] == gs[k].id);
        assert(a.to_set().contains(a[k]));
    }
    assert forall|k: int| 0 <= k < outs.len() implies universe(gs, outs).contains(#[trigger] outs[k].id) by {
        assert(b[k] == outs[k].id);
        assert(b.to_set().contains(b[k]));
    }
}

/// A step further than the nearest output at depth `k`, with nothing at depth `k` closer:
/// the next level comes only from the level before.
proof fn lemma_next_level_source(gs: Seq<GateModel>, outs: Seq<Output>, x: Id, k: nat)
    requires
        at_depth(gs, outs, x, k + 1),
    ensures
        exists|c: Id| #[trigger] drives(gs, x, c) && at_depth(gs, outs, c, k),
{
    let c = choose|c: Id| #[trigger] drives(gs, x, c) && within(gs, outs, c, k);
    if k > 0 && within(gs, outs, c, (k - 1) as nat) {
        assert(within(gs, outs, x, k));
    }
    assert(at_depth(gs, outs, c, k));
}

/// An empty level stays empty beyond.
proof fn lemma_empty_beyond(gs: Seq<GateModel>, outs: Seq<Output>, k: nat)
    requires
        forall|x: Id| !#[trigger] at_depth(gs, outs, x, k),
    ensures
        forall|x: Id, d: nat| d >= k ==> !#[trigger] at_depth(gs, outs, x, d),
{
    assert forall|x: Id, d: nat| d >= k implies !#[trigger] at_depth(gs, outs, x, d) by {
        lemma_empty_beyond_at(gs, outs, k, x, d);
    }
}

proof fn lemma_empty_beyond_at(gs: Seq<GateModel>, outs: Seq<Output>, k: nat, x: Id, d: nat)
    requires
        forall|y: Id| !#[trigger] at_depth(gs, outs, y, k),
        d >= k,
    ensures
        !at_depth(gs, outs, x, d),
    decreases d - k,
{
    if d > k && at_depth(gs, outs, x, d) {
        lemma_next_level_source(gs, outs, x, (d - 1) as nat);
        let c = choose|c: Id| #[trigger] drives(gs, x, c) && at_depth(gs, outs, c, (d - 1) as nat);
        lemma_empty_beyond_at(gs, outs, k, c, (d - 1) as nat);
    }
}

/// The distance map and the levels of the wiring: how many steps along the wires each id
/// is from its nearest output, found level by level from the outputs.
fn find_levels(gates: &Vec<LogicGate>, outputs: &Vec<Output>) -> (r: (Vec<Vec<Id>>, HashMap<Id, u32>))
    requires
        gates@.len() + outputs@.len() < u32::MAX,
    ensures
        levels_ok(gates_model(gates@), outputs@, r.0@.map_values(|l: Vec<Id>| l@)),
        forall|x: Id|
            #[trigger] r.1@.contains_key(x) <==> within(gates_model(gates@), outputs@, x, r.0@.len() as nat),
        forall|x: Id|
            r.1@.contains_key(x) ==> at_depth(gates_model(gates@), outputs@, x, #[trigger] r.1@[x] as nat),
        r.0@.len() <= gates@.len() + outputs@.len(),
{
    let ghost gs = gates_model(gates@);
    let ghost outs = outputs@;
    let ghost u = universe(gs, outs);
    proof {
        lemma_universe(gs, outs);
    }
    let pm = parent_map(gates);
    let mut depth: HashMap<Id, u32> = HashMap::new();
    let mut frontier: Vec<Id> = Vec::new();
    let mut t: usize = 0;
    while t < outputs.len()
        invariant
            t <= outs.len(),
            outs == outputs@,
            frontier@.no_duplicates(),
            forall|x: Id| #[trigger] depth@.contains_key(x) <==> is_output_id(outs.take(t as int), x),
            forall|x: Id| #[trigger] frontier@.contains(x) <==> depth@.contains_key(x),
            forall|x: Id| depth@.contains_key(x) ==> #[trigger] depth@[x] == 0,
            depth@.dom().finite(),
            depth@.dom().len() == frontier@.len(),
        decreases outs.len() - t,
    {
        let oid = outputs[t].id;
        proof {
            assert forall|x: Id| is_output_id(outs.take(t as int + 1), x) <==> (is_output_id(outs.take(t as int), x) || x == oid) by {
                let t1 = outs.take(t as int + 1);
                let t0 = outs.take(t as int);
                if is_output_id(t1, x) {
                    let i = choose|i: int| 0 <= i < t1.len() && #[trigger] t1[i].id == x;
                    if i < t {
                        assert(t0[i] == t1[i]);
                    }
                }
                if is_output_id(t0, x) {
                    let i = choose|i: int| 0 <= i < t0.len() && #[trigger] t0[i].id == x;
                    assert(t1[i] == t0[i]);
                }
                if x == oid {
                    assert(t1[t as int].id == x);
                }
            }
        }
        if !depth.contains_key(&oid) {
            let ghost before = frontier@;
            depth.insert(oid, 0);
            frontier.push(oid);
            proof {
                assert forall|x: Id| #[trigger] frontier@.contains(x) <==> depth@.contains_key(x) by {
                    if x == oid {
                        assert(frontier@[before.len() as int] == oid);
                    } else if before.contains(x) {
                        let i = choose|i: int| 0 <= i < before.len() && before[i] == x;
                        assert(frontier@[i] == x);
                    } else if frontier@.contains(x) {
                        let i = choose|i: int| 0 <= i < frontier@.len() && frontier@[i] == x;
                        assert(before[i] == x);
                    }
                }
                assert(frontier@.no_duplicates()) by {
                    assert forall|i: int, j: int| 0 <= i < j < frontier@.len() implies frontier@[i] != frontier@[j] by {
                        if j == before.len() {
                            assert(before.contains(frontier@[i]));
                        }
                    }
                }
            }
        }
        t += 1;
    }
    proof {
        assert(outs.take(outs.len() as int) =~= outs);
        assert forall|x: Id| #[trigger] frontier@.contains(x) <==> at_depth(gs, outs, x, 0) by {}
        assert forall|x: Id| #[trigger] depth@.contains_key(x) <==> within(gs, outs, x, 0) by {}
        assert(depth@.dom().subset_of(u)) by {
            assert forall|x: Id| depth@.dom().contains(x) implies u.contains(x) by {
                let i = choose|i: int| 0 <= i < outs.len() && #[trigger] outs[i].id == x;
            }
        }
        vstd::set_lib::lemma_len_subset(depth@.dom(), u);
    }
    let mut layers: Vec<Vec<Id>> = Vec::new();
    let mut k: u32 = 0;
    while frontier.len() > 0
        invariant
            gs == gates_model(gates@),
            outs == outputs@,
            u == universe(gs, outs),
            u.finite(),
            u.len() <= gs.len() + outs.len(),
            gs.len() + outs.len() < u32::MAX,
            parents_listed(pm@, gs),
            layers@.len() == k,
            forall|d: int|
                0 <= d < k ==> is_level(gs, outs, (#[trigger] layers@[d])@, d as nat) && layers@[d]@.len() > 0,
            frontier@.no_duplicates(),
            forall|x: Id| #[trigger] frontier@.contains(x) <==> at_depth(gs, outs, x, k as nat),
            forall|x: Id| #[trigger] depth@.contains_key(x) <==> within(gs, outs, x, k as nat),
            forall|x: Id|
                depth@.contains_key(x) ==> #[trigger] depth@[x] <= k && at_depth(gs, outs, x, depth@[x] as nat),
            depth@.dom().subset_of(u),
            depth@.dom().finite(),
            frontier@.len() > 0 ==> depth@.dom().len() >= k + 1,
            depth@.dom().len() >= k,
            depth@.dom().len() <= u.len(),
        decreases u.len() - depth@.dom().len() + if frontier@.len() > 0 {
            1int
        } else {
            0int
        },
    {
        let ghost dom0 = depth@.dom();
        let mut next: Vec<Id> = Vec::new();
        let mut ci: usize = 0;
        while ci < frontier.len()
            invariant
                gs == gates_model(gates@),
                outs == outputs@,
                u == universe(gs, outs),
                u.finite(),
                u.len() <= gs.len() + outs.len(),
                gs.len() + outs.len() < u32::MAX,
                parents_listed(pm@, gs),
                frontier@.len() > 0,
                dom0.len() >= k + 1,
                dom0.finite(),
                ci <= frontier@.len(),
                forall|x: Id| #[trigger] frontier@.contains(x) <==> at_depth(gs, outs, x, k as nat),
                forall|x: Id| dom0.contains(x) <==> within(gs, outs, x, k as nat),
                next@.no_duplicates(),
                forall|x: Id| #[trigger] depth@.contains_key(x) <==> (dom0.contains(x) || next@.contains(x)),
                forall|x: Id| #[trigger] next@.contains(x) ==> !dom0.contains(x) && at_depth(gs, outs, x, (k + 1) as nat),
                forall|x: Id|
                    depth@.contains_key(x) ==> #[trigger] depth@[x] <= k + 1 && at_depth(gs, outs, x, depth@[x] as nat),
                forall|a: int, p: Id| 0 <= a < ci && #[trigger] drives(gs, p, frontier@[a]) ==> depth@.contains_key(p),
                depth@.dom().subset_of(u),
                depth@.dom().finite(),
                depth@.dom().len() == dom0.len() + next@.len(),
            decreases frontier@.len() - ci,
        {
            let c = frontier[ci];
            let ghost d_start = depth@;
            proof {
                assert(frontier@.contains(c));
            }
            match pm.get(&c) {
                Some(ps) => {
                    proof {
                        assert(listed(pm@, c) == ps@);
                    }
                    let mut pi: usize = 0;
                    while pi < ps.len()
                        invariant
                            gs == gates_model(gates@),
                            outs == outputs@,
                            u == universe(gs, outs),
                            u.finite(),
                            u.len() <= gs.len() + outs.len(),
                            gs.len() + outs.len() < u32::MAX,
                            parents_listed(pm@, gs),
                            listed(pm@, c) == ps@,
                            at_depth(gs, outs, c, k as nat),
                            dom0.len() >= k + 1,
                            dom0.finite(),
                            pi <= ps@.len(),
                            forall|x: Id| dom0.contains(x) <==> within(gs, outs, x, k as nat),
                            next@.no_duplicates(),
                            forall|x: Id| #[trigger] depth@.contains_key(x) <==> (dom0.contains(x) || next@.contains(x)),
                            forall|x: Id| #[trigger] next@.contains(x) ==> !dom0.contains(x) && at_depth(gs, outs, x, (k + 1) as nat),
                            forall|x: Id|
                                depth@.contains_key(x) ==> #[trigger] depth@[x] <= k + 1 && at_depth(gs, outs, x, depth@[x] as nat),
                            forall|b: int| 0 <= b < pi ==> depth@.contains_key(#[trigger] ps@[b]),
                            forall|x: Id| d_start.contains_key(x) ==> #[trigger] depth@.contains_key(x),
                            depth@.dom().subset_of(u),
                            depth@.dom().finite(),
                            depth@.dom().len() == dom0.len() + next@.len(),
                        decreases ps@.len() - pi,
                    {
                        let p = ps[pi];
                        proof {
                            assert(listed(pm@, c).contains(p));
                            assert(drives(gs, p, c));
                        }
                        if !depth.contains_key(&p) {
                            proof {
                                assert(!within(gs, outs, p, k as nat));
                                assert(within(gs, outs, p, (k + 1) as nat));
                                let g = choose|g: int| 0 <= g < gs.len() && gs[g].id == p && #[trigger] gs[g].children.contains(c);
                                lemma_universe(gs, outs);
                                assert(u.contains(gs[g].id));
                                assert(depth@.dom().insert(p).len() == depth@.dom().len() + 1);
                                vstd::set_lib::lemma_len_subset(depth@.dom().insert(p), u);
                                assert(k + 1 <= u32::MAX);
                            }
                            let ghost before = next@;
                            depth.insert(p, k + 1);
                            next.push(p);
                            proof {
                                assert(depth@.dom() =~= before_dom_insert(dom0, before, p));
                                assert forall|x: Id| #[trigger] next@.contains(x) <==> (before.contains(x) || x == p) by {
                                    if x == p {
                                        assert(next@[before.len() as int] == p);
                                    } else if before.contains(x) {
                                        let i = choose|i: int| 0 <= i < before.len() && before[i] == x;
                                        assert(next@[i] == x);
                                    } else if next@.contains(x) {
                                        let i = choose|i: int| 0 <= i < next@.len() && next@[i] == x;
                                        assert(before[i] == x);
                                    }
                                }
                                assert(next@.no_duplicates()) by {
                                    assert forall|i: int, j: int| 0 <= i < j < next@.len() implies next@[i] != next@[j] by {
                                        if j == before.len() {
                                            assert(before.contains(next@[i]));
                                        }
                                    }
                                }
                            }
                        }
                        pi += 1;
                    }
                    proof {
                        assert forall|p: Id| drives(gs, p, c) implies depth@.contains_key(p) by {
                            assert(listed(pm@, c).contains(p));
                            let b = choose|b: int| 0 <= b < ps@.len() && ps@[b] == p;
                        }
                    }
                },
                None => {
                    proof {
                        assert forall|p: Id| drives(gs, p, c) implies depth@.contains_key(p) by {
                            assert(listed(pm@, c).contains(p));
                        }
                    }
                },
            }
            proof {
                assert forall|a: int, p: Id| 0 <= a < ci + 1 && #[trigger] drives(gs, p, frontier@[a]) implies depth@.contains_key(p) by {
                    if a < ci {
                        assert(d_start.contains_key(p));
                    }
                }
            }
            ci += 1;
        }
        proof {
            assert forall|x: Id| #[trigger] next@.contains(x) <==> at_depth(gs, outs, x, (k + 1) as nat) by {
                if at_depth(gs, outs, x, (k + 1) as nat) {
                    lemma_next_level_source(gs, outs, x, k as nat);
                    let c = choose|c: Id| #[trigger] drives(gs, x, c) && at_depth(gs, outs, c, k as nat);
                    assert(frontier@.contains(c));
                    let a = choose|a: int| 0 <= a < frontier@.len() && frontier@[a] == c;
                    assert(depth@.contains_key(x));
                }
            }
            assert forall|x: Id| #[trigger] depth@.contains_key(x) <==> within(gs, outs, x, (k + 1) as nat) by {
                if within(gs, outs, x, (k + 1) as nat) && !within(gs, outs, x, k as nat) {
                    assert(at_depth(gs, outs, x, (k + 1) as nat));
                }
            }
            assert(depth@.dom().len() <= u.len()) by {
                vstd::set_lib::lemma_len_subset(depth@.dom(), u);
            }
        }
        layers.push(frontier);
        frontier = next;
        k = k + 1;
    }
    proof {
        assert forall|x: Id| !#[trigger] at_depth(gs, outs, x, k as nat) by {
            if at_depth(gs, outs, x, k as nat) {
                assert(frontier@.contains(x));
            }
        }
        lemma_empty_beyond(gs, outs, k as nat);
        vstd::set_lib::lemma_len_subset(depth@.dom(), u);
        let ls = layers@.map_values(|l: Vec<Id>| l@);
        assert forall|d: int| 0 <= d < ls.len() implies is_level(gs, outs, #[trigger] ls[d], d as nat) && ls[d].len() > 0 by {
            assert(ls[d] == layers@[d]@);
        }
    }
    (layers, depth)
}

/// The domain after inserting `p`.
spec fn before_dom_insert(dom0: Set<Id>, next: Seq<Id>, p: Id) -> Set<Id> {
    Set::new(|x: Id| dom0.contains(x) || next.contains(x) || x == p)
}

/// `k` is the last position of a gate with id `id`.
pub open spec fn is_last_gate(gs: Seq<GateModel>, id: Id, k: int) -> bool {
    &&& 0 <= k < gs.len()
    &&& gs[k].id == id
    &&& forall|j: int| k < j < gs.len() ==> gs[j].id != id
}

/// The last position of a gate with id `id`.
pub open spec fn last_gate(gs: Seq<GateModel>, id: Id) -> int {
    choose|k: int| is_last_gate(gs, id, k)
}

proof fn lemma_last_gate(gs: Seq<GateModel>, id: Id, k: int)
    requires
        is_last_gate(gs, id, k),
    ensures
        last_gate(gs, id) == k,
{
    let f = last_gate(gs, id);
    assert(is_last_gate(gs, id, f));
    if f < k {
        assert(gs[k].id != id);
    } else if f > k {
        assert(gs[f].id != id);
    }
}

/// The map from every gate id to the position of the last gate with that id.
fn last_positions(gates: &Vec<LogicGate>) -> (m: HashMap<Id, usize>)
    ensures
        forall|id: Id| #[trigger] m@.contains_key(id) <==> has_gate(gates_model(gates@), id),
        forall|id: Id| m@.contains_key(id) ==> is_last_gate(gates_model(gates@), id, #[trigger] m@[id] as int),
{
    let ghost gs = gates_model(gates@);
    let mut m: HashMap<Id, usize> = HashMap::new();
    let mut k: usize = 0;
    while k < gates.len()
        invariant
            k <= gs.len(),
            gs == gates_model(gates@),
            forall|id: Id| #[trigger] m@.contains_key(id) <==> has_gate(gs.take(k as int), id),
            forall|id: Id| m@.contains_key(id) ==> is_last_gate(gs.take(k as int), id, #[trigger] m@[id] as int),
        decreases gs.len() - k,
    {
        m.insert(gates[k].id, k);
        proof {
            let t1 = gs.take(k as int + 1);
            let t0 = gs.take(k as int);
            assert forall|id: Id| #[trigger] m@.contains_key(id) <==> has_gate(t1, id) by {
                if has_gate(t1, id) {
                    let i = choose|i: int| 0 <= i < t1.len() && t1[i].id == id;
                    if i < k {
                        assert(t0[i] == t1[i]);
                    }
                }
                if has_gate(t0, id) {
                    let i = choose|i: int| 0 <= i < t0.len() && t0[i].id == id;
                    assert(t1[i] == t0[i]);
                }
                if id == gs[k as int].id {
                    assert(t1[k as int].id == id);
                }
            }
            assert forall|id: Id| m@.contains_key(id) implies is_last_gate(t1, id, #[trigger] m@[id] as int) by {
                if id != gs[k as int].id {
                    assert forall|j: int| m@[id] < j < t1.len() implies t1[j].id != id by {
                        if j < k {
                            assert(t1[j] == t0[j]);
                        }
                    }
                }
            }
        }
        k += 1;
    }
    proof {
        assert(gs.take(gs.len() as int) =~= gs);
    }
    m
}

/// The sort keys of ids: the ids themselves.
pub open spec fn id_keys(s: Seq<Id>) -> Seq<u64> {
    s.map_values(|x: Id| x as u64)
}

/// Strictly increasing.
pub open spec fn strictly_sorted(s: Seq<Id>) -> bool {
    forall|i: int, j: int| 0 <= i < j < s.len() ==> s[i] < s[j]
}

/// The ids sorted in increasing order.
fn sorted_ids(v: &Vec<Id>) -> (r: Vec<Id>)
    ensures
        stable_sorted(v@, id_keys(v@), r@),
        r@.len() == v@.len(),
        forall|i: int, j: int| 0 <= i < j < r@.len() ==> r@[i] <= r@[j],
        forall|x: Id| #[trigger] r@.contains(x) <==> v@.contains(x),
        v@.no_duplicates() ==> strictly_sorted(r@),
{
    let mut keys: Vec<u64> = Vec::new();
    let mut i: usize = 0;
    while i < v.len()
        invariant
            i <= v@.len(),
            keys@ =~= id_keys(v@).take(i as int),
        decreases v@.len() - i,
    {
        keys.push(v[i] as u64);
        i += 1;
    }
    proof {
        assert(keys@ =~= id_keys(v@));
    }
    let p = stable_positions(&keys);
    let mut r: Vec<Id> = Vec::new();
    let mut i: usize = 0;
    while i < p.len()
        invariant
            i <= p@.len(),
            stable_order(id_keys(v@), p@),
            r@ =~= permuted(v@, p@.take(i as int)),
        decreases p@.len() - i,
    {
        assert(p@[i as int] < v@.len());
        r.push(v[p[i]]);
        i += 1;
    }
    proof {
        assert(p@.take(p@.len() as int) =~= p@);
        assert(r@ == permuted(v@, p@));
        assert forall|i: int, j: int| 0 <= i < j < r@.len() implies r@[i] <= r@[j] by {
            assert(crate::order::pos_before(id_keys(v@), p@[i], p@[j]));
        }
        assert forall|x: Id| #[trigger] r@.contains(x) <==> v@.contains(x) by {
            if v@.contains(x) {
                let t = choose|t: int| 0 <= t < v@.len() && v@[t] == x;
                assert(p@.contains(t as usize));
                let i = choose|i: int| 0 <= i < p@.len() && p@[i] == t as usize;
                assert(r@[i] == x);
            }
            if r@.contains(x) {
                let i = choose|i: int| 0 <= i < r@.len() && r@[i] == x;
                assert(v@[p@[i] as int] == x);
            }
        }
        if v@.no_duplicates() {
            assert forall|i: int, j: int| 0 <= i < j < r@.len() implies r@[i] < r@[j] by {
                assert(crate::order::pos_before(id_keys(v@), p@[i], p@[j]));
                assert(p@[i] != p@[j]);
            }
        }
    }
    r
}

/// The levels are listed in increasing id order.
pub open spec fn sorted_levels(gs: Seq<GateModel>, outs: Seq<Output>, ls: Seq<Seq<Id>>) -> bool {
    &&& forall|d: int|
        0 <= d < ls.len() ==> strictly_sorted(#[trigger] ls[d]) && ls[d].len() > 0 && (forall|x: Id|
            #[trigger] ls[d].contains(x) <==> at_depth(gs, outs, x, d as nat))
    &&& forall|x: Id, d: nat| d >= ls.len() ==> !#[trigger] at_depth(gs, outs, x, d)
}

/// Where the `idx`-th id of level `d` goes: `d` columns left of `x + 1`, two rows apart.
pub open spec fn level_pos(pos: Pos, d: int, idx: int) -> Pos {
    Pos { x: (((pos.x + 1) as i32) - (d as i32)) as i32, y: (pos.y + (idx as i32) * 2) as i32, z: pos.z }
}

/// The color of a gate in the tree: outputs in the first output color.
pub open spec fn tree_color(outs: Seq<Output>, x: Id) -> Color {
    if is_output_id(outs, x) {
        Color::spec_rgb(255, 0, 0)
    } else {
        Color::spec_rgb(30, 30, 30)
    }
}

/// The gates of level `d`, in the order of `l`.
pub open spec fn level_items(gs: Seq<GateModel>, outs: Seq<Output>, l: Seq<Id>, d: int, pos: Pos) -> Seq<PlacedModel> {
    Seq::new(
        l.len(),
        |idx: int| gate_at(gs[last_gate(gs, l[idx])], level_pos(pos, d, idx), tree_color(outs, l[idx])),
    )
}

/// The gates of the first `n` levels, level after level.
pub open spec fn levels_items(gs: Seq<GateModel>, outs: Seq<Output>, ls: Seq<Seq<Id>>, pos: Pos, n: int) -> Seq<PlacedModel>
    decreases n,
{
    if n <= 0 {
        Seq::empty()
    } else {
        levels_items(gs, outs, ls, pos, n - 1) + level_items(gs, outs, ls[n - 1], n - 1, pos)
    }
}

/// The ids of the gates (in order, with repeats) from which no output is at most `n`
/// steps away, among the first `count` gates.
pub open spec fn unreachable_ids(gs: Seq<GateModel>, outs: Seq<Output>, n: nat, count: int) -> Seq<Id>
    decreases count,
{
    if count <= 0 {
        Seq::empty()
    } else {
        unreachable_ids(gs, outs, n, count - 1) + if within(gs, outs, gs[count - 1].id, n) {
            Seq::empty()
        } else {
            seq![gs[count - 1].id]
        }
    }
}

/// Where the `idx`-th unreachable gate goes: right of the tree, two rows apart.
pub open spec fn aside_pos(pos: Pos, idx: int) -> Pos {
    Pos { x: (((pos.x + 1) as i32) + 2) as i32, y: (pos.y + (idx as i32) * 2) as i32, z: pos.z }
}

/// The unreachable gates, in the order of `l`.
pub open spec fn aside_items(gs: Seq<GateModel>, l: Seq<Id>, pos: Pos) -> Seq<PlacedModel> {
    Seq::new(l.len(), |idx: int| gate_at(gs[last_gate(gs, l[idx])], aside_pos(pos, idx), Color::spec_rgb(30, 30, 30)))
}

/// The x coordinate of the input column: one column left of the deepest level.
pub open spec fn input_column(pos: Pos, levels: int) -> i32 {
    (((pos.x + 1) as i32) - ((if levels > 0 { levels } else { 1 }) as i32)) as i32
}

/// The first `count` inputs of the tree: for input `i` a new `and` gate driving the input's
/// gates at `(input_x, y + 2 i)`, and with `switches` a new switch driving it, one above.
pub open spec fn tree_inputs(
    ins: Seq<InputModel>,
    pos: Pos,
    input_x: i32,
    switches: bool,
    last: nat,
    count: int,
) -> Seq<PlacedModel>
    decreases count,
{
    if count <= 0 {
        Seq::empty()
    } else {
        let i = count - 1;
        let per: int = if switches { 2 } else { 1 };
        let gid = (last + 1 + i * per) as Id;
        let color = input_color(ins, i);
        let y = (pos.y + (i as i32) * 2) as i32;
        let sw = if switches {
            seq![switch_at((gid + 1) as Id, seq![gid], Pos { x: input_x, y, z: (pos.z + 1) as i32 }, color)]
        } else {
            Seq::empty()
        };
        tree_inputs(ins, pos, input_x, switches, last, count - 1) + sw + seq![
            gate_at(
                GateModel { id: gid, active: false, mode: LogicGateMode::And, children: ins[i].ids },
                Pos { x: input_x, y, z: pos.z },
                color,
            ),
        ]
    }
}

/// No coordinate or id of the tree layout overflows.
pub open spec fn tree_fits(
    gs: Seq<GateModel>,
    outs: Seq<Output>,
    ls: Seq<Seq<Id>>,
    n_inputs: int,
    pos: Pos,
    switches: bool,
    last: nat,
) -> bool {
    let unr = unreachable_ids(gs, outs, ls.len(), gs.len() as int);
    &&& fits_i32(pos.x + 1)
    &&& fits_i32((pos.x + 1) - ((if ls.len() > 0 { ls.len() as int } else { 1 }) as i32))
    &&& forall|d: int| 0 <= d < ls.len() ==> fits_i32((pos.x + 1) - (#[trigger] (d as i32)))
    &&& forall|d: int, idx: int|
        #![trigger ls[d][idx]]
        0 <= d < ls.len() && 0 <= idx < ls[d].len() ==> y_fits(pos, idx)
    &&& forall|idx: int| 0 <= idx < unr.len() ==> #[trigger] y_fits(pos, idx)
    &&& unr.len() > 0 ==> fits_i32(pos.x + 3)
    &&& forall|i: int| 0 <= i < n_inputs ==> #[trigger] y_fits(pos, i) && (switches ==> fits_i32(pos.z + 1))
    &&& last + n_inputs * (if switches { 2int } else { 1int }) <= u32::MAX
}

/// `y + 2 idx` stays in range.
pub open spec fn y_fits(pos: Pos, idx: int) -> bool {
    fits_i32((idx as i32) * 2) && fits_i32(pos.y + (idx as i32) * 2)
}

/// What is at most `d` steps from an output is an output or drives something.
proof fn lemma_within_is_gate(gs: Seq<GateModel>, outs: Seq<Output>, x: Id, d: nat)
    requires
        within(gs, outs, x, d),
    ensures
        is_output_id(outs, x) || has_gate(gs, x),
    decreases d,
{
    if d > 0 {
        if within(gs, outs, x, (d - 1) as nat) {
            lemma_within_is_gate(gs, outs, x, (d - 1) as nat);
        } else {
            let c = choose|c: Id| #[trigger] drives(gs, x, c) && within(gs, outs, c, (d - 1) as nat);
            let k = choose|k: int| 0 <= k < gs.len() && gs[k].id == x && #[trigger] gs[k].children.contains(c);
        }
    }
}

/// Sorts every level.
fn sort_levels(layers: &Vec<Vec<Id>>) -> (r: Vec<Vec<Id>>)
    ensures
        r@.len() == layers@.len(),
        forall|d: int|
            0 <= d < r@.len() ==> (#[trigger] r@[d])@.len() == layers@[d]@.len() && (forall|x: Id|
                #[trigger] r@[d]@.contains(x) <==> layers@[d]@.contains(x)) && (layers@[d]@.no_duplicates()
                ==> strictly_sorted(r@[d]@)),
{
    let mut r: Vec<Vec<Id>> = Vec::new();
    let mut d: usize = 0;
    while d < layers.len()
        invariant
            d <= layers@.len(),
            r@.len() == d,
            forall|e: int|
                0 <= e < d ==> (#[trigger] r@[e])@.len() == layers@[e]@.len() && (forall|x: Id|
                    #[trigger] r@[e]@.contains(x) <==> layers@[e]@.contains(x)) && (layers@[e]@.no_duplicates()
                    ==> strictly_sorted(r@[e]@)),
        decreases layers@.len() - d,
    {
        let s = sorted_ids(&layers[d]);
        r.push(s);
        d += 1;
    }
    r
}

/// The model of a list of id lists.
pub open spec fn lists_model(v: Seq<Vec<Id>>) -> Seq<Seq<Id>> {
    v.map_values(|l: Vec<Id>| l@)
}

/// Appends the gates of every level, level after level, each in the order of its list.
fn place_levels(
    items: &mut Vec<Placed>,
    gates: &Vec<LogicGate>,
    positions: &HashMap<Id, usize>,
    output_set: &HashSet<Id>,
    outs: Ghost<Seq<Output>>,
    levels: &Vec<Vec<Id>>,
    pos: Pos,
)
    requires
        forall|id: Id| #[trigger] positions@.contains_key(id) <==> has_gate(gates_model(gates@), id),
        forall|id: Id|
            positions@.contains_key(id) ==> is_last_gate(gates_model(gates@), id, #[trigger] positions@[id] as int),
        forall|x: Id| #[trigger] output_set@.contains(x) <==> is_output_id(outs@, x),
        forall|d: int, idx: int|
            #![trigger lists_model(levels@)[d][idx]]
            0 <= d < levels@.len() && 0 <= idx < levels@[d]@.len() ==> has_gate(
                gates_model(gates@),
                lists_model(levels@)[d][idx],
            ) && y_fits(pos, idx),
        fits_i32(pos.x + 1),
        forall|d: int| 0 <= d < levels@.len() ==> fits_i32((pos.x + 1) - (#[trigger] (d as i32))),
        levels@.len() < u32::MAX,
    ensures
        placed_model(final(items)@) == placed_model(old(items)@) + levels_items(
            gates_model(gates@),
            outs@,
            lists_model(levels@),
            pos,
            levels@.len() as int,
        ),
{
    let ghost gs = gates_model(gates@);
    let ghost ls = lists_model(levels@);
    let ghost start = placed_model(items@);
    let mut d: u32 = 0;
    while (d as usize) < levels.len()
        invariant
            d as int <= levels@.len(),
            levels@.len() < u32::MAX,
            gs == gates_model(gates@),
            ls == lists_model(levels@),
            forall|id: Id| #[trigger] positions@.contains_key(id) <==> has_gate(gs, id),
            forall|id: Id| positions@.contains_key(id) ==> is_last_gate(gs, id, #[trigger] positions@[id] as int),
            forall|x: Id| #[trigger] output_set@.contains(x) <==> is_output_id(outs@, x),
            forall|e: int, idx: int|
                #![trigger ls[e][idx]]
                0 <= e < levels@.len() && 0 <= idx < levels@[e]@.len() ==> has_gate(gs, ls[e][idx]) && y_fits(pos, idx),
            fits_i32(pos.x + 1),
            forall|e: int| 0 <= e < levels@.len() ==> fits_i32((pos.x + 1) - (#[trigger] (e as i32))),
            placed_model(items@) == start + levels_items(gs, outs@, ls, pos, d as int),
        decreases levels@.len() - d,
    {
        let level = &levels[d as usize];
        let ghost l = ls[d as int];
        proof {
            assert(l == level@);
        }
        let ghost mid = placed_model(items@);
        let mut idx: usize = 0;
        while idx < level.len()
            invariant
                d < levels@.len(),
                gs == gates_model(gates@),
                ls == lists_model(levels@),
                l == ls[d as int],
                l == level@,
                forall|id: Id| #[trigger] positions@.contains_key(id) <==> has_gate(gs, id),
                forall|id: Id| positions@.contains_key(id) ==> is_last_gate(gs, id, #[trigger] positions@[id] as int),
                forall|x: Id| #[trigger] output_set@.contains(x) <==> is_output_id(outs@, x),
                forall|e: int, i2: int|
                    #![trigger ls[e][i2]]
                    0 <= e < levels@.len() && 0 <= i2 < levels@[e]@.len() ==> has_gate(gs, ls[e][i2]) && y_fits(pos, i2),
                fits_i32(pos.x + 1),
                fits_i32((pos.x + 1) - (d as i32)),
                idx <= l.len(),
                placed_model(items@) =~~= mid + level_items(gs, outs@, l, d as int, pos).take(idx as int),
            decreases l.len() - idx,
        {
            let id = level[idx];
            proof {
                assert(ls[d as int][idx as int] == id);
                assert(has_gate(gs, id));
                assert(y_fits(pos, idx as int));
            }
            let k = match positions.get(&id) {
                Some(k) => *k,
                None => {
                    proof {
                        assert(false);
                    }
                    0
                },
            };
            proof {
                lemma_last_gate(gs, id, k as int);
            }
            let color = if output_set.contains(&id) {
                Color::output1()
            } else {
                Color::single()
            };
            let node_pos = Pos::new(pos.x + 1 - d as i32, pos.y + (idx as i32) * 2, pos.z);
            let g = gates[k].duplicate();
            let ghost before = items@;
            items.push(Placed { part: Part::Gate(g), pos: node_pos, color });
            proof {
                let li = level_items(gs, outs@, l, d as int, pos);
                assert(node_pos == level_pos(pos, d as int, idx as int));
                assert(placed_model(items@) =~~= placed_model(before).push(li[idx as int]));
                assert(li.take(idx as int + 1) =~~= li.take(idx as int).push(li[idx as int]));
            }
            idx += 1;
        }
        proof {
            let li = level_items(gs, outs@, l, d as int, pos);
            assert(li.take(l.len() as int) =~~= li);
            assert(levels_items(gs, outs@, ls, pos, d as int + 1) == levels_items(gs, outs@, ls, pos, d as int) + li);
            assert(placed_model(items@) =~~= start + levels_items(gs, outs@, ls, pos, d as int + 1));
        }
        d += 1;
    }
}

/// Appends the gates listed in `l`, right of the tree, two rows apart.
fn place_aside(items: &mut Vec<Placed>, gates: &Vec<LogicGate>, positions: &HashMap<Id, usize>, l: &Vec<Id>, pos: Pos)
    requires
        forall|id: Id| #[trigger] positions@.contains_key(id) <==> has_gate(gates_model(gates@), id),
        forall|id: Id|
            positions@.contains_key(id) ==> is_last_gate(gates_model(gates@), id, #[trigger] positions@[id] as int),
        forall|idx: int| 0 <= idx < l@.len() ==> has_gate(gates_model(gates@), #[trigger] l@[idx]) && y_fits(pos, idx),
        l@.len() > 0 ==> fits_i32(pos.x + 3),
    ensures
        placed_model(final(items)@) == placed_model(old(items)@) + aside_items(gates_model(gates@), l@, pos),
{
    let ghost gs = gates_model(gates@);
    let ghost start = placed_model(items@);
    let ghost ai = aside_items(gs, l@, pos);
    let mut idx: usize = 0;
    while idx < l.len()
        invariant
            gs == gates_model(gates@),
            ai == aside_items(gs, l@, pos),
            forall|id: Id| #[trigger] positions@.contains_key(id) <==> has_gate(gs, id),
            forall|id: Id| positions@.contains_key(id) ==> is_last_gate(gs, id, #[trigger] positions@[id] as int),
            forall|i2: int| 0 <= i2 < l@.len() ==> has_gate(gs, #[trigger] l@[i2]) && y_fits(pos, i2),
            l@.len() > 0 ==> fits_i32(pos.x + 3),
            idx <= l@.len(),
            placed_model(items@) =~~= start + ai.take(idx as int),
        decreases l@.len() - idx,
    {
        let id = l[idx];
        proof {
            assert(has_gate(gs, l@[idx as int]));
            assert(y_fits(pos, idx as int));
        }
        let k = match positions.get(&id) {
            Some(k) => *k,
            None => {
                proof {
                    assert(false);
                }
                0
            },
        };
        proof {
            lemma_last_gate(gs, id, k as int);
        }
        let node_pos = Pos::new(pos.x + 1 + 2, pos.y + (idx as i32) * 2, pos.z);
        let g = gates[k].duplicate();
        let ghost before = items@;
        items.push(Placed { part: Part::Gate(g), pos: node_pos, color: Color::single() });
        proof {
            assert(node_pos == aside_pos(pos, idx as int));
            assert(placed_model(items@) =~~= placed_model(before).push(ai[idx as int]));
            assert(ai.take(idx as int + 1) =~~= ai.take(idx as int).push(ai[idx as int]));
        }
        idx += 1;
    }
    proof {
        assert(ai.take(l@.len() as int) =~~= ai);
    }
}

/// Appends the inputs of the tree in their order: for input `i` a new `and` gate driving
/// the input's gates at `(input_x, y + 2 i)`, and with `switches` a new switch driving it,
/// one above.
fn place_tree_inputs(
    items: &mut Vec<Placed>,
    ids: &mut IdSource,
    ins: &Vec<crate::logic_unit::Input>,
    pos: Pos,
    input_x: i32,
    switches: bool,
)
    requires
        forall|i: int|
            0 <= i < ins@.len() ==> #[trigger] y_fits(pos, i) && (switches ==> fits_i32(pos.z + 1)),
        old(ids)@ + ins@.len() * (if switches { 2int } else { 1int }) <= u32::MAX,
    ensures
        placed_model(final(items)@) == placed_model(old(items)@) + tree_inputs(
            crate::logic_unit::inputs_model(ins@),
            pos,
            input_x,
            switches,
            old(ids)@,
            ins@.len() as int,
        ),
        final(ids)@ == old(ids)@ + ins@.len() * (if switches { 2int } else { 1int }),
{
    let ghost im = crate::logic_unit::inputs_model(ins@);
    let ghost start = placed_model(items@);
    let ghost last = ids@;
    let ghost per: int = if switches { 2 } else { 1 };
    let mut chcolor = false;
    let mut i: usize = 0;
    while i < ins.len()
        invariant
            i <= ins@.len(),
            im == crate::logic_unit::inputs_model(ins@),
            per == (if switches { 2int } else { 1int }),
            forall|j: int| 0 <= j < ins@.len() ==> #[trigger] y_fits(pos, j) && (switches ==> fits_i32(pos.z + 1)),
            last + ins@.len() * per <= u32::MAX,
            ids@ == last + i * per,
            chcolor == letter_flag(input_letters(im), i - 1),
            placed_model(items@) =~~= start + tree_inputs(im, pos, input_x, switches, last, i as int),
        decreases ins@.len() - i,
    {
        let input = &ins[i];
        if i != 0 && input.name.0 != ins[i - 1].name.0 {
            chcolor = !chcolor;
        }
        proof {
            assert(im[i as int] == input@);
            assert(input_letters(im)[i as int] == input.name.0);
            if i > 0 {
                assert(input_letters(im)[i - 1] == ins@[i - 1].name.0);
                assert(letter_flag(input_letters(im), i as int) == (letter_flag(input_letters(im), i - 1) != (input_letters(im)[i as int] != input_letters(im)[i - 1])));
            }
            assert(chcolor == letter_flag(input_letters(im), i as int));
            assert(y_fits(pos, i as int));
            assert(((i as int) as i32) == i as i32);
            assert(ids@ + per <= u32::MAX) by (nonlinear_arith)
                requires
                    ids@ == last + i * per,
                    last + ins@.len() * per <= u32::MAX,
                    i < ins@.len(),
                    per >= 1,
            ;
            assert(last + (i + 1) * per == last + i * per + per) by (nonlinear_arith);
        }
        let color = if chcolor {
            Color::input1()
        } else {
            Color::input2()
        };
        let mut in_gate = LogicGate::new(ids, LogicGateMode::And, false);
        let mut t: usize = 0;
        while t < input.ids.len()
            invariant
                t <= input.ids@.len(),
                in_gate.id == last + i * per + 1,
                in_gate.active == false,
                in_gate.mode == LogicGateMode::And,
                in_gate.children@ =~= input.ids@.take(t as int),
            decreases input.ids@.len() - t,
        {
            in_gate.add_child(input.ids[t]);
            t += 1;
        }
        proof {
            assert(input.ids@.take(input.ids@.len() as int) =~= input.ids@);
        }
        let in_y = pos.y + (i as i32) * 2;
        let in_pos = Pos::new(input_x, in_y, pos.z);
        let ghost before = placed_model(items@);
        if switches {
            let mut sw = Switch::new(ids, false);
            sw.add_child(in_gate.id);
            let sw_pos = Pos::new(input_x, in_y, pos.z + 1);
            items.push(Placed { part: Part::Switch(sw), pos: sw_pos, color });
        }
        let gid = in_gate.id;
        items.push(Placed { part: Part::Gate(in_gate), pos: in_pos, color });
        proof {
            let sw = if switches {
                seq![switch_at((gid + 1) as Id, seq![gid], Pos { x: input_x, y: in_y, z: (pos.z + 1) as i32 }, color)]
            } else {
                Seq::<PlacedModel>::empty()
            };
            let gm = GateModel { id: gid, active: false, mode: LogicGateMode::And, children: im[i as int].ids };
            assert(color == input_color(im, i as int));
            assert(placed_model(items@) =~~= before + sw + seq![gate_at(gm, in_pos, color)]);
            assert(tree_inputs(im, pos, input_x, switches, last, i as int + 1) =~~= tree_inputs(
                im,
                pos,
                input_x,
                switches,
                last,
                i as int,
            ) + sw + seq![gate_at(gm, in_pos, color)]);
        }
        i += 1;
    }
}

impl LogicUnit {
    /// Lays the unit out as a tree growing left from the outputs: the gates whose nearest
    /// output is `d` steps away along the wires form column `x + 1 - d`, in increasing id
    /// order two rows apart (outputs in the output color); gates from which no output can
    /// be reached go in a column right of the tree; and, sorted by letter, one new input
    /// gate per input (driving the input's gates, not joined to the unit) goes in the
    /// column left of the deepest level, with a switch above each when `switches`.
    pub fn assemble_tree(&mut self, ids: &mut IdSource, pos: Pos, switches: bool) -> (items: Vec<Placed>)
        requires
            crate::logic_unit::ids_at_most(old(self)@.gates, old(ids)@),
            old(self)@.gates.len() + old(self)@.outputs.len() < u32::MAX,
            forall|k: int|
                0 <= k < old(self)@.outputs.len() ==> has_gate(old(self)@.gates, #[trigger] old(self)@.outputs[k].id),
            forall|ls: Seq<Seq<Id>>|
                sorted_levels(old(self)@.gates, old(self)@.outputs, ls) ==> tree_fits(
                    old(self)@.gates,
                    old(self)@.outputs,
                    ls,
                    old(self)@.inputs.len() as int,
                    pos,
                    switches,
                    old(ids)@,
                ),
        ensures
            final(self)@.gates == old(self)@.gates,
            final(self)@.outputs == old(self)@.outputs,
            stable_sorted(old(self)@.inputs, input_letter_keys(old(self)@.inputs), final(self)@.inputs),
            final(ids)@ == old(ids)@ + old(self)@.inputs.len() * (if switches { 2int } else { 1int }),
            crate::logic_unit::ids_at_most(final(self)@.gates, final(ids)@),
            switches ==> forall|i: int|
                0 <= i < final(self)@.inputs.len() ==> exists|k: int|
                    0 <= k && k + 1 < items@.len() && (#[trigger] placed_model(items@)[k]).part == (PartModel::Switch {
                        id: (old(ids)@ + 2 + 2 * i) as Id,
                        active: false,
                        children: seq![(old(ids)@ + 1 + 2 * i) as Id],
                    }) && placed_model(items@)[k + 1].part == PartModel::Gate(
                        GateModel {
                            id: (old(ids)@ + 1 + 2 * i) as Id,
                            active: false,
                            mode: LogicGateMode::And,
                            children: (#[trigger] final(self)@.inputs[i]).ids,
                        },
                    ),
            exists|ls: Seq<Seq<Id>>, aside: Seq<Id>|
                {
                    &&& sorted_levels(old(self)@.gates, old(self)@.outputs, ls)
                    &&& stable_sorted(
                        unreachable_ids(old(self)@.gates, old(self)@.outputs, ls.len(), old(self)@.gates.len() as int),
                        id_keys(unreachable_ids(old(self)@.gates, old(self)@.outputs, ls.len(), old(self)@.gates.len() as int)),
                        aside,
                    )
                    &&& placed_model(items@) == levels_items(old(self)@.gates, old(self)@.outputs, ls, pos, ls.len() as int)
                        + aside_items(old(self)@.gates, aside, pos) + tree_inputs(
                        final(self)@.inputs,
                        pos,
                        input_column(pos, ls.len() as int),
                        switches,
                        old(ids)@,
                        final(self)@.inputs.len() as int,
                    )
                },
    {
        let ghost gs = self@.gates;
        let ghost outs = self@.outputs;
        let positions = last_positions(&self.gates);
        let mut output_set: HashSet<Id> = HashSet::new();
        let mut t: usize = 0;
        while t < self.io.outputs.len()
            invariant
                t <= outs.len(),
                outs == self@.outputs,
                forall|x: Id| #[trigger] output_set@.contains(x) <==> is_output_id(outs.take(t as int), x),
            decreases outs.len() - t,
        {
            output_set.insert(self.io.outputs[t].id);
            proof {
                assert forall|x: Id| #[trigger] output_set@.contains(x) <==> is_output_id(outs.take(t as int + 1), x) by {
                    let t1 = outs.take(t as int + 1);
                    let t0 = outs.take(t as int);
                    if is_output_id(t1, x) {
                        let i = choose|i: int| 0 <= i < t1.len() && #[trigger] t1[i].id == x;
                        if i < t {
                            assert(t0[i] == t1[i]);
                        }
                    }
                    if is_output_id(t0, x) {
                        let i = choose|i: int| 0 <= i < t0.len() && #[trigger] t0[i].id == x;
                        assert(t1[i] == t0[i]);
                    }
                    if x == outs[t as int].id {
                        assert(t1[t as int].id == x);
                    }
                }
            }
            t += 1;
        }
        proof {
            assert(outs.take(outs.len() as int) =~= outs);
        }
        let (layers, depth) = find_levels(&self.gates, &self.io.outputs);
        let sl = sort_levels(&layers);
        let ghost ls = lists_model(sl@);
        let ghost n = ls.len();
        proof {
            let lv = lists_model(layers@);
            assert(lv == layers@.map_values(|l: Vec<Id>| l@));
            assert forall|d: int| 0 <= d < ls.len() implies strictly_sorted(#[trigger] ls[d]) && ls[d].len() > 0
                && (forall|x: Id| #[trigger] ls[d].contains(x) <==> at_depth(gs, outs, x, d as nat)) by {
                assert(ls[d] == sl@[d]@);
                assert(lv[d] == layers@[d]@);
                assert(is_level(gs, outs, lv[d], d as nat));
            }
            assert(sorted_levels(gs, outs, ls));
            assert(tree_fits(gs, outs, ls, self@.inputs.len() as int, pos, switches, ids@));
            assert forall|d: int, idx: int|
                #![trigger ls[d][idx]]
                0 <= d < sl@.len() && 0 <= idx < sl@[d]@.len() implies has_gate(gs, ls[d][idx]) && y_fits(pos, idx) by {
                assert(ls[d] == sl@[d]@);
                assert(ls[d].contains(ls[d][idx]));
                lemma_within_is_gate(gs, outs, ls[d][idx], d as nat);
                if is_output_id(outs, ls[d][idx]) {
                    let k = choose|k: int| 0 <= k < outs.len() && #[trigger] outs[k].id == ls[d][idx];
                }
            }
        }
        let mut items: Vec<Placed> = Vec::new();
        place_levels(&mut items, &self.gates, &positions, &output_set, Ghost(outs), &sl, pos);

        let mut unreachable: Vec<Id> = Vec::new();
        let mut k: usize = 0;
        while k < self.gates.len()
            invariant
                k <= gs.len(),
                gs == self@.gates,
                forall|x: Id| #[trigger] depth@.contains_key(x) <==> within(gs, outs, x, n),
                unreachable@ == unreachable_ids(gs, outs, n, k as int),
            decreases gs.len() - k,
        {
            let id = self.gates[k].id;
            proof {
                assert(gs[k as int].id == id);
            }
            if !depth.contains_key(&id) {
                unreachable.push(id);
            }
            k += 1;
        }
        let aside = sorted_ids(&unreachable);
        proof {
            let unr = unreachable_ids(gs, outs, n, gs.len() as int);
            assert forall|idx: int| 0 <= idx < aside@.len() implies has_gate(gs, #[trigger] aside@[idx]) && y_fits(pos, idx) by {
                assert(aside@.contains(aside@[idx]));
                assert(unr.contains(aside@[idx]));
                lemma_unreachable_are_gates(gs, outs, n, gs.len() as int, aside@[idx]);
            }
        }
        place_aside(&mut items, &self.gates, &positions, &aside, pos);

        let ghost old_ins = self@.inputs;
        sort_inputs_by_letter(&mut self.io.inputs);
        let max_depth: u32 = if layers.len() > 0 {
            (layers.len() - 1) as u32
        } else {
            0
        };
        let input_depth = max_depth + 1;
        let input_x = pos.x + 1 - input_depth as i32;
        proof {
            assert(input_x == input_column(pos, n as int));
            let q = choose|q: Seq<usize>|
                stable_order(input_letter_keys(old_ins), q) && self@.inputs == permuted(old_ins, q);
            assert(self@.inputs.len() == old_ins.len());
        }
        let ghost pre = placed_model(items@);
        let ghost ids0 = ids@;
        place_tree_inputs(&mut items, ids, &self.io.inputs, pos, input_x, switches);
        proof {
            if switches {
                let fins = self@.inputs;
                lemma_tree_inputs_pairs(fins, pos, input_x, ids0 as nat, fins.len() as int);
                let ti = tree_inputs(fins, pos, input_x, true, ids0 as nat, fins.len() as int);
                assert(placed_model(items@) == pre + ti);
                assert(placed_model(items@).len() == items@.len());
                assert forall|i: int| 0 <= i < fins.len() implies exists|k: int|
                    0 <= k && k + 1 < items@.len() && (#[trigger] placed_model(items@)[k]).part == (PartModel::Switch {
                        id: (ids0 + 2 + 2 * i) as Id,
                        active: false,
                        children: seq![(ids0 + 1 + 2 * i) as Id],
                    }) && placed_model(items@)[k + 1].part == PartModel::Gate(
                        GateModel {
                            id: (ids0 + 1 + 2 * i) as Id,
                            active: false,
                            mode: LogicGateMode::And,
                            children: (#[trigger] fins[i]).ids,
                        },
                    ) by {
                    let k = pre.len() + 2 * i;
                    assert(placed_model(items@)[k] == ti[2 * i]);
                    assert(placed_model(items@)[k + 1] == ti[2 * i + 1]);
                }
            }
            assert(stable_sorted(unreachable_ids(gs, outs, n, gs.len() as int), id_keys(unreachable_ids(gs, outs, n, gs.len() as int)), aside@));
        }
        items
    }
}

/// With switches, the tree's inputs come in pairs: for input `i`, a switch with the id
/// after that of the input's new gate, driving exactly that gate, then the new `and` gate
/// with the next id after the `i` inputs before it, driving the input's gates.
proof fn lemma_tree_inputs_pairs(ins: Seq<InputModel>, pos: Pos, input_x: i32, last: nat, count: int)
    requires
        0 <= count <= ins.len(),
        last + 2 * count <= u32::MAX,
    ensures
        ({
            let items = tree_inputs(ins, pos, input_x, true, last, count);
            &&& items.len() == 2 * count
            &&& forall|i: int|
                0 <= i < count ==> (#[trigger] items[2 * i]).part == (PartModel::Switch {
                    id: (last + 2 + 2 * i) as Id,
                    active: false,
                    children: seq![(last + 1 + 2 * i) as Id],
                }) && items[2 * i + 1].part == PartModel::Gate(
                    GateModel {
                        id: (last + 1 + 2 * i) as Id,
                        active: false,
                        mode: LogicGateMode::And,
                        children: ins[i].ids,
                    },
                )
        }),
    decreases count,
{
    if count > 0 {
        lemma_tree_inputs_pairs(ins, pos, input_x, last, count - 1);
        let prev = tree_inputs(ins, pos, input_x, true, last, count - 1);
        let items = tree_inputs(ins, pos, input_x, true, last, count);
        assert forall|i: int| 0 <= i < count implies (#[trigger] items[2 * i]).part == (PartModel::Switch {
            id: (last + 2 + 2 * i) as Id,
            active: false,
            children: seq![(last + 1 + 2 * i) as Id],
        }) && items[2 * i + 1].part == PartModel::Gate(
            GateModel { id: (last + 1 + 2 * i) as Id, active: false, mode: LogicGateMode::And, children: ins[i].ids },
        ) by {
            if i < count - 1 {
                assert(items[2 * i] == prev[2 * i]);
                assert(items[2 * i + 1] == prev[2 * i + 1]);
            } else {
                assert(((last + 1 + 2 * i) as Id + 1) as Id == (last + 2 + 2 * i) as Id);
            }
        }
    }
}

/// What is unreachable is a gate.
proof fn lemma_unreachable_are_gates(gs: Seq<GateModel>, outs: Seq<Output>, n: nat, count: int, x: Id)
    requires
        0 <= count <= gs.len(),
        unreachable_ids(gs, outs, n, count).contains(x),
    ensures
        has_gate(gs, x),
    decreases count,
{
    if count > 0 {
        let prev = unreachable_ids(gs, outs, n, count - 1);
        if prev.contains(x) {
            lemma_unreachable_are_gates(gs, outs, n, count - 1, x);
        } else {
            let s = unreachable_ids(gs, outs, n, count);
            let i = choose|i: int| 0 <= i < s.len() && s[i] == x;
            assert(i >= prev.len());
            assert(gs[count - 1].id == x);
        }
    }
}

} // verus!
