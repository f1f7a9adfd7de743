use vstd::prelude::*;

use crate::adder_law::{
    a_in, b_in, bit_settled, input_number, k_in, lemma_flipped, lemma_ids_refs_absent,
    lemma_ids_refs_once, lemma_ripple, lemma_two_values, settled, sum_bit, sum_number, ticks,
};
use crate::emulator::{
    emu_input_value, gate_refs, has_emu_input, ids_refs, input_refs, is_first_emu_input, lemma_first_emu_input,
    parents_of, ref_value, ParentRef,
};
use crate::laws::tick_model;
use crate::logic::{
    adder_sub_gates, adder_sub_input, adder_sub_k_ids, alu_8b_4m_gates, alu_ab_input, alu_gate,
    alu_inputs_upto, alu_outputs_upto, alu_s_ids, at, mux_4_1_inputs, sn,
};
use crate::logic_gate::{gate_output, GateModel, LogicGateMode};
use crate::logic_unit::{first_gate, lemma_first_gate, InputModel, UnitModel};
use crate::utils::{Id, SignalName};
use vstd::arithmetic::power2::{lemma2_to64, pow2};

verus! {

// ---------------------------------------------------------------------------
// The layout of the ALU, by place: place `p` holds a gate with id `b + p + 1`

/// The gates are those of the ALU built after id `b`, in any state.
#[verifier::opaque]
pub open spec fn alu_layout(gs: Seq<GateModel>, b: int) -> bool {
    forall|k: int|
        0 <= k < 120 ==> #[trigger] gs[k] == (GateModel { active: gs[k].active, ..alu_8b_4m_gates(b)[k] })
}

/// The unit is the ALU built after id `b`, its gates in any state.
pub open spec fn alu_shaped(gs: Seq<GateModel>, b: int) -> bool {
    &&& 0 <= b
    &&& b + 120 <= u32::MAX
    &&& gs.len() == 120
    &&& alu_layout(gs, b)
}

/// The unit of the ALU built after id `b`, with gates `gs`.
pub open spec fn alu_unit(gs: Seq<GateModel>, b: int) -> UnitModel {
    UnitModel { gates: gs, inputs: alu_inputs_upto(b, 8), outputs: alu_outputs_upto(b, 8) }
}

/// The places of the gates that gate `q` of the ALU drives.
pub open spec fn alu_child_places(q: int) -> Seq<int> {
    if q < 56 {
        let i = q / 7;
        let r = q % 7;
        if r == 0 {
            seq![]
        } else if r <= 4 {
            seq![7 * i]
        } else if r == 5 {
            seq![7 * i + 1, 7 * i + 2]
        } else {
            seq![7 * i + 1, 7 * i + 3]
        }
    } else if q < 104 {
        let i = (q - 56) / 6;
        let t = (q - 56) % 6;
        let c = 56 + 6 * i;
        if t == 0 {
            seq![c + 3, c + 1]
        } else if t == 1 || t == 2 {
            seq![c + 4]
        } else if t == 3 {
            seq![7 * i + 1, 7 * i + 2]
        } else if t == 4 {
            if i < 7 {
                seq![c + 9, c + 7]
            } else {
                seq![]
            }
        } else {
            seq![c, c + 2]
        }
    } else if q < 112 {
        seq![7 * (q - 104) + 3]
    } else {
        seq![7 * (q - 112) + 4]
    }
}

/// The mode of gate `q` of the ALU.
pub open spec fn alu_mode(q: int) -> LogicGateMode {
    if q < 56 {
        let r = q % 7;
        if r == 0 {
            LogicGateMode::Or
        } else if r <= 4 {
            LogicGateMode::And
        } else {
            LogicGateMode::Nand
        }
    } else if q < 104 {
        let t = (q - 56) % 6;
        if t == 0 || t == 3 || t == 5 {
            LogicGateMode::Xor
        } else if t == 4 {
            LogicGateMode::Or
        } else {
            LogicGateMode::And
        }
    } else if q < 112 {
        LogicGateMode::And
    } else {
        LogicGateMode::Nand
    }
}

/// Gate `q` of the ALU: its id, mode, and the ids of the gates it drives.
pub proof fn lemma_alu_gate(gs: Seq<GateModel>, b: int, q: int)
    requires
        alu_shaped(gs, b),
        0 <= q < 120,
    ensures
        gs[q].id == at(b, q + 1),
        gs[q].mode == alu_mode(q),
        gs[q].children.len() == alu_child_places(q).len(),
        forall|m: int|
            0 <= m < gs[q].children.len() ==> #[trigger] gs[q].children[m] == at(b, alu_child_places(q)[m] + 1),
{
    reveal(alu_layout);
    assert(gs[q] == (GateModel { active: gs[q].active, ..alu_8b_4m_gates(b)[q] }));
    assert(alu_8b_4m_gates(b)[q] == alu_gate(b, q, 8));
    if q < 56 {
        assert(q == 7 * (q / 7) + q % 7);
    } else if q < 104 {
        let i = (q - 56) / 6;
        assert(q - 56 == 6 * i + (q - 56) % 6);
        assert(adder_sub_gates(b + 56, 8)[q - 56] == crate::logic::adder_sub_gate(b + 56, i, (q - 56) % 6, 8));
    }
}

/// The places of the gates that input `j` of the ALU drives (inputs `S0`, `S1`, `A0`,
/// `B0`, `A1`, ..).
pub open spec fn alu_input_places(j: int) -> Seq<int> {
    if j == 0 {
        seq![61, 59, 57] + Seq::new(7, |i: int| 56 + 6 * i + 11) + Seq::new(
            24,
            |m: int|
                {
                    let i = m / 3;
                    let r = m % 3;
                    if r == 0 {
                        7 * i + 6
                    } else if r == 1 {
                        7 * i + 2
                    } else {
                        7 * i + 4
                    }
                },
        )
    } else if j == 1 {
        Seq::new(
            24,
            |m: int|
                {
                    let i = m / 3;
                    let r = m % 3;
                    if r == 0 {
                        7 * i + 5
                    } else if r == 1 {
                        7 * i + 3
                    } else {
                        7 * i + 4
                    }
                },
        )
    } else if j % 2 == 0 {
        let i = (j - 2) / 2;
        seq![56 + 6 * i, 56 + 6 * i + 2, 112 + i, 104 + i]
    } else {
        let i = (j - 3) / 2;
        seq![56 + 6 * i + 5, 112 + i, 104 + i]
    }
}

/// The gates that select line `sel` of the first `n` multiplexers drive, one by one.
proof fn lemma_alu_s_ids(b: int, sel: int, n: int)
    requires
        0 <= n <= 8,
        sel == 0 || sel == 1,
    ensures
        alu_s_ids(b, sel, n).len() == 3 * n,
        forall|m: int|
            0 <= m < 3 * n ==> #[trigger] alu_s_ids(b, sel, n)[m] == mux_4_1_inputs(b + 7 * (m / 3))[4
                + sel].ids[m % 3],
    decreases n,
{
    if n > 0 {
        lemma_alu_s_ids(b, sel, n - 1);
        assert forall|m: int| 0 <= m < 3 * n implies #[trigger] alu_s_ids(b, sel, n)[m] == mux_4_1_inputs(
            b + 7 * (m / 3),
        )[4 + sel].ids[m % 3] by {
            if m >= 3 * (n - 1) {
                assert(m / 3 == n - 1);
                assert(m % 3 == m - 3 * (n - 1));
            }
        }
    }
}

/// Input `j` of the ALU: its name, and the ids of the gates it drives.
pub proof fn lemma_alu_input(b: int, j: int)
    requires
        0 <= b,
        b + 120 <= u32::MAX,
        0 <= j < 18,
    ensures
        alu_inputs_upto(b, 8).len() == 18,
        alu_inputs_upto(b, 8)[j].name == if j == 0 {
            sn('S', 0)
        } else if j == 1 {
            sn('S', 1)
        } else if j % 2 == 0 {
            sn('A', ((j - 2) / 2) as u8)
        } else {
            sn('B', ((j - 3) / 2) as u8)
        },
        alu_inputs_upto(b, 8)[j].ids.len() == alu_input_places(j).len(),
        forall|m: int|
            0 <= m < alu_input_places(j).len() ==> #[trigger] alu_inputs_upto(b, 8)[j].ids[m] == at(
                b,
                alu_input_places(j)[m] + 1,
            ),
{
    let ins = alu_inputs_upto(b, 8);
    let ps = alu_input_places(j);
    if j == 0 {
        lemma_alu_s_ids(b, 0, 8);
        let ks = adder_sub_k_ids(b + 56, 8);
        assert(ins[0].ids == ks + alu_s_ids(b, 0, 8));
        assert forall|m: int| 0 <= m < ps.len() implies #[trigger] ins[j].ids[m] == at(b, ps[m] + 1) by {
            if m >= 10 {
                let mm = m - 10;
                assert(mm == 3 * (mm / 3) + mm % 3);
            }
        }
    } else if j == 1 {
        lemma_alu_s_ids(b, 1, 8);
        assert forall|m: int| 0 <= m < ps.len() implies #[trigger] ins[j].ids[m] == at(b, ps[m] + 1) by {
            assert(m == 3 * (m / 3) + m % 3);
        }
    } else {
        let k = j - 2;
        assert(ins[j] == alu_ab_input(b, k));
        let i = k / 2;
        assert(k == 2 * i + k % 2);
        assert(adder_sub_input(b + 56, k) == adder_sub_input(b + 56, k));
    }
}

// ---------------------------------------------------------------------------
// Drivers found by place

/// The drivers that the gates at places `js` give `x`, in the order of `js`.
pub open spec fn gate_refs_at(gs: Seq<GateModel>, x: Id, js: Seq<int>) -> Seq<ParentRef>
    decreases js.len(),
{
    if js.len() == 0 {
        Seq::empty()
    } else {
        gate_refs_at(gs, x, js.drop_last()) + ids_refs(gs[js.last()].children, x, ParentRef::Gate(gs[js.last()].id))
    }
}

/// The drivers that the inputs at places `js` give `x`, in the order of `js`.
pub open spec fn input_refs_at(ins: Seq<InputModel>, x: Id, js: Seq<int>) -> Seq<ParentRef>
    decreases js.len(),
{
    if js.len() == 0 {
        Seq::empty()
    } else {
        input_refs_at(ins, x, js.drop_last()) + ids_refs(ins[js.last()].ids, x, ParentRef::Input(ins[js.last()].name))
    }
}

/// The places are increasing and fall in `0 .. n`.
pub open spec fn places_in(js: Seq<int>, n: int) -> bool {
    &&& forall|a: int, c: int| 0 <= a < c < js.len() ==> js[a] < js[c]
    &&& forall|a: int| 0 <= a < js.len() ==> 0 <= #[trigger] js[a] < n
}

/// Only the places `js` matter to `gate_refs_at`.
proof fn lemma_gate_refs_at_same(gs: Seq<GateModel>, hs: Seq<GateModel>, x: Id, js: Seq<int>)
    requires
        forall|a: int| 0 <= a < js.len() ==> 0 <= #[trigger] js[a] < hs.len() && js[a] < gs.len() && gs[js[a]]
            == hs[js[a]],
    ensures
        gate_refs_at(gs, x, js) == gate_refs_at(hs, x, js),
    decreases js.len(),
{
    if js.len() > 0 {
        lemma_gate_refs_at_same(gs, hs, x, js.drop_last());
        assert(js.last() == js[js.len() - 1]);
    }
}

/// When only the gates at places `js` have `x` among their children, they are its drivers.
pub proof fn lemma_gate_refs_at(gs: Seq<GateModel>, x: Id, js: Seq<int>)
    requires
        places_in(js, gs.len() as int),
        forall|q: int, m: int|
            0 <= q < gs.len() && 0 <= m < gs[q].children.len() && gs[q].children[m] == x ==> js.contains(q),
    ensures
        gate_refs(gs, x) == gate_refs_at(gs, x, js),
    decreases gs.len(),
{
    if gs.len() == 0 {
        if js.len() > 0 {
            assert(0 <= js[0] < 0);
        }
    } else {
        let d = gs.drop_last();
        let l = gs.len() - 1;
        if js.len() > 0 && js.last() == l {
            let jd = js.drop_last();
            assert forall|a: int| 0 <= a < jd.len() implies 0 <= #[trigger] jd[a] < d.len() by {
                assert(js[a] < js[js.len() - 1]);
            }
            assert forall|q: int, m: int|
                0 <= q < d.len() && 0 <= m < d[q].children.len() && d[q].children[m] == x implies jd.contains(q) by {
                assert(gs[q] == d[q]);
                assert(js.contains(q));
                let a = choose|a: int| 0 <= a < js.len() && js[a] == q;
                assert(jd[a] == q);
            }
            lemma_gate_refs_at(d, x, jd);
            lemma_gate_refs_at_same(gs, d, x, jd);
        } else {
            assert forall|a: int| 0 <= a < js.len() implies 0 <= #[trigger] js[a] < d.len() by {
                if js[a] == l {
                    assert(js[a] <= js[js.len() - 1]);
                }
            }
            assert forall|m: int| 0 <= m < gs[l].children.len() implies gs[l].children[m] != x by {
                if gs[l].children[m] == x {
                    assert(js.contains(l));
                    let a = choose|a: int| 0 <= a < js.len() && js[a] == l;
                    assert(js[a] <= js[js.len() - 1]);
                }
            }
            lemma_ids_refs_absent(gs[l].children, x, ParentRef::Gate(gs[l].id));
            assert forall|q: int, m: int|
                0 <= q < d.len() && 0 <= m < d[q].children.len() && d[q].children[m] == x implies js.contains(q) by {
                assert(gs[q] == d[q]);
            }
            lemma_gate_refs_at(d, x, js);
            lemma_gate_refs_at_same(gs, d, x, js);
            assert(gate_refs(gs, x) =~= gate_refs(d, x));
        }
    }
}

/// Only the places `js` matter to `input_refs_at`.
proof fn lemma_input_refs_at_same(ins: Seq<InputModel>, jns: Seq<InputModel>, x: Id, js: Seq<int>)
    requires
        forall|a: int| 0 <= a < js.len() ==> 0 <= #[trigger] js[a] < jns.len() && js[a] < ins.len() && ins[js[a]]
            == jns[js[a]],
    ensures
        input_refs_at(ins, x, js) == input_refs_at(jns, x, js),
    decreases js.len(),
{
    if js.len() > 0 {
        lemma_input_refs_at_same(ins, jns, x, js.drop_last());
        assert(js.last() == js[js.len() - 1]);
    }
}

/// When only the inputs at places `js` have `x` among their gates, they are its drivers.
pub proof fn lemma_input_refs_at(ins: Seq<InputModel>, x: Id, js: Seq<int>)
    requires
        places_in(js, ins.len() as int),
        forall|q: int, m: int|
            0 <= q < ins.len() && 0 <= m < ins[q].ids.len() && ins[q].ids[m] == x ==> js.contains(q),
    ensures
        input_refs(ins, x) == input_refs_at(ins, x, js),
    decreases ins.len(),
{
    if ins.len() == 0 {
        if js.len() > 0 {
            assert(0 <= js[0] < ins.len() as int);
        }
    } else {
        let d = ins.drop_last();
        let l = ins.len() - 1;
        if js.len() > 0 && js.last() == l {
            let jd = js.drop_last();
            assert forall|a: int| 0 <= a < jd.len() implies 0 <= #[trigger] jd[a] < d.len() by {
                assert(js[a] < js[js.len() - 1]);
            }
            assert forall|q: int, m: int|
                0 <= q < d.len() && 0 <= m < d[q].ids.len() && d[q].ids[m] == x implies jd.contains(q) by {
                assert(ins[q] == d[q]);
                assert(js.contains(q));
                let a = choose|a: int| 0 <= a < js.len() && js[a] == q;
                assert(jd[a] == q);
            }
            lemma_input_refs_at(d, x, jd);
            lemma_input_refs_at_same(ins, d, x, jd);
        } else {
            assert forall|a: int| 0 <= a < js.len() implies 0 <= #[trigger] js[a] < d.len() by {
                if js[a] == l {
                    assert(js[a] <= js[js.len() - 1]);
                }
            }
            assert forall|m: int| 0 <= m < ins[l].ids.len() implies ins[l].ids[m] != x by {
                if ins[l].ids[m] == x {
                    assert(js.contains(l));
                    let a = choose|a: int| 0 <= a < js.len() && js[a] == l;
                    assert(js[a] <= js[js.len() - 1]);
                }
            }
            lemma_ids_refs_absent(ins[l].ids, x, ParentRef::Input(ins[l].name));
            assert forall|q: int, m: int|
                0 <= q < d.len() && 0 <= m < d[q].ids.len() && d[q].ids[m] == x implies js.contains(q) by {
                assert(ins[q] == d[q]);
            }
            lemma_input_refs_at(d, x, js);
            lemma_input_refs_at_same(ins, d, x, js);
            assert(input_refs(ins, x) =~= input_refs(d, x));
        }
    }
}

// ---------------------------------------------------------------------------
// Who drives whom in the ALU, by place

/// The places of the gates that drive place `p` of the ALU, in order.
pub open spec fn alu_gate_drivers(p: int) -> Seq<int> {
    if p < 56 {
        let i = p / 7;
        let r = p % 7;
        if r == 0 {
            seq![7 * i + 1, 7 * i + 2, 7 * i + 3, 7 * i + 4]
        } else if r == 1 {
            seq![7 * i + 5, 7 * i + 6, 56 + 6 * i + 3]
        } else if r == 2 {
            seq![7 * i + 5, 56 + 6 * i + 3]
        } else if r == 3 {
            seq![7 * i + 6, 104 + i]
        } else if r == 4 {
            seq![112 + i]
        } else {
            seq![]
        }
    } else if p < 104 {
        let i = (p - 56) / 6;
        let t = (p - 56) % 6;
        let c = 56 + 6 * i;
        if t == 0 || t == 2 {
            seq![c + 5]
        } else if t == 1 || t == 3 {
            if i == 0 {
                seq![c]
            } else {
                seq![c - 2, c]
            }
        } else if t == 4 {
            seq![c + 1, c + 2]
        } else {
            seq![]
        }
    } else {
        seq![]
    }
}

/// The places of the inputs that drive place `p` of the ALU, in order.
pub open spec fn alu_input_drivers(p: int) -> Seq<int> {
    if p < 56 {
        let r = p % 7;
        if r == 2 || r == 6 {
            seq![0]
        } else if r == 3 || r == 5 {
            seq![1]
        } else if r == 4 {
            seq![0, 1]
        } else {
            seq![]
        }
    } else if p < 104 {
        let i = (p - 56) / 6;
        let t = (p - 56) % 6;
        if t == 0 || t == 2 {
            seq![2 + 2 * i]
        } else if t == 1 || t == 3 {
            if i == 0 {
                seq![0]
            } else {
                seq![]
            }
        } else if t == 4 {
            seq![]
        } else {
            seq![0, 3 + 2 * i]
        }
    } else if p < 112 {
        seq![2 + 2 * (p - 104), 3 + 2 * (p - 104)]
    } else {
        seq![2 + 2 * (p - 112), 3 + 2 * (p - 112)]
    }
}

/// A gate that drives place `p` is among its drivers.
proof fn lemma_child_place_driver(q: int, m: int)
    requires
        0 <= q < 120,
        0 <= m < alu_child_places(q).len(),
    ensures
        alu_gate_drivers(alu_child_places(q)[m]).contains(q),
        0 <= alu_child_places(q)[m] < 120,
{
    let p = alu_child_places(q)[m];
    let d = alu_gate_drivers(p);
    if q < 56 {
        let i = q / 7;
        let r = q % 7;
        assert(q == 7 * i + r);
        if 1 <= r <= 4 {
            assert(p == 7 * i && p / 7 == i && p % 7 == 0);
            assert(d[r - 1] == q);
        } else if r == 5 {
            if m == 0 {
                assert(p / 7 == i && p % 7 == 1);
            } else {
                assert(p / 7 == i && p % 7 == 2);
            }
            assert(d[0] == q);
        } else {
            if m == 0 {
                assert(p / 7 == i && p % 7 == 1);
                assert(d[1] == q);
            } else {
                assert(p / 7 == i && p % 7 == 3);
                assert(d[0] == q);
            }
        }
    } else if q < 104 {
        let i = (q - 56) / 6;
        let t = (q - 56) % 6;
        let c = 56 + 6 * i;
        assert(q == c + t);
        if t == 0 {
            if m == 0 {
                assert((p - 56) / 6 == i && (p - 56) % 6 == 3);
            } else {
                assert((p - 56) / 6 == i && (p - 56) % 6 == 1);
            }
            if i == 0 {
                assert(d[0] == q);
            } else {
                assert(d[1] == q);
            }
        } else if t == 1 || t == 2 {
            assert((p - 56) / 6 == i && (p - 56) % 6 == 4);
            assert(d[t - 1] == q);
        } else if t == 3 {
            if m == 0 {
                assert(p / 7 == i && p % 7 == 1);
                assert(d[2] == q);
            } else {
                assert(p / 7 == i && p % 7 == 2);
                assert(d[1] == q);
            }
        } else if t == 4 {
            if m == 0 {
                assert((p - 56) / 6 == i + 1 && (p - 56) % 6 == 3);
            } else {
                assert((p - 56) / 6 == i + 1 && (p - 56) % 6 == 1);
            }
            assert(d[0] == q);
        } else {
            if m == 0 {
                assert((p - 56) / 6 == i && (p - 56) % 6 == 0);
            } else {
                assert((p - 56) / 6 == i && (p - 56) % 6 == 2);
            }
            assert(d[0] == q);
        }
    } else if q < 112 {
        let i = q - 104;
        assert(p / 7 == i && p % 7 == 3);
        assert(d[1] == q);
    } else {
        let i = q - 112;
        assert(p / 7 == i && p % 7 == 4);
        assert(d[0] == q);
    }
}

/// Each driver of place `p` drives it once.
proof fn lemma_driver_child_place(p: int, a: int)
    requires
        0 <= p < 120,
        0 <= a < alu_gate_drivers(p).len(),
    ensures
        0 <= alu_gate_drivers(p)[a] < 120,
        ({
            let q = alu_gate_drivers(p)[a];
            let cs = alu_child_places(q);
            exists|m: int| 0 <= m < cs.len() && cs[m] == p && forall|n: int| 0 <= n < cs.len() && n != m ==> cs[n] != p
        }),
        forall|c: int| 0 <= c < a ==> alu_gate_drivers(p)[c] < alu_gate_drivers(p)[a],
{
    let q = alu_gate_drivers(p)[a];
    let cs = alu_child_places(q);
    if p < 56 {
        let i = p / 7;
        let r = p % 7;
        assert(p == 7 * i + r);
        if r == 0 {
            assert(q / 7 == i && q % 7 == a + 1);
            assert(cs[0] == p);
        } else if r == 1 {
            if a == 0 {
                assert(q / 7 == i && q % 7 == 5);
            } else if a == 1 {
                assert(q / 7 == i && q % 7 == 6);
            } else {
                assert((q - 56) / 6 == i && (q - 56) % 6 == 3);
            }
            assert(cs[0] == p);
        } else if r == 2 {
            if a == 0 {
                assert(q / 7 == i && q % 7 == 5);
            } else {
                assert((q - 56) / 6 == i && (q - 56) % 6 == 3);
            }
            assert(cs[1] == p);
        } else if r == 3 {
            if a == 0 {
                assert(q / 7 == i && q % 7 == 6);
                assert(cs[1] == p);
            } else {
                assert(cs[0] == p);
            }
        } else {
            assert(cs[0] == p);
        }
    } else {
        let i = (p - 56) / 6;
        let t = (p - 56) % 6;
        let c = 56 + 6 * i;
        assert(p == c + t);
        if t == 0 || t == 2 {
            assert((q - 56) / 6 == i && (q - 56) % 6 == 5);
            assert(cs[t / 2] == p);
        } else if t == 1 || t == 3 {
            if i > 0 && a == 0 {
                assert((q - 56) / 6 == i - 1 && (q - 56) % 6 == 4);
                assert(cs[if t == 3 { 0int } else { 1int }] == p);
            } else {
                assert((q - 56) / 6 == i && (q - 56) % 6 == 0);
                assert(cs[if t == 3 { 0int } else { 1int }] == p);
            }
        } else {
            assert((q - 56) / 6 == i && (q - 56) % 6 == a + 1);
            assert(cs[0] == p);
        }
    }
}

/// Where place `p` sits in the list of input `j`: `alu_input_places(j)[m] == p` exactly for
/// this `m`.
proof fn lemma_input_place_index(j: int, m: int)
    requires
        0 <= j < 18,
        0 <= m < alu_input_places(j).len(),
    ensures
        0 <= alu_input_places(j)[m] < 120,
        alu_input_drivers(alu_input_places(j)[m]).contains(j),
        forall|n: int|
            0 <= n < alu_input_places(j).len() && n != m ==> alu_input_places(j)[n] != alu_input_places(j)[m],
{
    let ps = alu_input_places(j);
    let p = ps[m];
    let d = alu_input_drivers(p);
    if j == 0 {
        if m < 3 {
            assert(d[0] == 0);
        } else if m < 10 {
            let i = m - 3;
            assert(p == 56 + 6 * (i + 1) + 5);
            assert((p - 56) / 6 == i + 1 && (p - 56) % 6 == 5);
            assert(d[0] == 0);
        } else {
            let mm = m - 10;
            let i = mm / 3;
            let r = mm % 3;
            assert(mm == 3 * i + r);
            assert(p / 7 == i);
            assert(d[0] == 0);
        }
        assert forall|n: int| 0 <= n < ps.len() && n != m implies ps[n] != p by {
            if n >= 10 {
                let nn = n - 10;
                assert(nn == 3 * (nn / 3) + nn % 3);
            }
            if m >= 10 {
                let mm = m - 10;
                assert(mm == 3 * (mm / 3) + mm % 3);
            }
        }
    } else if j == 1 {
        let i = m / 3;
        let r = m % 3;
        assert(m == 3 * i + r);
        assert(p / 7 == i);
        if r == 2 {
            assert(d[1] == 1);
        } else {
            assert(d[0] == 1);
        }
        assert forall|n: int| 0 <= n < ps.len() && n != m implies ps[n] != p by {
            assert(n == 3 * (n / 3) + n % 3);
        }
    } else if j % 2 == 0 {
        let i = (j - 2) / 2;
        assert(j == 2 + 2 * i);
        if m < 2 {
            assert((p - 56) / 6 == i && (p - 56) % 6 == 2 * m);
        }
        assert(d[0] == j);
    } else {
        let i = (j - 3) / 2;
        assert(j == 3 + 2 * i);
        if m == 0 {
            assert((p - 56) / 6 == i && (p - 56) % 6 == 5);
        }
        assert(d[1] == j);
    }
}

/// Each input that drives place `p` has it in its list, and the drivers are in order.
proof fn lemma_input_driver_place(p: int, a: int)
    requires
        0 <= p < 120,
        0 <= a < alu_input_drivers(p).len(),
    ensures
        0 <= alu_input_drivers(p)[a] < 18,
        alu_input_places(alu_input_drivers(p)[a]).contains(p),
        forall|c: int| 0 <= c < a ==> alu_input_drivers(p)[c] < alu_input_drivers(p)[a],
{
    let j = alu_input_drivers(p)[a];
    let ps = alu_input_places(j);
    if p < 56 {
        let i = p / 7;
        let r = p % 7;
        assert(p == 7 * i + r);
        if j == 0 {
            let m = 10 + 3 * i + if r == 6 { 0int } else if r == 2 { 1int } else { 2int };
            assert((m - 10) / 3 == i && (m - 10) % 3 == m - 10 - 3 * i);
            assert(ps[m] == p);
        } else {
            let m = 3 * i + if r == 5 { 0int } else if r == 3 { 1int } else { 2int };
            assert(m / 3 == i && m % 3 == m - 3 * i);
            assert(ps[m] == p);
        }
    } else if p < 104 {
        let i = (p - 56) / 6;
        let t = (p - 56) % 6;
        assert(p == 56 + 6 * i + t);
        if t == 0 || t == 2 {
            assert((j - 2) / 2 == i);
            assert(ps[t / 2] == p);
        } else if t == 1 || t == 3 {
            assert(ps[if t == 1 { 2int } else { 1int }] == p);
        } else if j == 0 {
            if i == 0 {
                assert(ps[0] == p);
            } else {
                assert(ps[3 + (i - 1)] == p);
            }
        } else {
            assert((j - 3) / 2 == i);
            assert(ps[0] == p);
        }
    } else if p < 112 {
        let i = p - 104;
        if a == 0 {
            assert((j - 2) / 2 == i);
            assert(ps[3] == p);
        } else {
            assert((j - 3) / 2 == i);
            assert(ps[2] == p);
        }
    } else {
        let i = p - 112;
        if a == 0 {
            assert((j - 2) / 2 == i);
            assert(ps[2] == p);
        } else {
            assert((j - 3) / 2 == i);
            assert(ps[1] == p);
        }
    }
}

// ---------------------------------------------------------------------------
// What drives each gate of the ALU

/// The name of input `j` of the ALU.
pub open spec fn alu_input_name(j: int) -> crate::utils::SignalName {
    if j == 0 {
        sn('S', 0)
    } else if j == 1 {
        sn('S', 1)
    } else if j % 2 == 0 {
        sn('A', ((j - 2) / 2) as u8)
    } else {
        sn('B', ((j - 3) / 2) as u8)
    }
}

/// The drivers of place `p` of the ALU: its inputs, then its gates.
pub open spec fn alu_parents(b: int, p: int) -> Seq<ParentRef> {
    alu_input_drivers(p).map_values(|j: int| ParentRef::Input(alu_input_name(j))) + alu_gate_drivers(
        p,
    ).map_values(|q: int| ParentRef::Gate(at(b, q + 1)))
}

/// Distinct places have distinct ids.
proof fn lemma_at_injective(b: int, p1: int, p2: int)
    requires
        0 <= b,
        b + 120 <= u32::MAX,
        0 <= p1 < 120,
        0 <= p2 < 120,
        at(b, p1 + 1) == at(b, p2 + 1),
    ensures
        p1 == p2,
{
}

/// Gates that drive place `p`, as `gate_refs` finds them.
proof fn lemma_alu_gate_refs(gs: Seq<GateModel>, b: int, p: int)
    requires
        alu_shaped(gs, b),
        0 <= p < 120,
    ensures
        gate_refs(gs, at(b, p + 1)) == alu_gate_drivers(p).map_values(|q: int| ParentRef::Gate(at(b, q + 1))),
{
    let x = at(b, p + 1);
    let js = alu_gate_drivers(p);
    assert forall|a: int| 0 <= a < js.len() implies 0 <= #[trigger] js[a] < 120 by {
        lemma_driver_child_place(p, a);
    }
    assert forall|a: int, c: int| 0 <= a < c < js.len() implies js[a] < js[c] by {
        lemma_driver_child_place(p, c);
    }
    assert forall|q: int, m: int|
        0 <= q < gs.len() && 0 <= m < gs[q].children.len() && gs[q].children[m] == x implies js.contains(q) by {
        lemma_alu_gate(gs, b, q);
        lemma_child_place_driver(q, m);
        lemma_at_injective(b, alu_child_places(q)[m], p);
    }
    lemma_gate_refs_at(gs, x, js);
    lemma_gate_refs_at_drivers(gs, b, p, js.len() as int);
    assert(js.take(js.len() as int) =~= js);
}

/// The first `k` gate drivers of place `p`, one each.
proof fn lemma_gate_refs_at_drivers(gs: Seq<GateModel>, b: int, p: int, k: int)
    requires
        alu_shaped(gs, b),
        0 <= p < 120,
        0 <= k <= alu_gate_drivers(p).len(),
    ensures
        gate_refs_at(gs, at(b, p + 1), alu_gate_drivers(p).take(k)) == alu_gate_drivers(p).take(k).map_values(
            |q: int| ParentRef::Gate(at(b, q + 1)),
        ),
    decreases k,
{
    let js = alu_gate_drivers(p);
    let x = at(b, p + 1);
    if k > 0 {
        lemma_gate_refs_at_drivers(gs, b, p, k - 1);
        assert(js.take(k).drop_last() =~= js.take(k - 1));
        let q = js[k - 1];
        lemma_driver_child_place(p, k - 1);
        lemma_alu_gate(gs, b, q);
        let cs = alu_child_places(q);
        let m = choose|m: int| 0 <= m < cs.len() && cs[m] == p && forall|n: int| 0 <= n < cs.len() && n != m ==> cs[n] != p;
        assert forall|n: int| 0 <= n < gs[q].children.len() && n != m implies gs[q].children[n] != x by {
            if gs[q].children[n] == x {
                lemma_child_place_driver(q, n);
                lemma_at_injective(b, cs[n], p);
            }
        }
        lemma_ids_refs_once(gs[q].children, x, ParentRef::Gate(gs[q].id), m);
        assert(gate_refs_at(gs, x, js.take(k)) =~= js.take(k).map_values(|q: int| ParentRef::Gate(at(b, q + 1))));
    } else {
        assert(js.take(0).map_values(|q: int| ParentRef::Gate(at(b, q + 1))) =~= Seq::<ParentRef>::empty());
    }
}

/// The first `k` input drivers of place `p`, one each.
proof fn lemma_input_refs_at_drivers(b: int, p: int, k: int)
    requires
        0 <= b,
        b + 120 <= u32::MAX,
        0 <= p < 120,
        0 <= k <= alu_input_drivers(p).len(),
    ensures
        input_refs_at(alu_inputs_upto(b, 8), at(b, p + 1), alu_input_drivers(p).take(k)) == alu_input_drivers(
            p,
        ).take(k).map_values(|j: int| ParentRef::Input(alu_input_name(j))),
    decreases k,
{
    let js = alu_input_drivers(p);
    let ins = alu_inputs_upto(b, 8);
    let x = at(b, p + 1);
    if k > 0 {
        lemma_input_refs_at_drivers(b, p, k - 1);
        assert(js.take(k).drop_last() =~= js.take(k - 1));
        let j = js[k - 1];
        lemma_input_driver_place(p, k - 1);
        lemma_alu_input(b, j);
        let ps = alu_input_places(j);
        let m = choose|m: int| 0 <= m < ps.len() && ps[m] == p;
        lemma_input_place_index(j, m);
        assert forall|n: int| 0 <= n < ins[j].ids.len() && n != m implies ins[j].ids[n] != x by {
            lemma_input_place_index(j, n);
            if ins[j].ids[n] == x {
                lemma_at_injective(b, ps[n], p);
            }
        }
        lemma_ids_refs_once(ins[j].ids, x, ParentRef::Input(ins[j].name), m);
        assert(input_refs_at(ins, x, js.take(k)) =~= js.take(k).map_values(
            |j: int| ParentRef::Input(alu_input_name(j)),
        ));
    } else {
        assert(js.take(0).map_values(|j: int| ParentRef::Input(alu_input_name(j))) =~= Seq::<ParentRef>::empty());
    }
}

/// The input drivers of place `p`, as `input_refs` finds them.
proof fn lemma_alu_input_refs(b: int, p: int)
    requires
        0 <= b,
        b + 120 <= u32::MAX,
        0 <= p < 120,
    ensures
        input_refs(alu_inputs_upto(b, 8), at(b, p + 1)) == alu_input_drivers(p).map_values(
            |j: int| ParentRef::Input(alu_input_name(j)),
        ),
{
    let x = at(b, p + 1);
    let js = alu_input_drivers(p);
    let ins = alu_inputs_upto(b, 8);
    lemma_alu_input(b, 0);
    assert forall|a: int| 0 <= a < js.len() implies 0 <= #[trigger] js[a] < 18 by {
        lemma_input_driver_place(p, a);
    }
    assert forall|a: int, c: int| 0 <= a < c < js.len() implies js[a] < js[c] by {
        lemma_input_driver_place(p, c);
    }
    assert forall|q: int, m: int|
        0 <= q < ins.len() && 0 <= m < ins[q].ids.len() && ins[q].ids[m] == x implies js.contains(q) by {
        lemma_alu_input(b, q);
        lemma_input_place_index(q, m);
        lemma_at_injective(b, alu_input_places(q)[m], p);
    }
    lemma_input_refs_at(ins, x, js);
    lemma_input_refs_at_drivers(b, p, js.len() as int);
    assert(js.take(js.len() as int) =~= js);
}

/// What drives place `p` of the ALU is `alu_parents`.
pub proof fn lemma_alu_parents(gs: Seq<GateModel>, b: int, p: int)
    requires
        alu_shaped(gs, b),
        0 <= p < 120,
    ensures
        crate::emulator::parents_of(alu_unit(gs, b), at(b, p + 1)) == alu_parents(b, p),
{
    lemma_alu_gate_refs(gs, b, p);
    lemma_alu_input_refs(b, p);
}

// ---------------------------------------------------------------------------
// One tick of the ALU

/// The value on input `name`.
pub open spec fn in_value(ins: Seq<(SignalName, bool, Vec<Id>)>, name: SignalName) -> bool {
    emu_input_value(ins, name)
}

/// The state at place `p` of the ALU after one tick from gates `gs`: each
/// multiplexer `or`s its four `and`s (`and0 = not0 and not1 and sum`, `and1 = S0 and
/// not0 and sum`, `and2 = S1 and not1 and and`, `and3 = S0 and S1 and nand`,
/// `not0 = not S1`, `not1 = not S0`); the adder-subtractor works as alone, with `S0` for
/// `K`; the `and` and `nand` of bit `i` take `A i` and `B i`.
pub open spec fn alu_next(gs: Seq<GateModel>, ins: Seq<(SignalName, bool, Vec<Id>)>, p: int) -> bool {
    let s0 = in_value(ins, SignalName('S', 0));
    let s1 = in_value(ins, SignalName('S', 1));
    if p < 56 {
        let i = p / 7;
        let r = p % 7;
        let sum = gs[56 + 6 * i + 3].active;
        if r == 0 {
            gs[7 * i + 1].active || gs[7 * i + 2].active || gs[7 * i + 3].active || gs[7 * i + 4].active
        } else if r == 1 {
            gs[7 * i + 5].active && gs[7 * i + 6].active && sum
        } else if r == 2 {
            s0 && gs[7 * i + 5].active && sum
        } else if r == 3 {
            s1 && gs[7 * i + 6].active && gs[104 + i].active
        } else if r == 4 {
            s0 && s1 && gs[112 + i].active
        } else if r == 5 {
            !s1
        } else {
            !s0
        }
    } else if p < 104 {
        let i = (p - 56) / 6;
        let t = (p - 56) % 6;
        let c = 56 + 6 * i;
        let a = in_value(ins, SignalName('A', i as u8));
        let bb = in_value(ins, SignalName('B', i as u8));
        let cin = if i == 0 {
            s0
        } else {
            gs[c - 2].active
        };
        if t == 0 {
            a != gs[c + 5].active
        } else if t == 1 {
            cin && gs[c].active
        } else if t == 2 {
            a && gs[c + 5].active
        } else if t == 3 {
            cin != gs[c].active
        } else if t == 4 {
            gs[c + 1].active || gs[c + 2].active
        } else {
            s0 != bb
        }
    } else if p < 112 {
        let i = p - 104;
        in_value(ins, SignalName('A', i as u8)) && in_value(ins, SignalName('B', i as u8))
    } else {
        let i = p - 112;
        !(in_value(ins, SignalName('A', i as u8)) && in_value(ins, SignalName('B', i as u8)))
    }
}

/// With the gates of the ALU in place order, place `q` holds the first gate with its id.
proof fn lemma_alu_first(gs: Seq<GateModel>, b: int, q: int)
    requires
        alu_shaped(gs, b),
        0 <= q < 120,
    ensures
        first_gate(gs, at(b, q + 1)) == q,
{
    assert forall|j: int| 0 <= j < 120 implies #[trigger] gs[j].id == at(b, j + 1) by {
        lemma_alu_gate(gs, b, j);
    }
    assert forall|j: int| 0 <= j < q implies gs[j].id != at(b, q + 1) by {
        assert(gs[j].id == at(b, j + 1));
    }
    lemma_first_gate(gs, at(b, q + 1), q);
}

/// What a gate of mode `mode` makes of one, three or four values.
proof fn lemma_few_values(mode: LogicGateMode, x: bool, y: bool, z: bool, w: bool)
    ensures
        mode == LogicGateMode::Nand ==> gate_output(mode, seq![x]) == !x,
        mode == LogicGateMode::And ==> gate_output(mode, seq![x, y, z]) == (x && y && z),
        mode == LogicGateMode::Or ==> gate_output(mode, seq![x, y, z, w]) == (x || y || z || w),
        mode == LogicGateMode::Nand ==> gate_output(mode, seq![x, y]) == !(x && y),
{
    let s1 = seq![x];
    let s2 = seq![x, y];
    let s3 = seq![x, y, z];
    let s4 = seq![x, y, z, w];
    if !x {
        assert(!s1[0] && !s2[0] && !s3[0]);
    }
    if !y {
        assert(!s2[1] && !s3[1]);
    }
    if !z {
        assert(!s3[2]);
    }
    if x {
        assert(s4[0]);
    }
    if y {
        assert(s4[1]);
    }
    if z {
        assert(s4[2]);
    }
    if w {
        assert(s4[3]);
    }
}

/// The values that reach place `p` of the ALU: its inputs', then its gates'.
pub open spec fn alu_vals(gs: Seq<GateModel>, ins: Seq<(SignalName, bool, Vec<Id>)>, p: int) -> Seq<bool> {
    alu_input_drivers(p).map_values(|j: int| in_value(ins, alu_input_name(j))) + alu_gate_drivers(p).map_values(
        |q: int| gs[q].active,
    )
}

/// One tick of place `p` of the ALU: its mode applied to `alu_vals`.
proof fn lemma_alu_tick_vals(gs: Seq<GateModel>, b: int, ins: Seq<(SignalName, bool, Vec<Id>)>, p: int)
    requires
        alu_shaped(gs, b),
        0 <= p < 120,
    ensures
        tick_model(alu_unit(gs, b), ins).gates[p].active == gate_output(alu_mode(p), alu_vals(gs, ins, p)),
{
    let u = alu_unit(gs, b);
    lemma_alu_gate(gs, b, p);
    lemma_alu_parents(gs, b, p);
    let ps = alu_parents(b, p);
    let vals = ps.map_values(|r: ParentRef| ref_value(gs, ins, r));
    assert(tick_model(u, ins).gates[p].active == gate_output(gs[p].mode, vals));
    let gd = alu_gate_drivers(p);
    assert forall|a: int| 0 <= a < gd.len() implies ref_value(gs, ins, ParentRef::Gate(at(b, #[trigger] gd[a] + 1)))
        == gs[gd[a]].active by {
        lemma_driver_child_place(p, a);
        lemma_alu_first(gs, b, gd[a]);
    }
    assert(vals =~= alu_vals(gs, ins, p));
}

/// One tick of a gate of multiplexer `i` of the ALU gives `alu_next`.
proof fn lemma_alu_tick_mux(gs: Seq<GateModel>, b: int, ins: Seq<(SignalName, bool, Vec<Id>)>, i: int, r: int)
    requires
        alu_shaped(gs, b),
        0 <= i < 8,
        0 <= r < 7,
    ensures
        tick_model(alu_unit(gs, b), ins).gates[7 * i + r].active == alu_next(gs, ins, 7 * i + r),
{
    let p = 7 * i + r;
    lemma_alu_tick_vals(gs, b, ins, p);
    assert(p / 7 == i && p % 7 == r);
    let vals = alu_vals(gs, ins, p);
    let s0 = in_value(ins, SignalName('S', 0));
    let s1 = in_value(ins, SignalName('S', 1));
    let g = |q: int| gs[q].active;
    if r == 0 {
        assert(vals =~= seq![g(7 * i + 1), g(7 * i + 2), g(7 * i + 3), g(7 * i + 4)]);
        lemma_few_values(alu_mode(p), g(7 * i + 1), g(7 * i + 2), g(7 * i + 3), g(7 * i + 4));
    } else if r == 1 {
        assert(vals =~= seq![g(7 * i + 5), g(7 * i + 6), g(56 + 6 * i + 3)]);
        lemma_few_values(alu_mode(p), g(7 * i + 5), g(7 * i + 6), g(56 + 6 * i + 3), false);
    } else if r == 2 {
        assert(vals =~= seq![s0, g(7 * i + 5), g(56 + 6 * i + 3)]);
        lemma_few_values(alu_mode(p), s0, g(7 * i + 5), g(56 + 6 * i + 3), false);
    } else if r == 3 {
        assert(vals =~= seq![s1, g(7 * i + 6), g(104 + i)]);
        lemma_few_values(alu_mode(p), s1, g(7 * i + 6), g(104 + i), false);
    } else if r == 4 {
        assert(vals =~= seq![s0, s1, g(112 + i)]);
        lemma_few_values(alu_mode(p), s0, s1, g(112 + i), false);
    } else if r == 5 {
        assert(vals =~= seq![s1]);
        lemma_few_values(alu_mode(p), s1, false, false, false);
    } else {
        assert(vals =~= seq![s0]);
        lemma_few_values(alu_mode(p), s0, false, false, false);
    }
}

/// The values that reach gate `t` of bit `i` of the adder-subtractor in the ALU.
proof fn lemma_alu_adder_vals(gs: Seq<GateModel>, ins: Seq<(SignalName, bool, Vec<Id>)>, i: int, t: int)
    requires
        0 <= i < 8,
        0 <= t < 6,
    ensures
        ({
            let c = 56 + 6 * i;
            let s0 = in_value(ins, SignalName('S', 0));
            let a = in_value(ins, SignalName('A', i as u8));
            let bb = in_value(ins, SignalName('B', i as u8));
            let cin = if i == 0 {
                s0
            } else {
                gs[c - 2].active
            };
            alu_vals(gs, ins, c + t) == if t == 0 || t == 2 {
                seq![a, gs[c + 5].active]
            } else if t == 1 || t == 3 {
                seq![cin, gs[c].active]
            } else if t == 4 {
                seq![gs[c + 1].active, gs[c + 2].active]
            } else {
                seq![s0, bb]
            }
        }),
{
    let c = 56 + 6 * i;
    let p = c + t;
    assert((p - 56) / 6 == i && (p - 56) % 6 == t);
    let ids = alu_input_drivers(p);
    let gds = alu_gate_drivers(p);
    if t == 0 || t == 2 {
        assert(ids == seq![2 + 2 * i]);
        assert(alu_input_name(2 + 2 * i) == SignalName('A', i as u8)) by {
            assert((2 + 2 * i) % 2 == 0 && (2 + 2 * i - 2) / 2 == i);
        }
        assert(gds == seq![c + 5]);
    } else if t == 1 || t == 3 {
        if i == 0 {
            assert(ids == seq![0int]);
            assert(gds == seq![c]);
        } else {
            assert(ids == Seq::<int>::empty());
            assert(gds == seq![c - 2, c]);
        }
    } else if t == 4 {
        assert(ids == Seq::<int>::empty());
        assert(gds == seq![c + 1, c + 2]);
    } else {
        assert(ids == seq![0, 3 + 2 * i]);
        assert(alu_input_name(3 + 2 * i) == SignalName('B', i as u8)) by {
            assert((3 + 2 * i) % 2 == 1 && (3 + 2 * i - 3) / 2 == i);
        }
        assert(gds == Seq::<int>::empty());
    }
    assert(alu_vals(gs, ins, p) =~= if t == 0 || t == 2 {
        seq![in_value(ins, SignalName('A', i as u8)), gs[c + 5].active]
    } else if t == 1 || t == 3 {
        seq![if i == 0 { in_value(ins, SignalName('S', 0)) } else { gs[c - 2].active }, gs[c].active]
    } else if t == 4 {
        seq![gs[c + 1].active, gs[c + 2].active]
    } else {
        seq![in_value(ins, SignalName('S', 0)), in_value(ins, SignalName('B', i as u8))]
    });
}

/// Gate `t` of bit `i` of the adder-subtractor in the ALU, as `alu_next` sees it.
proof fn lemma_alu_next_adder(gs: Seq<GateModel>, ins: Seq<(SignalName, bool, Vec<Id>)>, i: int, t: int)
    requires
        0 <= i < 8,
        0 <= t < 6,
    ensures
        ({
            let c = 56 + 6 * i;
            let v = alu_vals(gs, ins, c + t);
            &&& alu_mode(c + t) == if t == 0 || t == 3 || t == 5 {
                LogicGateMode::Xor
            } else if t == 4 {
                LogicGateMode::Or
            } else {
                LogicGateMode::And
            }
            &&& alu_next(gs, ins, c + t) == if t == 0 || t == 3 || t == 5 {
                v[0] != v[1]
            } else if t == 4 {
                v[0] || v[1]
            } else {
                v[0] && v[1]
            }
        }),
{
    let c = 56 + 6 * i;
    let p = c + t;
    assert((p - 56) / 6 == i && (p - 56) % 6 == t);
    lemma_alu_adder_vals(gs, ins, i, t);
}

/// One tick of gate `t` of bit `i` of the adder-subtractor in the ALU gives `alu_next`.
#[verifier::spinoff_prover]
proof fn lemma_alu_tick_adder(gs: Seq<GateModel>, b: int, ins: Seq<(SignalName, bool, Vec<Id>)>, i: int, t: int)
    requires
        alu_shaped(gs, b),
        0 <= i < 8,
        0 <= t < 6,
    ensures
        tick_model(alu_unit(gs, b), ins).gates[56 + 6 * i + t].active == alu_next(gs, ins, 56 + 6 * i + t),
{
    let p = 56 + 6 * i + t;
    let vals = alu_vals(gs, ins, p);
    let n = tick_model(alu_unit(gs, b), ins).gates[p].active;
    assert(n == gate_output(alu_mode(p), vals)) by {
        lemma_alu_tick_vals(gs, b, ins, p);
    }
    let mode = alu_mode(p);
    let x = vals[0];
    let y = vals[1];
    assert(vals == seq![x, y] && alu_mode(p) == (if t == 0 || t == 3 || t == 5 {
        LogicGateMode::Xor
    } else if t == 4 {
        LogicGateMode::Or
    } else {
        LogicGateMode::And
    }) && alu_next(gs, ins, p) == (if t == 0 || t == 3 || t == 5 {
        x != y
    } else if t == 4 {
        x || y
    } else {
        x && y
    })) by {
        lemma_alu_next_adder(gs, ins, i, t);
        lemma_alu_adder_vals(gs, ins, i, t);
        assert(vals =~= seq![x, y]);
    }
    lemma_two_values(mode, x, y);
}

/// One tick of the `and` or `nand` of bit `i` of the ALU gives `alu_next`.
proof fn lemma_alu_tick_logic(gs: Seq<GateModel>, b: int, ins: Seq<(SignalName, bool, Vec<Id>)>, p: int)
    requires
        alu_shaped(gs, b),
        104 <= p < 120,
    ensures
        tick_model(alu_unit(gs, b), ins).gates[p].active == alu_next(gs, ins, p),
{
    lemma_alu_tick_vals(gs, b, ins, p);
    let i = if p < 112 {
        p - 104
    } else {
        p - 112
    };
    assert((2 + 2 * i - 2) / 2 == i);
    assert((3 + 2 * i - 3) / 2 == i);
    assert((2 + 2 * i) % 2 == 0);
    assert((3 + 2 * i) % 2 == 1);
    let a = in_value(ins, SignalName('A', i as u8));
    let bb = in_value(ins, SignalName('B', i as u8));
    assert(alu_vals(gs, ins, p) =~= seq![a, bb]);
    lemma_two_values(alu_mode(p), a, bb);
    lemma_few_values(alu_mode(p), a, bb, false, false);
}

/// A tick keeps the layout of the ALU, its inputs and its outputs.
proof fn lemma_alu_tick_shape(gs: Seq<GateModel>, b: int, ins: Seq<(SignalName, bool, Vec<Id>)>)
    requires
        alu_shaped(gs, b),
    ensures
        alu_shaped(tick_model(alu_unit(gs, b), ins).gates, b),
        tick_model(alu_unit(gs, b), ins) == alu_unit(tick_model(alu_unit(gs, b), ins).gates, b),
{
    reveal(alu_layout);
    let ng = tick_model(alu_unit(gs, b), ins).gates;
    assert forall|k: int| 0 <= k < 120 implies #[trigger] ng[k] == (GateModel {
        active: ng[k].active,
        ..alu_8b_4m_gates(b)[k]
    }) by {
        assert(gs[k] == (GateModel { active: gs[k].active, ..alu_8b_4m_gates(b)[k] }));
    }
}

// ---------------------------------------------------------------------------
// The inputs as the adder-subtractor sees them

/// The inputs with `K` put first, holding the value of `S0`: what the adder-subtractor
/// inside the ALU sees.
pub open spec fn keyed(ins: Seq<(SignalName, bool, Vec<Id>)>) -> Seq<(SignalName, bool, Vec<Id>)> {
    seq![(SignalName('K', 0), in_value(ins, SignalName('S', 0)), ins[0].2)] + ins
}

/// Every input of the ALU has an emulator input.
pub open spec fn alu_inputs_present(ins: Seq<(SignalName, bool, Vec<Id>)>) -> bool {
    forall|j: int| 0 <= j < 18 ==> has_emu_input(ins, #[trigger] alu_input_name(j))
}

/// An input that is there has a first place.
proof fn lemma_first_emu_exists(ins: Seq<(SignalName, bool, Vec<Id>)>, name: SignalName, k: int)
    requires
        0 <= k < ins.len(),
        ins[k].0 == name,
    ensures
        exists|f: int| is_first_emu_input(ins, name, f),
    decreases k,
{
    if exists|j: int| 0 <= j < k && ins[j].0 == name {
        let j = choose|j: int| 0 <= j < k && ins[j].0 == name;
        lemma_first_emu_exists(ins, name, j);
    } else {
        assert(is_first_emu_input(ins, name, k));
    }
}

/// In `keyed`, `K` holds `S0`, and every other input that is there keeps its value.
proof fn lemma_keyed(ins: Seq<(SignalName, bool, Vec<Id>)>, name: SignalName)
    requires
        has_emu_input(ins, name),
        name != SignalName('K', 0),
    ensures
        in_value(keyed(ins), name) == in_value(ins, name),
        in_value(keyed(ins), SignalName('K', 0)) == in_value(ins, SignalName('S', 0)),
{
    let kd = keyed(ins);
    let k = choose|k: int| 0 <= k < ins.len() && ins[k].0 == name;
    lemma_first_emu_exists(ins, name, k);
    let f = choose|f: int| is_first_emu_input(ins, name, f);
    lemma_first_emu_input(ins, name, f);
    assert(is_first_emu_input(kd, name, f + 1)) by {
        assert forall|j: int| 0 <= j < f + 1 implies kd[j].0 != name by {
            if j > 0 {
                assert(kd[j] == ins[j - 1]);
            }
        }
    }
    lemma_first_emu_input(kd, name, f + 1);
    assert(is_first_emu_input(kd, SignalName('K', 0), 0));
    lemma_first_emu_input(kd, SignalName('K', 0), 0);
}

/// The adder-subtractor's view of the inputs of bit `i`.
proof fn lemma_keyed_bit(ins: Seq<(SignalName, bool, Vec<Id>)>, i: int)
    requires
        alu_inputs_present(ins),
        0 <= i < 8,
    ensures
        a_in(keyed(ins), i) == in_value(ins, SignalName('A', i as u8)),
        b_in(keyed(ins), i) == in_value(ins, SignalName('B', i as u8)),
        k_in(keyed(ins)) == in_value(ins, SignalName('S', 0)),
{
    assert(alu_input_name(2 + 2 * i) == SignalName('A', i as u8)) by {
        assert((2 + 2 * i) % 2 == 0 && (2 + 2 * i - 2) / 2 == i);
    }
    assert(alu_input_name(3 + 2 * i) == SignalName('B', i as u8)) by {
        assert((3 + 2 * i) % 2 == 1 && (3 + 2 * i - 3) / 2 == i);
    }
    assert(has_emu_input(ins, alu_input_name(2 + 2 * i)));
    assert(has_emu_input(ins, alu_input_name(3 + 2 * i)));
    lemma_keyed(ins, SignalName('A', i as u8));
    lemma_keyed(ins, SignalName('B', i as u8));
}

// ---------------------------------------------------------------------------
// The ALU settles

/// What output `O i` of the ALU settles to: the sum of bit `i` of `A + B` or `A - B` in
/// modes 0 and 1 (`S1` off, `S0` choosing), `A i and B i` in mode 2, `A i nand B i` in
/// mode 3.
pub open spec fn alu_result(ins: Seq<(SignalName, bool, Vec<Id>)>, i: int) -> bool {
    let s0 = in_value(ins, SignalName('S', 0));
    let s1 = in_value(ins, SignalName('S', 1));
    let a = in_value(ins, SignalName('A', i as u8));
    let bb = in_value(ins, SignalName('B', i as u8));
    if s1 {
        if s0 {
            !(a && bb)
        } else {
            a && bb
        }
    } else {
        sum_bit(keyed(ins), i)
    }
}

/// After `n` ticks, the gates of bit `i` of the ALU outside the adder-subtractor that have
/// had the time hold their final values.
pub open spec fn alu_bit_settled(gs: Seq<GateModel>, ins: Seq<(SignalName, bool, Vec<Id>)>, n: int, i: int) -> bool {
    let s0 = in_value(ins, SignalName('S', 0));
    let s1 = in_value(ins, SignalName('S', 1));
    let a = in_value(ins, SignalName('A', i as u8));
    let bb = in_value(ins, SignalName('B', i as u8));
    let sum = sum_bit(keyed(ins), i);
    &&& n >= 1 ==> gs[7 * i + 5].active == !s1 && gs[7 * i + 6].active == !s0 && gs[104 + i].active == (a && bb)
        && gs[112 + i].active == !(a && bb)
    &&& n >= 2 ==> gs[7 * i + 3].active == (s1 && !s0 && a && bb) && gs[7 * i + 4].active == (s0 && s1 && !(a
        && bb))
    &&& n >= 18 ==> gs[7 * i + 1].active == (!s1 && !s0 && sum) && gs[7 * i + 2].active == (s0 && !s1 && sum)
    &&& n >= 19 ==> gs[7 * i].active == alu_result(ins, i)
}

/// The whole ALU is settled as far as `n` ticks allow.
pub open spec fn alu_settled(gs: Seq<GateModel>, ins: Seq<(SignalName, bool, Vec<Id>)>, n: int) -> bool {
    &&& settled(gs.subrange(56, 104), keyed(ins), n)
    &&& forall|i: int| 0 <= i < 8 ==> #[trigger] alu_bit_settled(gs, ins, n, i)
}

/// One more tick settles the adder-subtractor of the ALU one more step.
proof fn lemma_alu_adder_settles(gs: Seq<GateModel>, b: int, ins: Seq<(SignalName, bool, Vec<Id>)>, n: int, i: int)
    requires
        alu_shaped(gs, b),
        alu_inputs_present(ins),
        0 <= n,
        0 <= i < 8,
        settled(gs.subrange(56, 104), keyed(ins), n),
    ensures
        bit_settled(tick_model(alu_unit(gs, b), ins).gates.subrange(56, 104), keyed(ins), n + 1, i),
{
    let ng = tick_model(alu_unit(gs, b), ins).gates;
    let sl = gs.subrange(56, 104);
    let nsl = ng.subrange(56, 104);
    let kd = keyed(ins);
    let c = 56 + 6 * i;
    lemma_alu_tick_adder(gs, b, ins, i, 0);
    lemma_alu_tick_adder(gs, b, ins, i, 1);
    lemma_alu_tick_adder(gs, b, ins, i, 2);
    lemma_alu_tick_adder(gs, b, ins, i, 3);
    lemma_alu_tick_adder(gs, b, ins, i, 4);
    lemma_alu_tick_adder(gs, b, ins, i, 5);
    assert((c - 56) / 6 == i && (c - 56) % 6 == 0);
    assert((c + 1 - 56) / 6 == i && (c + 1 - 56) % 6 == 1);
    assert((c + 2 - 56) / 6 == i && (c + 2 - 56) % 6 == 2);
    assert((c + 3 - 56) / 6 == i && (c + 3 - 56) % 6 == 3);
    assert((c + 4 - 56) / 6 == i && (c + 4 - 56) % 6 == 4);
    assert((c + 5 - 56) / 6 == i && (c + 5 - 56) % 6 == 5);
    lemma_keyed_bit(ins, i);
    assert(bit_settled(sl, kd, n, i));
    if i > 0 {
        assert(bit_settled(sl, kd, n, i - 1));
        assert(sl[6 * (i - 1) + 4] == gs[c - 2]);
    }
    assert(nsl[6 * i + 0] == ng[c]);
    assert(nsl[6 * i + 1] == ng[c + 1]);
    assert(nsl[6 * i + 2] == ng[c + 2]);
    assert(nsl[6 * i + 3] == ng[c + 3]);
    assert(nsl[6 * i + 4] == ng[c + 4]);
    assert(nsl[6 * i + 5] == ng[c + 5]);
    assert(sl[6 * i + 0] == gs[c]);
    assert(sl[6 * i + 1] == gs[c + 1]);
    assert(sl[6 * i + 2] == gs[c + 2]);
    assert(sl[6 * i + 5] == gs[c + 5]);
}

/// One more tick settles the rest of bit `i` of the ALU one more step.
proof fn lemma_alu_bit_settles(gs: Seq<GateModel>, b: int, ins: Seq<(SignalName, bool, Vec<Id>)>, n: int, i: int)
    requires
        alu_shaped(gs, b),
        alu_inputs_present(ins),
        0 <= n,
        0 <= i < 8,
        alu_settled(gs, ins, n),
    ensures
        alu_bit_settled(tick_model(alu_unit(gs, b), ins).gates, ins, n + 1, i),
{
    let ng = tick_model(alu_unit(gs, b), ins).gates;
    let sl = gs.subrange(56, 104);
    let kd = keyed(ins);
    lemma_alu_tick_mux(gs, b, ins, i, 0);
    lemma_alu_tick_mux(gs, b, ins, i, 1);
    lemma_alu_tick_mux(gs, b, ins, i, 2);
    lemma_alu_tick_mux(gs, b, ins, i, 3);
    lemma_alu_tick_mux(gs, b, ins, i, 4);
    lemma_alu_tick_mux(gs, b, ins, i, 5);
    lemma_alu_tick_mux(gs, b, ins, i, 6);
    lemma_alu_tick_logic(gs, b, ins, 104 + i);
    lemma_alu_tick_logic(gs, b, ins, 112 + i);
    assert((7 * i) / 7 == i && (7 * i) % 7 == 0);
    assert((7 * i + 1) / 7 == i && (7 * i + 1) % 7 == 1);
    assert((7 * i + 2) / 7 == i && (7 * i + 2) % 7 == 2);
    assert((7 * i + 3) / 7 == i && (7 * i + 3) % 7 == 3);
    assert((7 * i + 4) / 7 == i && (7 * i + 4) % 7 == 4);
    assert((7 * i + 5) / 7 == i && (7 * i + 5) % 7 == 5);
    assert((7 * i + 6) / 7 == i && (7 * i + 6) % 7 == 6);
    assert(alu_bit_settled(gs, ins, n, i));
    assert(bit_settled(sl, kd, n, i));
    assert(sl[6 * i + 3] == gs[56 + 6 * i + 3]);
}

/// One more tick settles the whole ALU one more step.
proof fn lemma_alu_settles(gs: Seq<GateModel>, b: int, ins: Seq<(SignalName, bool, Vec<Id>)>, n: int)
    requires
        alu_shaped(gs, b),
        alu_inputs_present(ins),
        0 <= n,
        alu_settled(gs, ins, n),
    ensures
        alu_shaped(tick_model(alu_unit(gs, b), ins).gates, b),
        alu_settled(tick_model(alu_unit(gs, b), ins).gates, ins, n + 1),
{
    let ng = tick_model(alu_unit(gs, b), ins).gates;
    lemma_alu_tick_shape(gs, b, ins);
    assert forall|i: int| 0 <= i < 8 implies #[trigger] bit_settled(ng.subrange(56, 104), keyed(ins), n + 1, i) by {
        lemma_alu_adder_settles(gs, b, ins, n, i);
    }
    assert forall|i: int| 0 <= i < 8 implies #[trigger] alu_bit_settled(ng, ins, n + 1, i) by {
        lemma_alu_bit_settles(gs, b, ins, n, i);
    }
}

/// After `n` ticks the ALU is settled as far as `n` allows.
proof fn lemma_alu_run(gs: Seq<GateModel>, b: int, ins: Seq<(SignalName, bool, Vec<Id>)>, n: nat)
    requires
        alu_shaped(gs, b),
        alu_inputs_present(ins),
    ensures
        ticks(alu_unit(gs, b), ins, n) == alu_unit(ticks(alu_unit(gs, b), ins, n).gates, b),
        alu_shaped(ticks(alu_unit(gs, b), ins, n).gates, b),
        alu_settled(ticks(alu_unit(gs, b), ins, n).gates, ins, n as int),
    decreases n,
{
    if n == 0 {
        let sl = gs.subrange(56, 104);
        assert forall|i: int| 0 <= i < 8 implies #[trigger] bit_settled(sl, keyed(ins), 0, i) by {}
        assert forall|i: int| 0 <= i < 8 implies #[trigger] alu_bit_settled(gs, ins, 0, i) by {}
    } else {
        lemma_alu_run(gs, b, ins, (n - 1) as nat);
        let prev = ticks(alu_unit(gs, b), ins, (n - 1) as nat);
        lemma_alu_settles(prev.gates, b, ins, n - 1);
        lemma_alu_tick_shape(prev.gates, b, ins);
    }
}

// ---------------------------------------------------------------------------
// The ALU computes its mode

/// The number the outputs of the first `n` multiplexers of the ALU spell, bit 0 lowest.
pub open spec fn alu_output_number(gs: Seq<GateModel>, n: int) -> int
    decreases n,
{
    if n <= 0 {
        0
    } else {
        alu_output_number(gs, n - 1) + if gs[7 * (n - 1)].active {
            pow2((n - 1) as nat) as int
        } else {
            0
        }
    }
}

/// Outputs that show the sum bits spell the sum.
proof fn lemma_alu_output_number(gs: Seq<GateModel>, ins: Seq<(SignalName, bool, Vec<Id>)>, n: int)
    requires
        0 <= n <= 8,
        forall|i: int| 0 <= i < 8 ==> #[trigger] gs[7 * i].active == sum_bit(keyed(ins), i),
    ensures
        alu_output_number(gs, n) == sum_number(keyed(ins), n),
    decreases n,
{
    if n > 0 {
        lemma_alu_output_number(gs, ins, n - 1);
        assert(gs[7 * (n - 1)].active == sum_bit(keyed(ins), n - 1));
    }
}

/// The adder-subtractor sees the numbers on `A` and `B` as they are.
proof fn lemma_keyed_number(ins: Seq<(SignalName, bool, Vec<Id>)>, letter: char, n: int)
    requires
        alu_inputs_present(ins),
        letter == 'A' || letter == 'B',
        0 <= n <= 8,
    ensures
        input_number(keyed(ins), letter, n) == input_number(ins, letter, n),
    decreases n,
{
    if n > 0 {
        lemma_keyed_number(ins, letter, n - 1);
        lemma_keyed_bit(ins, n - 1);
    }
}

/// The ALU computes: with `S0`, `S1`, `A0 .. A7` and `B0 .. B7` held, after 19 ticks,
/// whatever state its gates started in, outputs `O0 .. O7` spell `A + B` (modulo 256) in
/// mode 0 (`S0` and `S1` off) and `A - B` (modulo 256) in mode 1 (`S0` on, `S1` off); in
/// mode 2 (`S1` on, `S0` off) output `O i` is `A i and B i`, in mode 3 (both on) it is
/// `A i nand B i`.
pub proof fn law_alu_computes(u: UnitModel, b: int, ins: Seq<(SignalName, bool, Vec<Id>)>)
    requires
        alu_shaped(u.gates, b),
        u.inputs == alu_inputs_upto(b, 8),
        u.outputs == alu_outputs_upto(b, 8),
        forall|k: int| 0 <= k < u.inputs.len() ==> has_emu_input(ins, #[trigger] u.inputs[k].name),
    ensures
        ({
            let end = ticks(u, ins, 19);
            let s0 = in_value(ins, SignalName('S', 0));
            let s1 = in_value(ins, SignalName('S', 1));
            let a = input_number(ins, 'A', 8);
            let bb = input_number(ins, 'B', 8);
            &&& end.outputs == u.outputs
            &&& forall|i: int|
                0 <= i < 8 ==> #[trigger] end.outputs[i].id == end.gates[7 * i].id && end.outputs[i].name
                    == SignalName('O', i as u8)
            &&& !s1 && !s0 ==> alu_output_number(end.gates, 8) == (a + bb) % 256
            &&& !s1 && s0 ==> alu_output_number(end.gates, 8) == (a - bb + 256) % 256
            &&& forall|i: int|
                0 <= i < 8 && s1 ==> #[trigger] end.gates[7 * i].active == if s0 {
                    !(in_value(ins, SignalName('A', i as u8)) && in_value(ins, SignalName('B', i as u8)))
                } else {
                    in_value(ins, SignalName('A', i as u8)) && in_value(ins, SignalName('B', i as u8))
                }
        }),
{
    assert forall|j: int| 0 <= j < 18 implies has_emu_input(ins, #[trigger] alu_input_name(j)) by {
        lemma_alu_input(b, j);
        assert(u.inputs[j].name == alu_input_name(j));
    }
    assert(u == alu_unit(u.gates, b));
    lemma_alu_run(u.gates, b, ins, 19);
    let end = ticks(u, ins, 19);
    let kd = keyed(ins);
    let s0 = in_value(ins, SignalName('S', 0));
    let s1 = in_value(ins, SignalName('S', 1));
    assert forall|i: int| 0 <= i < 8 implies #[trigger] end.gates[7 * i].active == alu_result(ins, i) by {
        assert(alu_bit_settled(end.gates, ins, 19, i));
    }
    assert forall|i: int| 0 <= i < 8 implies #[trigger] end.outputs[i].id == end.gates[7 * i].id
        && end.outputs[i].name == SignalName('O', i as u8) by {
        lemma_alu_gate(end.gates, b, 7 * i);
    }
    if !s1 {
        assert forall|i: int| 0 <= i < 8 implies #[trigger] end.gates[7 * i].active == sum_bit(kd, i) by {
            assert(end.gates[7 * i].active == alu_result(ins, i));
        }
        lemma_alu_output_number(end.gates, ins, 8);
        lemma_ripple(kd, 8);
        lemma_flipped(kd, 8);
        lemma_keyed_number(ins, 'A', 8);
        lemma_keyed_number(ins, 'B', 8);
        lemma_keyed_bit(ins, 0);
        lemma2_to64();
    }
}

} // verus!
