use vstd::prelude::*;

use crate::decoder_law::{lemma_gate_refs_members, lemma_input_refs_members, lemma_select_contains};
use crate::emulator::{emu_input_value, gate_refs, input_refs, parents_of, ref_value, ParentRef};
use crate::laws::tick_model;
use crate::logic::{
    at, bank_gate, bank_i_ids, bank_outputs, bank_s_ids, bit_of, decoder_1_2n_gates, decoder_1_2n_inputs,
    lemma_reg_8b_index, mux_2n_1_gates, mux_2n_1_inputs, reg_1b_gates, reg_8b_inputs, reg_8b_write_ids,
    reg_bank_8b_8x_gates, reg_bank_8b_8x_inputs, select_ids,
};
use crate::logic_gate::{all_true, any_true, GateModel, LogicGateMode};
use crate::logic_unit::{first_gate, lemma_first_gate, UnitModel};
use crate::utils::{Id, SignalName};
use vstd::arithmetic::power2::lemma2_to64;

verus! {

// ---------------------------------------------------------------------------
// The register bank, by place: place `p` holds a gate with id `b + p + 1`. Read
// multiplexer `i` sits at `12 i .. 12 i + 11` (its `or`, then the `and` of register `k`
// at `12 i + 1 + k`, then the inverter of read line `t` at `12 i + 9 + t`); the write
// decoder at 96 .. 106 (inverters 96 .. 98, the `and` of register `j` at `99 + j`);
// bit `i` of register `j` at `107 + 56 j + 7 i .. + 6` (`nand1 (O), nand2, h1, h2, nand3,
// nand4, not`).

/// The gates are those of the register bank built after id `b`, in any state.
#[verifier::opaque]
pub open spec fn bank_layout(gs: Seq<GateModel>, b: int) -> bool {
    forall|k: int|
        0 <= k < 555 ==> #[trigger] gs[k] == (GateModel { active: gs[k].active, ..reg_bank_8b_8x_gates(b)[k] })
}

/// The unit is the register bank built after id `b`, its gates in any state.
pub open spec fn is_bank(u: UnitModel, b: int) -> bool {
    &&& 0 <= b
    &&& b + 555 <= u32::MAX
    &&& u.inputs == reg_bank_8b_8x_inputs(b)
    &&& u.outputs == bank_outputs(b, 8)
    &&& u.gates.len() == 555
    &&& bank_layout(u.gates, b)
}

/// The place of gate `r` of bit `i` of register `j`.
pub open spec fn cell(j: int, i: int, r: int) -> int {
    107 + 56 * j + 7 * i + r
}

/// Gate `q` of the bank drives place `p`.
pub open spec fn bank_drives(q: int, p: int) -> bool {
    if q < 96 {
        let i = q / 12;
        let r = q % 12;
        if r == 0 {
            false
        } else if r <= 8 {
            p == 12 * i
        } else {
            12 * i + 1 <= p < 12 * i + 9 && !bit_of(p - (12 * i + 1), r - 9)
        }
    } else if q < 99 {
        99 <= p < 107 && !bit_of(p - 99, q - 96)
    } else if q < 107 {
        let j = q - 99;
        107 + 56 * j <= p < 107 + 56 * j + 56 && ((p - 107) % 7 == 4 || (p - 107) % 7 == 5)
    } else {
        let j = (q - 107) / 56;
        let i = ((q - 107) % 56) / 7;
        let r = (q - 107) % 7;
        let c = cell(j, i, 0);
        if r == 0 {
            p == c + 3 || p == 12 * i + 1 + j
        } else if r == 1 {
            p == c + 2
        } else if r == 2 || r == 5 {
            p == c
        } else if r == 3 || r == 4 {
            p == c + 1
        } else {
            p == c + 4
        }
    }
}

/// The mode of gate `q` of the bank.
pub open spec fn bank_mode(q: int) -> LogicGateMode {
    if q < 96 {
        let r = q % 12;
        if r == 0 {
            LogicGateMode::Or
        } else if r <= 8 {
            LogicGateMode::And
        } else {
            LogicGateMode::Nand
        }
    } else if q < 99 {
        LogicGateMode::Nand
    } else if q < 107 {
        LogicGateMode::And
    } else {
        reg_1b_gates(0)[(q - 107) % 7].mode
    }
}

/// Membership in a list of consecutive ids.
proof fn lemma_run_contains(s: Seq<Id>, first: int, x: int)
    requires
        forall|m: int| 0 <= m < s.len() ==> #[trigger] s[m] == first + m,
        0 <= first,
        first + s.len() <= u32::MAX + 1,
        0 <= x <= u32::MAX,
    ensures
        s.contains(x as Id) <==> first <= x < first + s.len(),
{
    if first <= x < first + s.len() {
        assert(s[x - first] == x as Id);
    }
}

/// Gate `q` of the bank: its id, mode, what it drives, and where it sits.
#[verifier::spinoff_prover]
#[verifier::rlimit(60)]
pub proof fn lemma_bank_gate(u: UnitModel, b: int, q: int)
    requires
        is_bank(u, b),
        0 <= q < 555,
    ensures
        u.gates[q].id == b + 1 + q,
        u.gates[q].mode == bank_mode(q),
        forall|x: int| b + 1 <= x < b + 556 ==> (#[trigger] u.gates[q].children.contains(x as Id) <==> bank_drives(q, x - b - 1)),
        first_gate(u.gates, (b + 1 + q) as Id) == q,
{
    reveal(bank_layout);
    lemma2_to64();
    let gs = u.gates;
    assert(gs[q] == (GateModel { active: gs[q].active, ..reg_bank_8b_8x_gates(b)[q] }));
    assert(reg_bank_8b_8x_gates(b)[q] == bank_gate(b, q, 8, 0));
    let cs = gs[q].children;
    if q < 96 {
        let i = q / 12;
        let r = q % 12;
        assert(q == 12 * i + r);
        let mb = b + 12 * i;
        if 9 <= r {
            lemma_select_contains(mb + 2, r - 9, false, 8);
            assert forall|x: int| b + 1 <= x < b + 556 implies (#[trigger] cs.contains(x as Id) <==> bank_drives(q, x - b - 1)) by {
                if cs.contains(x as Id) {
                    let m = choose|m: int| 0 <= m < cs.len() && cs[m] == x as Id;
                    assert(mb + 2 <= cs[m] < mb + 10);
                }
                if mb + 2 <= x < mb + 10 {
                    assert(cs.contains((mb + 2 + (x - (mb + 2))) as Id) <==> !bit_of(x - (mb + 2), r - 9));
                }
            }
        } else if 1 <= r {
            assert forall|x: int| b + 1 <= x < b + 556 implies (#[trigger] cs.contains(x as Id) <==> bank_drives(q, x - b - 1)) by {
                if x == mb + 1 {
                    assert(cs[0] == x as Id);
                }
            }
        }
    } else if q < 99 {
        lemma_select_contains(b + 100, q - 96, false, 8);
        assert forall|x: int| b + 1 <= x < b + 556 implies (#[trigger] cs.contains(x as Id) <==> bank_drives(q, x - b - 1)) by {
            if cs.contains(x as Id) {
                let m = choose|m: int| 0 <= m < cs.len() && cs[m] == x as Id;
                assert(b + 100 <= cs[m] < b + 108);
            }
            if b + 100 <= x < b + 108 {
                assert(cs.contains((b + 100 + (x - (b + 100))) as Id) <==> !bit_of(x - (b + 100), q - 96));
            }
        }
    } else if q < 107 {
        let j = q - 99;
        let rb = b + 107 + 56 * j;
        let ws = reg_8b_write_ids(rb, 8);
        lemma_bank_write_ids(rb, 8);
        assert(decoder_1_2n_gates(b + 96, 3)[q - 96].children =~= Seq::<Id>::empty());
        assert(cs =~= ws);
        assert forall|x: int| b + 1 <= x < b + 556 implies (#[trigger] cs.contains(x as Id) <==> bank_drives(q, x - b - 1)) by {
            if cs.contains(x as Id) {
                let m = choose|m: int| 0 <= m < cs.len() && cs[m] == x as Id;
                assert(ws[m] == at(rb, 7 * (m / 2) + 5 + m % 2));
                assert(m == 2 * (m / 2) + m % 2);
            }
            let p = x - b - 1;
            if 107 + 56 * j <= p < 107 + 56 * j + 56 && ((p - 107) % 7 == 4 || (p - 107) % 7 == 5) {
                let w = p - 107 - 56 * j;
                let m = 2 * (w / 7) + (w % 7 - 4);
                assert(w == 7 * (w / 7) + w % 7);
                assert(m / 2 == w / 7 && m % 2 == w % 7 - 4);
                assert(ws[m] == x as Id);
            }
        }
    } else {
        let j = (q - 107) / 56;
        let w = (q - 107) % 56;
        let i = w / 7;
        let r = w % 7;
        assert(q - 107 == 56 * j + w);
        assert(w == 7 * i + r);
        assert((q - 107) % 7 == r);
        lemma_reg_8b_index(b + 107 + 56 * j, 8, w);
        let c = cell(j, i, 0);
        assert forall|x: int| b + 1 <= x < b + 556 implies (#[trigger] cs.contains(x as Id) <==> bank_drives(q, x - b - 1)) by {
            if cs.contains(x as Id) {
                let m = choose|m: int| 0 <= m < cs.len() && cs[m] == x as Id;
            }
            if r == 0 {
                if x - b - 1 == c + 3 {
                    assert(cs[0] == x as Id);
                }
                if x - b - 1 == 12 * i + 1 + j {
                    assert(cs[1] == x as Id);
                }
            } else {
                assert(cs[0] == at(b, bank_child_of(r, c) + 1));
                if x - b - 1 == bank_child_of(r, c) {
                    assert(cs[0] == x as Id);
                }
            }
        }
    }
    assert forall|k: int| 0 <= k < q implies gs[k].id != (b + 1 + q) as Id by {
        assert(gs[k] == (GateModel { active: gs[k].active, ..reg_bank_8b_8x_gates(b)[k] }));
        assert(reg_bank_8b_8x_gates(b)[k] == bank_gate(b, k, 8, 0));
        if k < 96 {
            assert(k == 12 * (k / 12) + k % 12);
        } else if k >= 107 {
            let kk = k - 107;
            assert(kk == 56 * (kk / 56) + kk % 56);
            lemma_reg_8b_index(b + 107 + 56 * (kk / 56), 8, kk % 56);
            assert(kk % 56 == 7 * ((kk % 56) / 7) + (kk % 56) % 7);
        }
    }
    lemma_first_gate(gs, (b + 1 + q) as Id, q);
}

/// The place that gate `r` (1 .. 6) of a one-bit register at place `c` drives.
pub open spec fn bank_child_of(r: int, c: int) -> int {
    if r == 1 {
        c + 2
    } else if r == 2 || r == 5 {
        c
    } else if r == 3 || r == 4 {
        c + 1
    } else {
        c + 4
    }
}

/// The write-enable ids of a register, one by one.
proof fn lemma_bank_write_ids(b: int, r: int)
    requires
        0 <= r <= 8,
    ensures
        reg_8b_write_ids(b, r).len() == 2 * r,
        forall|m: int| 0 <= m < 2 * r ==> #[trigger] reg_8b_write_ids(b, r)[m] == at(b, 7 * (m / 2) + 5 + m % 2),
    decreases r,
{
    if r > 0 {
        lemma_bank_write_ids(b, r - 1);
        assert forall|m: int| 0 <= m < 2 * r implies #[trigger] reg_8b_write_ids(b, r)[m] == at(
            b,
            7 * (m / 2) + 5 + m % 2,
        ) by {
            if m >= 2 * (r - 1) {
                assert(m / 2 == r - 1);
                assert(m % 2 == m - 2 * (r - 1));
            }
        }
    }
}

/// Input `j` of the bank (`W`, `S0 .. S2`, `s0 .. s2`, `I0 .. I7`) drives
/// place `p`.
pub open spec fn bank_input_drives(j: int, p: int) -> bool {
    if j == 0 {
        99 <= p < 107
    } else if j < 4 {
        (99 <= p < 107 && bit_of(p - 99, j - 1)) || p == 96 + (j - 1)
    } else if j < 7 {
        0 <= p < 96 && (p % 12 == 9 + (j - 4) || (1 <= p % 12 <= 8 && bit_of(p % 12 - 1, j - 4)))
    } else {
        107 <= p < 555 && ((p - 107) % 56) / 7 == j - 7 && ((p - 107) % 7 == 5 || (p - 107) % 7 == 6)
    }
}

/// The name of input `j` of the bank.
pub open spec fn bank_input_name(j: int) -> SignalName {
    if j == 0 {
        SignalName('W', 0)
    } else if j < 4 {
        SignalName('S', (j - 1) as u8)
    } else if j < 7 {
        SignalName('s', (j - 4) as u8)
    } else {
        SignalName('I', (j - 7) as u8)
    }
}

/// The read-line ids of the first `m` multiplexers.
proof fn lemma_bank_s_ids(b: int, t: int, m: int)
    requires
        0 <= b,
        b + 555 <= u32::MAX,
        0 <= t < 3,
        0 <= m <= 8,
    ensures
        forall|x: int|
            b + 1 <= x < b + 556 ==> (#[trigger] bank_s_ids(b, t, m).contains(x as Id) <==> (x - b - 1 < 12 * m
                && bank_input_drives(4 + t, x - b - 1))),
    decreases m,
{
    lemma2_to64();
    if m > 0 {
        lemma_bank_s_ids(b, t, m - 1);
        let prev = bank_s_ids(b, t, m - 1);
        let mb = b + 12 * (m - 1);
        let chunk = mux_2n_1_inputs(mb, 3)[t].ids;
        let sel = select_ids(mb + 2, t, true, 8);
        lemma_select_contains(mb + 2, t, true, 8);
        assert(chunk == seq![at(mb, 2 + 8 + t)] + sel);
        let cur = bank_s_ids(b, t, m);
        assert(cur == prev + chunk);
        assert forall|x: int| b + 1 <= x < b + 556 implies (#[trigger] cur.contains(x as Id) <==> (x - b - 1 < 12
            * m && bank_input_drives(4 + t, x - b - 1))) by {
            let p = x - b - 1;
            if cur.contains(x as Id) {
                let k = choose|k: int| 0 <= k < cur.len() && cur[k] == x as Id;
                if k >= prev.len() {
                    let kk = k - prev.len();
                    if kk >= 1 {
                        assert(sel[kk - 1] == x as Id);
                        assert(mb + 2 <= x < mb + 10);
                        assert(sel.contains((mb + 2 + (x - (mb + 2))) as Id));
                        assert(p % 12 == p - 12 * (m - 1));
                    } else {
                        assert(p == 12 * (m - 1) + 9 + t);
                        assert(p % 12 == 9 + t);
                    }
                } else {
                    assert(prev[k] == x as Id);
                    assert(prev.contains(x as Id));
                }
            }
            if p < 12 * m && bank_input_drives(4 + t, p) {
                if p < 12 * (m - 1) {
                    assert(prev.contains(x as Id));
                    let k = choose|k: int| 0 <= k < prev.len() && prev[k] == x as Id;
                    assert(cur[k] == prev[k]);
                } else {
                    assert(p % 12 == p - 12 * (m - 1));
                    if p % 12 == 9 + t {
                        assert(cur[prev.len() as int] == x as Id);
                    } else {
                        assert(sel.contains((mb + 2 + (x - (mb + 2))) as Id));
                        let k = choose|k: int| 0 <= k < sel.len() && sel[k] == x as Id;
                        assert(cur[prev.len() + 1 + k] == x as Id);
                    }
                }
            }
        }
    }
}

/// The data-line ids of the first `cnt` registers.
proof fn lemma_bank_i_ids(b: int, i: int, cnt: int)
    requires
        0 <= b,
        b + 555 <= u32::MAX,
        0 <= i < 8,
        0 <= cnt <= 8,
    ensures
        forall|x: int|
            b + 1 <= x < b + 556 ==> (#[trigger] bank_i_ids(b, i, cnt).contains(x as Id) <==> (x - b - 1 < 107 + 56
                * cnt && bank_input_drives(7 + i, x - b - 1))),
    decreases cnt,
{
    if cnt > 0 {
        lemma_bank_i_ids(b, i, cnt - 1);
        let prev = bank_i_ids(b, i, cnt - 1);
        let rb = b + 107 + 56 * (cnt - 1);
        let chunk = reg_8b_inputs(rb)[1 + i].ids;
        assert(chunk == seq![at(rb, 7 * i + 6), at(rb, 7 * i + 7)]);
        let cur = bank_i_ids(b, i, cnt);
        assert(cur == prev + chunk);
        assert forall|x: int| b + 1 <= x < b + 556 implies (#[trigger] cur.contains(x as Id) <==> (x - b - 1 < 107
            + 56 * cnt && bank_input_drives(7 + i, x - b - 1))) by {
            let p = x - b - 1;
            if cur.contains(x as Id) {
                let k = choose|k: int| 0 <= k < cur.len() && cur[k] == x as Id;
                if k >= prev.len() {
                    assert(p - 107 == 56 * (cnt - 1) + 7 * i + 5 + (k - prev.len()));
                } else {
                    assert(prev[k] == x as Id);
                    assert(prev.contains(x as Id));
                }
            }
            if p < 107 + 56 * cnt && bank_input_drives(7 + i, p) {
                if p < 107 + 56 * (cnt - 1) {
                    assert(prev.contains(x as Id));
                    let k = choose|k: int| 0 <= k < prev.len() && prev[k] == x as Id;
                    assert(cur[k] == prev[k]);
                } else {
                    assert((p - 107) % 56 == p - 107 - 56 * (cnt - 1));
                    assert(cur[prev.len() + ((p - 107) % 7 - 5)] == x as Id);
                }
            }
        }
    }
}

/// Input `j` of the bank: its name, and the gates it drives.
#[verifier::spinoff_prover]
pub proof fn lemma_bank_input(b: int, j: int)
    requires
        0 <= b,
        b + 555 <= u32::MAX,
        0 <= j < 15,
    ensures
        reg_bank_8b_8x_inputs(b).len() == 15,
        reg_bank_8b_8x_inputs(b)[j].name == bank_input_name(j),
        forall|x: int|
            b + 1 <= x < b + 556 ==> (#[trigger] reg_bank_8b_8x_inputs(b)[j].ids.contains(x as Id)
                <==> bank_input_drives(j, x - b - 1)),
{
    lemma2_to64();
    let ins = reg_bank_8b_8x_inputs(b);
    let ids = ins[j].ids;
    let dec = decoder_1_2n_inputs(b + 96, 3);
    if j == 0 {
        assert(ids == dec[3].ids);
        assert(dec[3].ids =~= Seq::new(8, |i: int| at(b + 96, 1 + 3 + i)));
        assert forall|x: int| b + 1 <= x < b + 556 implies (#[trigger] ids.contains(x as Id) <==> bank_input_drives(j, x - b - 1)) by {
            lemma_run_contains(ids, b + 100, x);
        }
    } else if j < 4 {
        let t = j - 1;
        let sel = select_ids(b + 100, t, true, 8);
        lemma_select_contains(b + 100, t, true, 8);
        assert(ids == sel.push(at(b + 96, 1 + t)));
        assert forall|x: int| b + 1 <= x < b + 556 implies (#[trigger] ids.contains(x as Id) <==> bank_input_drives(j, x - b - 1)) by {
            if ids.contains(x as Id) {
                let m = choose|m: int| 0 <= m < ids.len() && ids[m] == x as Id;
                if m < sel.len() {
                    assert(sel[m] == x as Id);
                    assert(sel.contains((b + 100 + (x - (b + 100))) as Id));
                }
            }
            if b + 100 <= x < b + 108 && bit_of(x - (b + 100), t) {
                assert(sel.contains((b + 100 + (x - (b + 100))) as Id));
                let m = choose|m: int| 0 <= m < sel.len() && sel[m] == x as Id;
                assert(ids[m] == sel[m]);
            }
            if x == b + 97 + t {
                assert(ids[sel.len() as int] == x as Id);
            }
        }
    } else if j < 7 {
        lemma_bank_s_ids(b, j - 4, 8);
    } else {
        lemma_bank_i_ids(b, j - 7, 8);
    }
}

// ---------------------------------------------------------------------------
// One tick of the bank

/// The value on input `name`.
pub open spec fn in_value(ins: Seq<(SignalName, bool, Vec<Id>)>, name: SignalName) -> bool {
    emu_input_value(ins, name)
}

/// The values that reach place `p` of the bank.
pub open spec fn bank_vals(u: UnitModel, ins: Seq<(SignalName, bool, Vec<Id>)>, b: int, p: int) -> Seq<bool> {
    parents_of(u, (b + 1 + p) as Id).map_values(|r: ParentRef| ref_value(u.gates, ins, r))
}

/// Some input drives place `p`, and is on.
pub open spec fn some_input_on(ins: Seq<(SignalName, bool, Vec<Id>)>, p: int) -> bool {
    exists|j: int| 0 <= j < 15 && bank_input_drives(j, p) && #[trigger] in_value(ins, bank_input_name(j))
}

/// Some gate drives place `p`, and is on.
pub open spec fn some_gate_on(gs: Seq<GateModel>, p: int) -> bool {
    exists|q: int| 0 <= q < 555 && bank_drives(q, p) && #[trigger] gs[q].active
}

/// Every input that drives place `p` is on.
pub open spec fn all_inputs_on(ins: Seq<(SignalName, bool, Vec<Id>)>, p: int) -> bool {
    forall|j: int| 0 <= j < 15 && bank_input_drives(j, p) ==> #[trigger] in_value(ins, bank_input_name(j))
}

/// Every gate that drives place `p` is on.
pub open spec fn all_gates_on(gs: Seq<GateModel>, p: int) -> bool {
    forall|q: int| 0 <= q < 555 && bank_drives(q, p) ==> #[trigger] gs[q].active
}

/// What reaches place `p`: its drivers are exactly the inputs and gates that drive it.
#[verifier::spinoff_prover]
proof fn lemma_bank_vals(u: UnitModel, b: int, ins: Seq<(SignalName, bool, Vec<Id>)>, p: int)
    requires
        is_bank(u, b),
        0 <= p < 555,
    ensures
        all_true(bank_vals(u, ins, b, p)) <==> all_inputs_on(ins, p) && all_gates_on(u.gates, p),
        any_true(bank_vals(u, ins, b, p)) <==> some_input_on(ins, p) || some_gate_on(u.gates, p),
        (exists|j: int| 0 <= j < 15 && #[trigger] bank_input_drives(j, p)) ==> bank_vals(u, ins, b, p).len() > 0,
        (exists|q: int| 0 <= q < 555 && #[trigger] bank_drives(q, p)) ==> bank_vals(u, ins, b, p).len() > 0,
{
    let x = (b + 1 + p) as Id;
    let ps = parents_of(u, x);
    let ir = input_refs(u.inputs, x);
    let gr = gate_refs(u.gates, x);
    lemma_input_refs_members(u.inputs, x);
    lemma_gate_refs_members(u.gates, x);
    assert(ps == ir + gr);
    let vals = bank_vals(u, ins, b, p);
    lemma_bank_input(b, 0);
    // each input driver is a listed input, and each listed input is a driver
    assert forall|m: int| 0 <= m < ir.len() implies exists|j: int|
        0 <= j < 15 && bank_input_drives(j, p) && #[trigger] ir[m] == ParentRef::Input(bank_input_name(j)) by {
        let j = choose|j: int|
            0 <= j < u.inputs.len() && u.inputs[j].ids.contains(x) && ir[m] == ParentRef::Input(u.inputs[j].name);
        lemma_bank_input(b, j);
        assert(bank_input_drives(j, p));
    }
    assert forall|m: int| 0 <= m < gr.len() implies exists|q: int|
        0 <= q < 555 && bank_drives(q, p) && #[trigger] gr[m] == ParentRef::Gate((b + 1 + q) as Id) by {
        let q = choose|q: int|
            0 <= q < u.gates.len() && u.gates[q].children.contains(x) && gr[m] == ParentRef::Gate(u.gates[q].id);
        lemma_bank_gate(u, b, q);
        assert(bank_drives(q, p));
    }
    assert forall|j: int| 0 <= j < 15 && bank_input_drives(j, p) implies ir.contains(
        ParentRef::Input(#[trigger] bank_input_name(j)),
    ) by {
        lemma_bank_input(b, j);
        assert(u.inputs[j].ids.contains(x));
    }
    assert forall|q: int| 0 <= q < 555 && bank_drives(q, p) implies gr.contains(
        ParentRef::Gate(#[trigger] ((b + 1 + q) as Id)),
    ) by {
        lemma_bank_gate(u, b, q);
        assert(u.gates[q].children.contains(x));
    }
    // the values
    assert forall|m: int| 0 <= m < ir.len() implies vals[m] == ref_value(u.gates, ins, #[trigger] ir[m]) by {
        assert(ps[m] == ir[m]);
    }
    assert forall|m: int| 0 <= m < gr.len() implies vals[ir.len() + m] == ref_value(u.gates, ins, #[trigger] gr[m]) by {
        assert(ps[ir.len() + m] == gr[m]);
    }
    assert forall|q: int| 0 <= q < 555 implies #[trigger] ref_value(u.gates, ins, ParentRef::Gate((b + 1 + q) as Id))
        == u.gates[q].active by {
        lemma_bank_gate(u, b, q);
    }
    if all_true(vals) {
        assert forall|j: int| 0 <= j < 15 && bank_input_drives(j, p) implies #[trigger] in_value(
            ins,
            bank_input_name(j),
        ) by {
            assert(ir.contains(ParentRef::Input(bank_input_name(j))));
            let m = choose|m: int| 0 <= m < ir.len() && ir[m] == ParentRef::Input(bank_input_name(j));
            assert(vals[m]);
        }
        assert forall|q: int| 0 <= q < 555 && bank_drives(q, p) implies #[trigger] u.gates[q].active by {
            assert(gr.contains(ParentRef::Gate((b + 1 + q) as Id)));
            let m = choose|m: int| 0 <= m < gr.len() && gr[m] == ParentRef::Gate((b + 1 + q) as Id);
            assert(vals[ir.len() + m]);
            assert(ref_value(u.gates, ins, ParentRef::Gate((b + 1 + q) as Id)) == u.gates[q].active);
        }
    }
    if all_inputs_on(ins, p) && all_gates_on(u.gates, p) {
        assert forall|m: int| 0 <= m < vals.len() implies vals[m] by {
            if m < ir.len() {
                let j = choose|j: int|
                    0 <= j < 15 && bank_input_drives(j, p) && #[trigger] ir[m] == ParentRef::Input(bank_input_name(j));
                assert(in_value(ins, bank_input_name(j)));
            } else {
                let mm = m - ir.len();
                let q = choose|q: int|
                    0 <= q < 555 && bank_drives(q, p) && #[trigger] gr[mm] == ParentRef::Gate((b + 1 + q) as Id);
                assert(u.gates[q].active);
                assert(ref_value(u.gates, ins, ParentRef::Gate((b + 1 + q) as Id)) == u.gates[q].active);
            }
        }
    }
    if any_true(vals) {
        let m = choose|m: int| 0 <= m < vals.len() && vals[m];
        if m < ir.len() {
            let j = choose|j: int|
                0 <= j < 15 && bank_input_drives(j, p) && #[trigger] ir[m] == ParentRef::Input(bank_input_name(j));
            assert(in_value(ins, bank_input_name(j)));
        } else {
            let mm = m - ir.len();
            let q = choose|q: int|
                0 <= q < 555 && bank_drives(q, p) && #[trigger] gr[mm] == ParentRef::Gate((b + 1 + q) as Id);
            assert(ref_value(u.gates, ins, ParentRef::Gate((b + 1 + q) as Id)) == u.gates[q].active);
            assert(u.gates[q].active);
        }
    }
    if some_input_on(ins, p) {
        let j = choose|j: int| 0 <= j < 15 && bank_input_drives(j, p) && #[trigger] in_value(ins, bank_input_name(j));
        assert(ir.contains(ParentRef::Input(bank_input_name(j))));
        let m = choose|m: int| 0 <= m < ir.len() && ir[m] == ParentRef::Input(bank_input_name(j));
        assert(vals[m]);
    }
    if some_gate_on(u.gates, p) {
        let q = choose|q: int| 0 <= q < 555 && bank_drives(q, p) && #[trigger] u.gates[q].active;
        assert(gr.contains(ParentRef::Gate((b + 1 + q) as Id)));
        let m = choose|m: int| 0 <= m < gr.len() && gr[m] == ParentRef::Gate((b + 1 + q) as Id);
        assert(vals[ir.len() + m]);
    }
    if exists|j: int| 0 <= j < 15 && #[trigger] bank_input_drives(j, p) {
        let j = choose|j: int| 0 <= j < 15 && #[trigger] bank_input_drives(j, p);
        assert(ir.contains(ParentRef::Input(bank_input_name(j))));
    }
    if exists|q: int| 0 <= q < 555 && #[trigger] bank_drives(q, p) {
        let q = choose|q: int| 0 <= q < 555 && #[trigger] bank_drives(q, p);
        assert(gr.contains(ParentRef::Gate((b + 1 + q) as Id)));
    }
}

/// One tick of place `p` of the bank: its mode applied to `bank_vals`.
proof fn lemma_bank_tick(u: UnitModel, b: int, ins: Seq<(SignalName, bool, Vec<Id>)>, p: int)
    requires
        is_bank(u, b),
        0 <= p < 555,
    ensures
        tick_model(u, ins).gates[p].active == crate::logic_gate::gate_output(bank_mode(p), bank_vals(u, ins, b, p)),
{
    lemma_bank_gate(u, b, p);
}

/// A tick keeps the bank's layout.
proof fn lemma_bank_tick_shape(u: UnitModel, b: int, ins: Seq<(SignalName, bool, Vec<Id>)>)
    requires
        is_bank(u, b),
    ensures
        is_bank(tick_model(u, ins), b),
{
    reveal(bank_layout);
    let t = tick_model(u, ins);
    assert forall|k: int| 0 <= k < 555 implies #[trigger] t.gates[k] == (GateModel {
        active: t.gates[k].active,
        ..reg_bank_8b_8x_gates(b)[k]
    }) by {
        assert(u.gates[k] == (GateModel { active: u.gates[k].active, ..reg_bank_8b_8x_gates(b)[k] }));
    }
}

/// Only the listed gates drive a gate of bit `i` of register `j`.
#[verifier::spinoff_prover]
proof fn lemma_bank_cell_drivers(j: int, i: int)
    requires
        0 <= j < 8,
        0 <= i < 8,
    ensures
        ({
            let c = cell(j, i, 0);
            &&& forall|q: int| 0 <= q < 555 && #[trigger] bank_drives(q, c) ==> q == c + 2 || q == c + 5
            &&& forall|q: int| 0 <= q < 555 && #[trigger] bank_drives(q, c + 1) ==> q == c + 3 || q == c + 4
            &&& forall|q: int| 0 <= q < 555 && #[trigger] bank_drives(q, c + 2) ==> q == c + 1
            &&& forall|q: int| 0 <= q < 555 && #[trigger] bank_drives(q, c + 3) ==> q == c
            &&& forall|q: int| 0 <= q < 555 && #[trigger] bank_drives(q, c + 4) ==> q == 99 + j || q == c + 6
            &&& forall|q: int| 0 <= q < 555 && #[trigger] bank_drives(q, c + 5) ==> q == 99 + j
            &&& forall|q: int| 0 <= q < 555 ==> !#[trigger] bank_drives(q, c + 6)
            &&& bank_drives(c + 2, c) && bank_drives(c + 5, c) && bank_drives(c + 3, c + 1) && bank_drives(c + 4, c + 1)
            &&& bank_drives(c + 1, c + 2) && bank_drives(c, c + 3) && bank_drives(99 + j, c + 4) && bank_drives(c + 6, c + 4)
            &&& bank_drives(99 + j, c + 5)
            &&& forall|k: int| 0 <= k < 15 && #[trigger] bank_input_drives(k, c) ==> false
            &&& forall|k: int| 0 <= k < 15 && #[trigger] bank_input_drives(k, c + 1) ==> false
            &&& forall|k: int| 0 <= k < 15 && #[trigger] bank_input_drives(k, c + 2) ==> false
            &&& forall|k: int| 0 <= k < 15 && #[trigger] bank_input_drives(k, c + 3) ==> false
            &&& forall|k: int| 0 <= k < 15 && #[trigger] bank_input_drives(k, c + 4) ==> false
            &&& forall|k: int| 0 <= k < 15 && #[trigger] bank_input_drives(k, c + 5) ==> k == 7 + i
            &&& forall|k: int| 0 <= k < 15 && #[trigger] bank_input_drives(k, c + 6) ==> k == 7 + i
            &&& bank_input_drives(7 + i, c + 5) && bank_input_drives(7 + i, c + 6)
        }),
{
    let c = cell(j, i, 0);
    assert(((c - 107) % 56) / 7 == i && (c - 107) % 7 == 0 && (c - 107) / 56 == j);
    assert forall|r: int| 0 <= r < 7 implies ((#[trigger] cell(j, i, r) - 107) % 56) / 7 == i && (cell(j, i, r) - 107) % 7 == r
        && (cell(j, i, r) - 107) / 56 == j by {}
    assert(cell(j, i, 1) == c + 1 && cell(j, i, 2) == c + 2 && cell(j, i, 3) == c + 3);
    assert(cell(j, i, 4) == c + 4 && cell(j, i, 5) == c + 5 && cell(j, i, 6) == c + 6);
    assert forall|q: int, p: int| 0 <= q < 555 && c <= p < c + 7 && #[trigger] bank_drives(q, p) implies (q >= 107 && (q - 107)
        / 56 == j && ((q - 107) % 56) / 7 == i) || q == 99 + j by {
        if q >= 107 {
            let jj = (q - 107) / 56;
            let ii = ((q - 107) % 56) / 7;
            let rr = (q - 107) % 7;
            assert(q - 107 == 56 * jj + 7 * ii + rr);
        } else if q < 96 {
        } else if q < 99 {
        } else {
            assert((p - 107) % 7 == 4 || (p - 107) % 7 == 5);
        }
    }
}

/// One tick of bit `i` of register `j`: as a one-bit register whose write enable is the
/// decoder's `and` of register `j`.
proof fn lemma_bank_tick_cell(u: UnitModel, b: int, ins: Seq<(SignalName, bool, Vec<Id>)>, j: int, i: int)
    requires
        is_bank(u, b),
        0 <= j < 8,
        0 <= i < 8,
    ensures
        ({
            let t = tick_model(u, ins).gates;
            let g = u.gates;
            let c = cell(j, i, 0);
            let w = g[99 + j].active;
            let x = in_value(ins, SignalName('I', i as u8));
            &&& t[c].active == !(g[c + 2].active && g[c + 5].active)
            &&& t[c + 1].active == !(g[c + 3].active && g[c + 4].active)
            &&& t[c + 2].active == g[c + 1].active
            &&& t[c + 3].active == g[c].active
            &&& t[c + 4].active == !(w && g[c + 6].active)
            &&& t[c + 5].active == !(x && w)
            &&& t[c + 6].active == !x
        }),
{
    let c = cell(j, i, 0);
    lemma_bank_cell_drivers(j, i);
    assert(bank_input_name(7 + i) == SignalName('I', i as u8));
    let g = u.gates;
    assert forall|r: int| 0 <= r < 7 implies bank_mode(#[trigger] (c + r)) == reg_1b_gates(0)[r].mode by {
        assert((c + r - 107) % 7 == r);
    }
    assert(bank_mode(c) == LogicGateMode::Nand);
    assert(bank_mode(c + 1) == LogicGateMode::Nand);
    assert(bank_mode(c + 2) == LogicGateMode::And);
    assert(bank_mode(c + 3) == LogicGateMode::And);
    assert(bank_mode(c + 4) == LogicGateMode::Nand);
    assert(bank_mode(c + 5) == LogicGateMode::Nand);
    assert(bank_mode(c + 6) == LogicGateMode::Nand);
    lemma_bank_vals(u, b, ins, c);
    lemma_bank_vals(u, b, ins, c + 1);
    lemma_bank_vals(u, b, ins, c + 2);
    lemma_bank_vals(u, b, ins, c + 3);
    lemma_bank_vals(u, b, ins, c + 4);
    lemma_bank_vals(u, b, ins, c + 5);
    lemma_bank_vals(u, b, ins, c + 6);
    lemma_bank_tick(u, b, ins, c);
    lemma_bank_tick(u, b, ins, c + 1);
    lemma_bank_tick(u, b, ins, c + 2);
    lemma_bank_tick(u, b, ins, c + 3);
    lemma_bank_tick(u, b, ins, c + 4);
    lemma_bank_tick(u, b, ins, c + 5);
    lemma_bank_tick(u, b, ins, c + 6);
    assert(all_gates_on(g, c) == (g[c + 2].active && g[c + 5].active));
    assert(all_gates_on(g, c + 1) == (g[c + 3].active && g[c + 4].active));
    assert(all_gates_on(g, c + 2) == g[c + 1].active);
    assert(all_gates_on(g, c + 3) == g[c].active);
    assert(all_gates_on(g, c + 4) == (g[99 + j].active && g[c + 6].active));
    assert(all_gates_on(g, c + 5) == g[99 + j].active);
    assert(all_gates_on(g, c + 6));
    assert(all_inputs_on(ins, c));
    assert(all_inputs_on(ins, c + 1));
    assert(all_inputs_on(ins, c + 2));
    assert(all_inputs_on(ins, c + 3));
    assert(all_inputs_on(ins, c + 4));
    assert(all_inputs_on(ins, c + 5) == in_value(ins, SignalName('I', i as u8)));
    assert(all_inputs_on(ins, c + 6) == in_value(ins, SignalName('I', i as u8)));
}

/// One tick of the write decoder: inverter `t` becomes `not S t`; the `and` of register
/// `m` becomes on when `W` is on, the address lines set in `m` are on and the inverters
/// of the others were on.
#[verifier::spinoff_prover]
proof fn lemma_bank_tick_decoder(u: UnitModel, b: int, ins: Seq<(SignalName, bool, Vec<Id>)>, t: int, m: int)
    requires
        is_bank(u, b),
        0 <= t < 3,
        0 <= m < 8,
    ensures
        tick_model(u, ins).gates[96 + t].active == !in_value(ins, SignalName('S', t as u8)),
        tick_model(u, ins).gates[99 + m].active == (in_value(ins, SignalName('W', 0)) && (forall|k: int|
            0 <= k < 3 && bit_of(m, k) ==> #[trigger] in_value(ins, SignalName('S', k as u8))) && (forall|k: int|
            0 <= k < 3 && !bit_of(m, k) ==> #[trigger] u.gates[96 + k].active)),
{
    let g = u.gates;
    lemma_bank_vals(u, b, ins, 96 + t);
    lemma_bank_tick(u, b, ins, 96 + t);
    assert forall|q: int| 0 <= q < 555 implies !#[trigger] bank_drives(q, 96 + t) by {
        if q >= 107 {
            let jj = (q - 107) / 56;
            let ii = ((q - 107) % 56) / 7;
            assert(q - 107 == 56 * jj + 7 * ii + (q - 107) % 7);
        }
    }
    assert(bank_input_drives(1 + t, 96 + t));
    assert(bank_input_name(1 + t) == SignalName('S', t as u8));
    assert forall|k: int| 0 <= k < 15 && #[trigger] bank_input_drives(k, 96 + t) implies k == 1 + t by {}
    assert(all_inputs_on(ins, 96 + t) == in_value(ins, SignalName('S', t as u8)));
    assert(all_gates_on(g, 96 + t));
    let p = 99 + m;
    lemma_bank_vals(u, b, ins, p);
    lemma_bank_tick(u, b, ins, p);
    assert(bank_input_drives(0, p));
    assert forall|q: int| 0 <= q < 555 && #[trigger] bank_drives(q, p) implies 96 <= q < 99 && !bit_of(m, q - 96) by {
        if q >= 107 {
            let jj = (q - 107) / 56;
            let ii = ((q - 107) % 56) / 7;
            assert(q - 107 == 56 * jj + 7 * ii + (q - 107) % 7);
        }
    }
    assert forall|k: int| 0 <= k < 3 && !bit_of(m, k) implies #[trigger] bank_drives(96 + k, p) by {}
    assert forall|k: int| 0 <= k < 15 && #[trigger] bank_input_drives(k, p) implies k == 0 || (1 <= k < 4 && bit_of(
        m,
        k - 1,
    )) by {}
    assert forall|k: int| 0 <= k < 3 && bit_of(m, k) implies #[trigger] bank_input_drives(1 + k, p) by {}
    let sall = forall|k: int| 0 <= k < 3 && bit_of(m, k) ==> #[trigger] in_value(ins, SignalName('S', k as u8));
    let iall = forall|k: int| 0 <= k < 3 && !bit_of(m, k) ==> #[trigger] g[96 + k].active;
    if all_inputs_on(ins, p) {
        assert(in_value(ins, bank_input_name(0)));
        assert forall|k: int| 0 <= k < 3 && bit_of(m, k) implies #[trigger] in_value(ins, SignalName('S', k as u8)) by {
            assert(bank_input_drives(1 + k, p));
            assert(bank_input_name(1 + k) == SignalName('S', k as u8));
        }
    }
    if in_value(ins, SignalName('W', 0)) && sall {
        assert forall|k: int| 0 <= k < 15 && bank_input_drives(k, p) implies #[trigger] in_value(ins, bank_input_name(k)) by {
            if k > 0 {
                assert(bank_input_name(k) == SignalName('S', (k - 1) as u8));
            }
        }
    }
    if all_gates_on(g, p) {
        assert forall|k: int| 0 <= k < 3 && !bit_of(m, k) implies #[trigger] g[96 + k].active by {
            assert(bank_drives(96 + k, p));
        }
    }
    if iall {
        assert forall|q: int| 0 <= q < 555 && bank_drives(q, p) implies #[trigger] g[q].active by {
            assert(g[96 + (q - 96)].active);
        }
    }
}

/// One tick of inverter `t` of read multiplexer `i`: it becomes `not s t`.
#[verifier::spinoff_prover]
proof fn lemma_bank_tick_mux_inverter(u: UnitModel, b: int, ins: Seq<(SignalName, bool, Vec<Id>)>, i: int, t: int)
    requires
        is_bank(u, b),
        0 <= i < 8,
        0 <= t < 3,
    ensures
        tick_model(u, ins).gates[12 * i + 9 + t].active == !in_value(ins, SignalName('s', t as u8)),
{
    let g = u.gates;
    // the inverter
    let pv = 12 * i + 9 + t;
    assert(pv % 12 == 9 + t);
    lemma_bank_vals(u, b, ins, pv);
    lemma_bank_tick(u, b, ins, pv);
    assert forall|q: int| 0 <= q < 555 implies !#[trigger] bank_drives(q, pv) by {
        if q < 96 {
            assert(q == 12 * (q / 12) + q % 12);
        } else if q >= 107 {
            let jj = (q - 107) / 56;
            let ii = ((q - 107) % 56) / 7;
            assert(q - 107 == 56 * jj + 7 * ii + (q - 107) % 7);
        }
    }
    assert(bank_input_drives(4 + t, pv));
    assert forall|n: int| 0 <= n < 15 && #[trigger] bank_input_drives(n, pv) implies n == 4 + t by {}
    assert(bank_input_name(4 + t) == SignalName('s', t as u8));
    assert(all_inputs_on(ins, pv) == in_value(ins, SignalName('s', t as u8)));
    assert(all_gates_on(g, pv));
}

/// What drives the `and` of register `k` in read multiplexer `i`.
#[verifier::spinoff_prover]
proof fn lemma_bank_mux_and_drivers(i: int, k: int)
    requires
        0 <= i < 8,
        0 <= k < 8,
    ensures
        ({
            let pa = 12 * i + 1 + k;
            let c = cell(k, i, 0);
            &&& bank_drives(c, pa)
            &&& forall|q: int|
                0 <= q < 555 && #[trigger] bank_drives(q, pa) ==> q == c || (12 * i + 9 <= q < 12 * i + 12 && !bit_of(
                    k,
                    q - (12 * i + 9),
                ))
            &&& forall|n: int| 0 <= n < 3 && !bit_of(k, n) ==> #[trigger] bank_drives(12 * i + 9 + n, pa)
            &&& forall|n: int| 0 <= n < 15 && #[trigger] bank_input_drives(n, pa) ==> 4 <= n < 7 && bit_of(k, n - 4)
            &&& forall|n: int| 0 <= n < 3 && bit_of(k, n) ==> #[trigger] bank_input_drives(4 + n, pa)
        }),
{
    let pa = 12 * i + 1 + k;
    let c = cell(k, i, 0);
    assert(pa % 12 == 1 + k && pa / 12 == i);
    assert((c - 107) / 56 == k && ((c - 107) % 56) / 7 == i && (c - 107) % 7 == 0);
    assert forall|q: int| 0 <= q < 555 && #[trigger] bank_drives(q, pa) implies q == c || (12 * i + 9 <= q < 12 * i + 12
        && !bit_of(k, q - (12 * i + 9))) by {
        if q < 96 {
            assert(q == 12 * (q / 12) + q % 12);
        } else if q >= 107 {
            let jj = (q - 107) / 56;
            let ii = ((q - 107) % 56) / 7;
            assert(q - 107 == 56 * jj + 7 * ii + (q - 107) % 7);
        }
    }
    assert forall|n: int| 0 <= n < 3 && !bit_of(k, n) implies #[trigger] bank_drives(12 * i + 9 + n, pa) by {
        assert((12 * i + 9 + n) / 12 == i && (12 * i + 9 + n) % 12 == 9 + n);
    }
}

/// One tick of the `and` of register `k` in read multiplexer `i`: it becomes on when the
/// read lines set in `k` are on, the inverters of the others were on, and bit `i` of
/// register `k` was on.
#[verifier::spinoff_prover]
proof fn lemma_bank_tick_mux_and(u: UnitModel, b: int, ins: Seq<(SignalName, bool, Vec<Id>)>, i: int, k: int)
    requires
        is_bank(u, b),
        0 <= i < 8,
        0 <= k < 8,
    ensures
        tick_model(u, ins).gates[12 * i + 1 + k].active == ((forall|n: int|
            0 <= n < 3 && bit_of(k, n) ==> #[trigger] in_value(ins, SignalName('s', n as u8))) && (forall|n: int|
            0 <= n < 3 && !bit_of(k, n) ==> #[trigger] u.gates[12 * i + 9 + n].active) && u.gates[cell(
            k,
            i,
            0,
        )].active),
{
    let g = u.gates;
    let pa = 12 * i + 1 + k;
    let c = cell(k, i, 0);
    assert(pa % 12 == 1 + k);
    assert(bank_mode(pa) == LogicGateMode::And);
    lemma_bank_mux_and_drivers(i, k);
    lemma_bank_vals(u, b, ins, pa);
    lemma_bank_tick(u, b, ins, pa);
    let sall = forall|n: int| 0 <= n < 3 && bit_of(k, n) ==> #[trigger] in_value(ins, SignalName('s', n as u8));
    let iall = forall|n: int| 0 <= n < 3 && !bit_of(k, n) ==> #[trigger] g[12 * i + 9 + n].active;
    if all_inputs_on(ins, pa) {
        assert forall|n: int| 0 <= n < 3 && bit_of(k, n) implies #[trigger] in_value(ins, SignalName('s', n as u8)) by {
            assert(bank_input_drives(4 + n, pa));
            assert(bank_input_name(4 + n) == SignalName('s', n as u8));
        }
    }
    if sall {
        assert forall|n: int| 0 <= n < 15 && bank_input_drives(n, pa) implies #[trigger] in_value(ins, bank_input_name(n)) by {
            assert(bank_input_name(n) == SignalName('s', (n - 4) as u8));
        }
    }
    if all_gates_on(g, pa) {
        assert forall|n: int| 0 <= n < 3 && !bit_of(k, n) implies #[trigger] g[12 * i + 9 + n].active by {
            assert(bank_drives(12 * i + 9 + n, pa));
        }
    }
    if iall && g[c].active {
        assert forall|q: int| 0 <= q < 555 && bank_drives(q, pa) implies #[trigger] g[q].active by {
            if q != c {
                assert(g[12 * i + 9 + (q - (12 * i + 9))].active);
            }
        }
    }
}

/// One tick of the `or` of read multiplexer `i`: it becomes on when one of its `and`s was.
#[verifier::spinoff_prover]
proof fn lemma_bank_tick_mux_or(u: UnitModel, b: int, ins: Seq<(SignalName, bool, Vec<Id>)>, i: int)
    requires
        is_bank(u, b),
        0 <= i < 8,
    ensures
        tick_model(u, ins).gates[12 * i].active == (exists|n: int| 0 <= n < 8 && #[trigger] u.gates[12 * i + 1 + n].active),
{
    let g = u.gates;
    // the `or`
    let po = 12 * i;
    assert(po % 12 == 0 && po / 12 == i);
    lemma_bank_vals(u, b, ins, po);
    lemma_bank_tick(u, b, ins, po);
    assert forall|n: int| 0 <= n < 15 implies !#[trigger] bank_input_drives(n, po) by {}
    assert(!some_input_on(ins, po));
    assert forall|q: int| 0 <= q < 555 && #[trigger] bank_drives(q, po) implies 12 * i + 1 <= q < 12 * i + 9 by {
        if q < 96 {
            assert(q == 12 * (q / 12) + q % 12);
        } else if q >= 107 {
            let jj = (q - 107) / 56;
            let ii = ((q - 107) % 56) / 7;
            assert(q - 107 == 56 * jj + 7 * ii + (q - 107) % 7);
        }
    }
    assert forall|n: int| 0 <= n < 8 implies #[trigger] bank_drives(12 * i + 1 + n, po) by {
        assert((12 * i + 1 + n) / 12 == i && (12 * i + 1 + n) % 12 == 1 + n);
    }
    assert(bank_drives(12 * i + 1, po));
    if some_gate_on(g, po) {
        let q = choose|q: int| 0 <= q < 555 && bank_drives(q, po) && #[trigger] g[q].active;
        assert(g[12 * i + 1 + (q - (12 * i + 1))].active);
    }
    if exists|n: int| 0 <= n < 8 && #[trigger] g[12 * i + 1 + n].active {
        let n = choose|n: int| 0 <= n < 8 && #[trigger] g[12 * i + 1 + n].active;
        assert(bank_drives(12 * i + 1 + n, po));
    }
}

// ---------------------------------------------------------------------------
// The register bank stores, writes and reads

/// Bit `i` of register `j` stores `v`: its output is `v` and its feedback loop keeps it so.
pub open spec fn bank_stores(gs: Seq<GateModel>, j: int, i: int, v: bool) -> bool {
    let c = cell(j, i, 0);
    &&& gs[c].active == v
    &&& gs[c + 1].active == !v
    &&& gs[c + 2].active == !v
    &&& gs[c + 3].active == v
    &&& (v ==> gs[c + 4].active)
    &&& (!v ==> gs[c + 5].active)
}

/// Bit `i` of register `j` stores `v` while `v` is being written.
pub open spec fn bank_written(gs: Seq<GateModel>, j: int, i: int, v: bool) -> bool {
    &&& bank_stores(gs, j, i, v)
    &&& gs[cell(j, i, 5)].active == !v
    &&& gs[cell(j, i, 6)].active == !v
}

/// The read lines `s0 .. s2` spell `k`.
pub open spec fn read_spells(ins: Seq<(SignalName, bool, Vec<Id>)>, k: int) -> bool {
    forall|t: int| 0 <= t < 3 ==> #[trigger] in_value(ins, SignalName('s', t as u8)) == bit_of(k, t)
}

/// The write lines `S0 .. S2` spell `k`.
pub open spec fn write_spells(ins: Seq<(SignalName, bool, Vec<Id>)>, k: int) -> bool {
    forall|t: int| 0 <= t < 3 ==> #[trigger] in_value(ins, SignalName('S', t as u8)) == bit_of(k, t)
}

/// The registers hold the values `v`: bit `i` of register `j` stores `v[j][i]`.
pub open spec fn bank_holds(gs: Seq<GateModel>, v: Seq<Seq<bool>>) -> bool {
    &&& v.len() == 8
    &&& forall|j: int| 0 <= j < 8 ==> #[trigger] v[j].len() == 8
    &&& forall|j: int, i: int| 0 <= j < 8 && 0 <= i < 8 ==> #[trigger] bank_stores(gs, j, i, v[j][i])
}

/// A tick with the write enable of register `j` off keeps what its bit `i` stores.
proof fn lemma_bank_cell_holds(u: UnitModel, b: int, ins: Seq<(SignalName, bool, Vec<Id>)>, j: int, i: int, v: bool)
    requires
        is_bank(u, b),
        0 <= j < 8,
        0 <= i < 8,
        !u.gates[99 + j].active,
        bank_stores(u.gates, j, i, v),
    ensures
        bank_stores(tick_model(u, ins).gates, j, i, v),
{
    lemma_bank_tick_cell(u, b, ins, j, i);
}

/// A tick with `W` off turns every write enable off.
proof fn lemma_bank_decoder_off(u: UnitModel, b: int, ins: Seq<(SignalName, bool, Vec<Id>)>)
    requires
        is_bank(u, b),
        !in_value(ins, SignalName('W', 0)),
    ensures
        forall|m: int| 0 <= m < 8 ==> !#[trigger] tick_model(u, ins).gates[99 + m].active,
{
    assert forall|m: int| 0 <= m < 8 implies !#[trigger] tick_model(u, ins).gates[99 + m].active by {
        lemma_bank_tick_decoder(u, b, ins, 0, m);
    }
}

/// While `W` is off and no write enable is on, the registers keep their values.
proof fn lemma_bank_idle(u: UnitModel, b: int, ins: Seq<(SignalName, bool, Vec<Id>)>, v: Seq<Seq<bool>>, n: nat)
    requires
        is_bank(u, b),
        !in_value(ins, SignalName('W', 0)),
        forall|m: int| 0 <= m < 8 ==> !#[trigger] u.gates[99 + m].active,
        bank_holds(u.gates, v),
    ensures
        is_bank(crate::adder_law::ticks(u, ins, n), b),
        forall|m: int| 0 <= m < 8 ==> !#[trigger] crate::adder_law::ticks(u, ins, n).gates[99 + m].active,
        bank_holds(crate::adder_law::ticks(u, ins, n).gates, v),
    decreases n,
{
    if n > 0 {
        lemma_bank_idle(u, b, ins, v, (n - 1) as nat);
        let prev = crate::adder_law::ticks(u, ins, (n - 1) as nat);
        lemma_bank_tick_shape(prev, b, ins);
        lemma_bank_decoder_off(prev, b, ins);
        let next = tick_model(prev, ins);
        assert forall|j: int, i: int| 0 <= j < 8 && 0 <= i < 8 implies #[trigger] bank_stores(next.gates, j, i, v[j][i]) by {
            assert(bank_stores(prev.gates, j, i, v[j][i]));
            assert(!prev.gates[99 + j].active);
            lemma_bank_cell_holds(prev, b, ins, j, i, v[j][i]);
        }
    }
}

/// The register bank reads: with `W` off and no write enable on, while register `k` holds
/// `v[k]` for every `k`, after three ticks with the read address `s0 .. s2` held, output
/// `O i` is on exactly when bit `i` of the register the read address spells is on; the
/// registers still hold their values.
pub proof fn law_bank_reads(u: UnitModel, b: int, ins: Seq<(SignalName, bool, Vec<Id>)>, v: Seq<Seq<bool>>)
    requires
        is_bank(u, b),
        !in_value(ins, SignalName('W', 0)),
        forall|m: int| 0 <= m < 8 ==> !#[trigger] u.gates[99 + m].active,
        bank_holds(u.gates, v),
    ensures
        ({
            let u3 = crate::adder_law::ticks(u, ins, 3);
            &&& is_bank(u3, b)
            &&& bank_holds(u3.gates, v)
            &&& forall|i: int|
                0 <= i < 8 ==> #[trigger] u3.outputs[i].id == u3.gates[12 * i].id && u3.outputs[i].name
                    == SignalName('O', i as u8)
            &&& forall|i: int|
                0 <= i < 8 ==> #[trigger] u3.gates[12 * i].active == exists|k: int|
                    0 <= k < 8 && read_spells(ins, k) && #[trigger] v[k][i]
        }),
{
    lemma_bank_idle(u, b, ins, v, 3);
    lemma_bank_idle(u, b, ins, v, 2);
    lemma_bank_idle(u, b, ins, v, 1);
    lemma_bank_idle(u, b, ins, v, 0);
    let u0 = crate::adder_law::ticks(u, ins, 0);
    let u1 = crate::adder_law::ticks(u, ins, 1);
    let u2 = crate::adder_law::ticks(u, ins, 2);
    let u3 = crate::adder_law::ticks(u, ins, 3);
    assert(u1 == tick_model(u0, ins));
    assert(u2 == tick_model(u1, ins));
    assert(u3 == tick_model(u2, ins));
    assert forall|i: int, t: int| 0 <= i < 8 && 0 <= t < 3 implies #[trigger] u1.gates[12 * i + 9 + t].active
        == !in_value(ins, SignalName('s', t as u8)) by {
        lemma_bank_tick_mux_inverter(u0, b, ins, i, t);
    }
    assert forall|i: int, k: int| 0 <= i < 8 && 0 <= k < 8 implies #[trigger] u2.gates[12 * i + 1 + k].active == (
    read_spells(ins, k) && v[k][i]) by {
        lemma_bank_tick_mux_and(u1, b, ins, i, k);
        assert(bank_stores(u1.gates, k, i, v[k][i]));
        if u2.gates[12 * i + 1 + k].active {
            assert forall|t: int| 0 <= t < 3 implies #[trigger] in_value(ins, SignalName('s', t as u8)) == bit_of(k, t) by {
                if !bit_of(k, t) {
                    assert(u1.gates[12 * i + 9 + t].active);
                }
            }
        }
        if read_spells(ins, k) {
            assert forall|n: int| 0 <= n < 3 && !bit_of(k, n) implies #[trigger] u1.gates[12 * i + 9 + n].active by {
                assert(in_value(ins, SignalName('s', n as u8)) == bit_of(k, n));
            }
        }
    }
    assert forall|i: int| 0 <= i < 8 implies #[trigger] u3.gates[12 * i].active == exists|k: int|
        0 <= k < 8 && read_spells(ins, k) && #[trigger] v[k][i] by {
        lemma_bank_tick_mux_or(u2, b, ins, i);
        if u3.gates[12 * i].active {
            let k = choose|k: int| 0 <= k < 8 && #[trigger] u2.gates[12 * i + 1 + k].active;
            assert(read_spells(ins, k) && v[k][i]);
        }
        if exists|k: int| 0 <= k < 8 && read_spells(ins, k) && #[trigger] v[k][i] {
            let k = choose|k: int| 0 <= k < 8 && read_spells(ins, k) && #[trigger] v[k][i];
            assert(u2.gates[12 * i + 1 + k].active);
        }
    }
    assert forall|i: int| 0 <= i < 8 implies #[trigger] u3.outputs[i].id == u3.gates[12 * i].id && u3.outputs[i].name
        == SignalName('O', i as u8) by {
        lemma_bank_gate(u3, b, 12 * i);
    }
}

/// The write decoder is settled: inverter `t` is `not S t`.
pub open spec fn decoder_settled(gs: Seq<GateModel>, ins: Seq<(SignalName, bool, Vec<Id>)>) -> bool {
    forall|t: int| 0 <= t < 3 ==> #[trigger] gs[96 + t].active == !in_value(ins, SignalName('S', t as u8))
}

/// The contents that a write of the inputs `I0 .. I7` leaves: the register the write
/// address spells holds the inputs, every other register keeps `v`.
pub open spec fn bank_after_write(ins: Seq<(SignalName, bool, Vec<Id>)>, v: Seq<Seq<bool>>) -> Seq<Seq<bool>> {
    Seq::new(
        8,
        |j: int|
            if write_spells(ins, j) {
                Seq::new(8, |i: int| in_value(ins, SignalName('I', i as u8)))
            } else {
                v[j]
            },
    )
}

/// One tick of a settled write decoder while `W` is on: the write enable of register `m`
/// becomes on exactly when the write address spells `m`.
proof fn lemma_bank_decoder_selects(u: UnitModel, b: int, ins: Seq<(SignalName, bool, Vec<Id>)>)
    requires
        is_bank(u, b),
        in_value(ins, SignalName('W', 0)),
        decoder_settled(u.gates, ins),
    ensures
        decoder_settled(tick_model(u, ins).gates, ins),
        forall|m: int| 0 <= m < 8 ==> #[trigger] tick_model(u, ins).gates[99 + m].active == write_spells(ins, m),
{
    let t = tick_model(u, ins).gates;
    assert forall|k: int| 0 <= k < 3 implies #[trigger] t[96 + k].active == !in_value(ins, SignalName('S', k as u8)) by {
        lemma_bank_tick_decoder(u, b, ins, k, 0);
    }
    assert forall|m: int| 0 <= m < 8 implies #[trigger] t[99 + m].active == write_spells(ins, m) by {
        lemma_bank_tick_decoder(u, b, ins, 0, m);
        if t[99 + m].active {
            assert forall|k: int| 0 <= k < 3 implies #[trigger] in_value(ins, SignalName('S', k as u8)) == bit_of(m, k) by {
                if !bit_of(m, k) {
                    assert(u.gates[96 + k].active);
                }
            }
        }
        if write_spells(ins, m) {
            assert forall|k: int| 0 <= k < 3 && !bit_of(m, k) implies #[trigger] u.gates[96 + k].active by {
                assert(in_value(ins, SignalName('S', k as u8)) == bit_of(m, k));
            }
        }
    }
}

/// While a write is held, from a state with no write enable on: the decoder stays
/// settled, after the first tick exactly the write enable of the spelled register is on,
/// and every register the write address does not spell keeps its value.
proof fn lemma_bank_write_prefix(u: UnitModel, b: int, ins: Seq<(SignalName, bool, Vec<Id>)>, v: Seq<Seq<bool>>, n: nat)
    requires
        is_bank(u, b),
        in_value(ins, SignalName('W', 0)),
        decoder_settled(u.gates, ins),
        forall|m: int| 0 <= m < 8 ==> !#[trigger] u.gates[99 + m].active,
        bank_holds(u.gates, v),
    ensures
        ({
            let un = crate::adder_law::ticks(u, ins, n);
            &&& is_bank(un, b)
            &&& decoder_settled(un.gates, ins)
            &&& n >= 1 ==> forall|m: int| 0 <= m < 8 ==> #[trigger] un.gates[99 + m].active == write_spells(ins, m)
            &&& forall|j: int, i: int|
                0 <= j < 8 && 0 <= i < 8 && !write_spells(ins, j) ==> #[trigger] bank_stores(un.gates, j, i, v[j][i])
        }),
    decreases n,
{
    if n > 0 {
        lemma_bank_write_prefix(u, b, ins, v, (n - 1) as nat);
        let prev = crate::adder_law::ticks(u, ins, (n - 1) as nat);
        let next = crate::adder_law::ticks(u, ins, n);
        assert(next == tick_model(prev, ins));
        lemma_bank_tick_shape(prev, b, ins);
        lemma_bank_decoder_selects(prev, b, ins);
        assert forall|j: int, i: int| 0 <= j < 8 && 0 <= i < 8 && !write_spells(ins, j) implies #[trigger] bank_stores(
            next.gates,
            j,
            i,
            v[j][i],
        ) by {
            assert(bank_stores(prev.gates, j, i, v[j][i]));
            assert(!prev.gates[99 + j].active);
            lemma_bank_cell_holds(prev, b, ins, j, i, v[j][i]);
        }
    }
}

/// Bit `i` of the spelled register takes the input `I i` within seven ticks of a held
/// write.
#[verifier::spinoff_prover]
proof fn lemma_bank_cell_takes(u: UnitModel, b: int, ins: Seq<(SignalName, bool, Vec<Id>)>, v: Seq<Seq<bool>>, j: int, i: int)
    requires
        is_bank(u, b),
        in_value(ins, SignalName('W', 0)),
        decoder_settled(u.gates, ins),
        forall|m: int| 0 <= m < 8 ==> !#[trigger] u.gates[99 + m].active,
        bank_holds(u.gates, v),
        0 <= j < 8,
        0 <= i < 8,
        write_spells(ins, j),
    ensures
        bank_written(crate::adder_law::ticks(u, ins, 7).gates, j, i, in_value(ins, SignalName('I', i as u8))),
{
    let u1 = crate::adder_law::ticks(u, ins, 1);
    let u2 = crate::adder_law::ticks(u, ins, 2);
    let u3 = crate::adder_law::ticks(u, ins, 3);
    let u4 = crate::adder_law::ticks(u, ins, 4);
    let u5 = crate::adder_law::ticks(u, ins, 5);
    let u6 = crate::adder_law::ticks(u, ins, 6);
    let u7 = crate::adder_law::ticks(u, ins, 7);
    assert(u2 == tick_model(u1, ins));
    assert(u3 == tick_model(u2, ins));
    assert(u4 == tick_model(u3, ins));
    assert(u5 == tick_model(u4, ins));
    assert(u6 == tick_model(u5, ins));
    assert(u7 == tick_model(u6, ins));
    lemma_bank_write_prefix(u, b, ins, v, 1);
    lemma_bank_write_prefix(u, b, ins, v, 2);
    lemma_bank_write_prefix(u, b, ins, v, 3);
    lemma_bank_write_prefix(u, b, ins, v, 4);
    lemma_bank_write_prefix(u, b, ins, v, 5);
    lemma_bank_write_prefix(u, b, ins, v, 6);
    assert(u1.gates[99 + j].active);
    assert(u2.gates[99 + j].active);
    assert(u3.gates[99 + j].active);
    assert(u4.gates[99 + j].active);
    assert(u5.gates[99 + j].active);
    assert(u6.gates[99 + j].active);
    lemma_bank_tick_cell(u1, b, ins, j, i);
    lemma_bank_tick_cell(u2, b, ins, j, i);
    lemma_bank_tick_cell(u3, b, ins, j, i);
    lemma_bank_tick_cell(u4, b, ins, j, i);
    lemma_bank_tick_cell(u5, b, ins, j, i);
    lemma_bank_tick_cell(u6, b, ins, j, i);
}

/// Once bit `i` of the spelled register holds the input, further ticks of the held write
/// keep it so.
proof fn lemma_bank_cell_keeps(u: UnitModel, b: int, ins: Seq<(SignalName, bool, Vec<Id>)>, v: Seq<Seq<bool>>, j: int, i: int, n: nat)
    requires
        is_bank(u, b),
        in_value(ins, SignalName('W', 0)),
        decoder_settled(u.gates, ins),
        forall|m: int| 0 <= m < 8 ==> !#[trigger] u.gates[99 + m].active,
        bank_holds(u.gates, v),
        0 <= j < 8,
        0 <= i < 8,
        write_spells(ins, j),
        n >= 7,
    ensures
        bank_written(crate::adder_law::ticks(u, ins, n).gates, j, i, in_value(ins, SignalName('I', i as u8))),
    decreases n,
{
    if n == 7 {
        lemma_bank_cell_takes(u, b, ins, v, j, i);
    } else {
        lemma_bank_cell_keeps(u, b, ins, v, j, i, (n - 1) as nat);
        let prev = crate::adder_law::ticks(u, ins, (n - 1) as nat);
        assert(crate::adder_law::ticks(u, ins, n) == tick_model(prev, ins));
        lemma_bank_write_prefix(u, b, ins, v, (n - 1) as nat);
        assert(prev.gates[99 + j].active);
        lemma_bank_tick_cell(prev, b, ins, j, i);
    }
}

/// The register bank writes: with `W` on, the write decoder settled on the write address
/// `S0 .. S2` and no write enable on, while the registers hold `v`, after seven or more
/// ticks with the inputs held, the register the write address spells holds `I0 .. I7`
/// and every other register still holds its value.
pub proof fn law_bank_writes(u: UnitModel, b: int, ins: Seq<(SignalName, bool, Vec<Id>)>, v: Seq<Seq<bool>>, n: nat)
    requires
        is_bank(u, b),
        in_value(ins, SignalName('W', 0)),
        decoder_settled(u.gates, ins),
        forall|m: int| 0 <= m < 8 ==> !#[trigger] u.gates[99 + m].active,
        bank_holds(u.gates, v),
        n >= 7,
    ensures
        is_bank(crate::adder_law::ticks(u, ins, n), b),
        bank_holds(crate::adder_law::ticks(u, ins, n).gates, bank_after_write(ins, v)),
{
    let un = crate::adder_law::ticks(u, ins, n);
    let w = bank_after_write(ins, v);
    lemma_bank_write_prefix(u, b, ins, v, n);
    assert forall|j: int| 0 <= j < 8 implies #[trigger] w[j].len() == 8 by {}
    assert forall|j: int, i: int| 0 <= j < 8 && 0 <= i < 8 implies #[trigger] bank_stores(un.gates, j, i, w[j][i]) by {
        if write_spells(ins, j) {
            lemma_bank_cell_keeps(u, b, ins, v, j, i, n);
        }
    }
}

} // verus!
