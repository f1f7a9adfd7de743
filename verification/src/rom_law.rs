use vstd::prelude::*;

use crate::decoder_law::{lemma_gate_refs_members, lemma_input_refs_members, lemma_select_contains};
use crate::emulator::{emu_input_value, gate_refs, input_refs, parents_of, ref_value, ParentRef};
use crate::laws::tick_model;
use crate::logic::{
    at, bit_of, decoder_1_2n_gates, decoder_1_2n_inputs, rom_4kb_gates, rom_4kb_inputs, rom_4kb_outputs, rom_bits,
    rom_col_count, rom_gate, rom_row_count, rom_value, select_ids,
};
use crate::logic_gate::{all_true, any_true, GateModel, LogicGateMode};
use crate::logic_unit::{first_gate, lemma_first_gate, UnitModel};
use crate::utils::{Id, SignalName};
use vstd::arithmetic::power2::lemma2_to64;

verus! {

// ---------------------------------------------------------------------------
// The ROM: the column decoder at places 0 .. 36 (inverters 0 .. 4, `and`s 5 .. 36), the
// row decoder at 37 .. 73 (inverters 37 .. 41, `and`s 42 .. 73), the output `or`s at
// 74 .. 105, and the `and` of word `w` at `106 + w`. Decoder `side` 0 is the column
// decoder, read from address inputs 5 .. 9 (`A7 .. A11`); side 1 the row decoder, read
// from 0 .. 4 (`A2 .. A6`).

/// The unit is the ROM with image `data` built after id `b`, its gates in any state.
pub open spec fn is_rom(u: UnitModel, b: int, data: Seq<u32>) -> bool {
    &&& 0 <= b
    &&& b + 1130 <= u32::MAX
    &&& u.inputs == rom_4kb_inputs(b)
    &&& u.outputs == rom_4kb_outputs(b, 32)
    &&& u.gates.len() == 1130
    &&& forall|k: int|
        0 <= k < 1130 ==> #[trigger] u.gates[k] == (GateModel {
            active: u.gates[k].active,
            ..rom_4kb_gates(b, data)[k]
        })
}

/// Bit `i` of word `w` of the image (0 past its end).
pub open spec fn word_bit(data: Seq<u32>, w: int, i: int) -> bool {
    (rom_value(data, w) >> (i as u32)) & 1 == 1
}

/// The first place of decoder `side`.
pub open spec fn dec_base(side: int) -> int {
    if side == 0 {
        0
    } else {
        37
    }
}

/// The address input that drives select line `t` of decoder `side`.
pub open spec fn dec_addr(side: int, t: int) -> int {
    if side == 0 {
        5 + t
    } else {
        t
    }
}

/// The value on address input `k` (`A (k + 2)`).
pub open spec fn addr_in(ins: Seq<(SignalName, bool, Vec<Id>)>, k: int) -> bool {
    emu_input_value(ins, SignalName('A', (k + 2) as u8))
}

/// The value on the read enable `R`.
pub open spec fn read_in(ins: Seq<(SignalName, bool, Vec<Id>)>) -> bool {
    emu_input_value(ins, SignalName('R', 0))
}

/// The address lines of decoder `side` spell `m`.
pub open spec fn dec_spells(ins: Seq<(SignalName, bool, Vec<Id>)>, side: int, m: int) -> bool {
    forall|t: int| 0 <= t < 5 ==> #[trigger] addr_in(ins, dec_addr(side, t)) == bit_of(m, t)
}

/// The address `A2 .. A11` spells word `w`: `A2 .. A6` its row `w % 32`, `A7 .. A11` its
/// column `w / 32`.
pub open spec fn address_spells(ins: Seq<(SignalName, bool, Vec<Id>)>, w: int) -> bool {
    dec_spells(ins, 1, w % 32) && dec_spells(ins, 0, w / 32)
}

/// Membership in `rom_bits`: output `O j` is listed exactly when bit `j` of the word is
/// set, and only outputs are listed.
proof fn lemma_rom_bits_contains(b: int, v: u32, t: int)
    requires
        0 <= b,
        b + 1130 <= u32::MAX,
        0 <= t <= 32,
    ensures
        forall|j: int|
            0 <= j < t ==> (#[trigger] rom_bits(b, v, t).contains(at(b, 75 + j)) <==> (v >> (j as u32)) & 1 == 1),
        forall|m: int| 0 <= m < rom_bits(b, v, t).len() ==> b + 75 <= #[trigger] rom_bits(b, v, t)[m] < b + 75 + t,
    decreases t,
{
    if t > 0 {
        lemma_rom_bits_contains(b, v, t - 1);
        let prev = rom_bits(b, v, t - 1);
        let cur = rom_bits(b, v, t);
        assert forall|j: int| 0 <= j < t implies (#[trigger] cur.contains(at(b, 75 + j)) <==> (v >> (j as u32)) & 1
            == 1) by {
            if (v >> ((t - 1) as u32)) & 1 == 1 {
                assert(cur == prev.push(at(b, 75 + t - 1)));
                if j < t - 1 {
                    if prev.contains(at(b, 75 + j)) {
                        let m = choose|m: int| 0 <= m < prev.len() && prev[m] == at(b, 75 + j);
                        assert(cur[m] == prev[m]);
                    }
                    if cur.contains(at(b, 75 + j)) {
                        let m = choose|m: int| 0 <= m < cur.len() && cur[m] == at(b, 75 + j);
                        if m < prev.len() {
                            assert(prev[m] == cur[m]);
                        }
                    }
                } else {
                    assert(cur[prev.len() as int] == at(b, 75 + j));
                }
            } else {
                if j == t - 1 && cur.contains(at(b, 75 + j)) {
                    let m = choose|m: int| 0 <= m < cur.len() && cur[m] == at(b, 75 + j);
                    assert(prev[m] < b + 75 + (t - 1));
                }
            }
        }
    }
}

/// Gate `q` of the ROM: its id, mode and children, and where it sits.
#[verifier::spinoff_prover]
proof fn lemma_rom_gate(u: UnitModel, b: int, data: Seq<u32>, q: int)
    requires
        is_rom(u, b, data),
        0 <= q < 1130,
    ensures
        u.gates[q].id == b + 1 + q,
        u.gates[q].mode == (if q < 5 || 37 <= q < 42 {
            LogicGateMode::Nand
        } else if 74 <= q < 106 {
            LogicGateMode::Or
        } else {
            LogicGateMode::And
        }),
        u.gates[q].children == (if q < 5 {
            select_ids(b + 6, q, false, 32)
        } else if q < 37 {
            Seq::new(32, |r: int| at(b, 107 + 32 * (q - 5) + r))
        } else if q < 42 {
            select_ids(b + 43, q - 37, false, 32)
        } else if q < 74 {
            Seq::new(32, |c: int| at(b, 107 + 32 * c + (q - 42)))
        } else if q < 106 {
            Seq::<Id>::empty()
        } else {
            rom_bits(b, rom_value(data, q - 106), 32)
        }),
        first_gate(u.gates, (b + 1 + q) as Id) == q,
{
    lemma2_to64();
    assert(u.gates[q] == (GateModel { active: u.gates[q].active, ..rom_4kb_gates(b, data)[q] }));
    assert(rom_4kb_gates(b, data)[q] == rom_gate(b, data, q, 1024, 32));
    if 5 <= q < 37 {
        assert(rom_col_count(q - 5, 1024) == 32);
        assert(u.gates[q].children =~= Seq::new(32, |r: int| at(b, 107 + 32 * (q - 5) + r)));
    } else if 42 <= q < 74 {
        assert(rom_row_count(q - 42, 1024) == 32);
        assert(u.gates[q].children =~= Seq::new(32, |c: int| at(b, 107 + 32 * c + (q - 42))));
    }
    assert forall|j: int| 0 <= j < q implies u.gates[j].id != (b + 1 + q) as Id by {
        assert(u.gates[j] == (GateModel { active: u.gates[j].active, ..rom_4kb_gates(b, data)[j] }));
        assert(rom_4kb_gates(b, data)[j] == rom_gate(b, data, j, 1024, 32));
    }
    lemma_first_gate(u.gates, (b + 1 + q) as Id, q);
}

/// The inputs of the ROM: their names and the ids of the gates they drive.
#[verifier::spinoff_prover]
proof fn lemma_rom_input(b: int, j: int)
    requires
        0 <= b,
        b + 1130 <= u32::MAX,
        0 <= j < 11,
    ensures
        rom_4kb_inputs(b).len() == 11,
        j < 5 ==> rom_4kb_inputs(b)[j].ids == select_ids(b + 43, j, true, 32).push(at(b, 38 + j)),
        5 <= j < 10 ==> rom_4kb_inputs(b)[j].ids == select_ids(b + 6, j - 5, true, 32).push(at(b, 1 + (j - 5))),
        j == 10 ==> rom_4kb_inputs(b)[j].ids == Seq::new(32, |i: int| at(b, 6 + i)) + Seq::new(
            32,
            |i: int| at(b, 43 + i),
        ),
        j < 10 ==> rom_4kb_inputs(b)[j].name == SignalName('A', (j + 2) as u8),
        j == 10 ==> rom_4kb_inputs(b)[j].name == SignalName('R', 0),
{
    lemma2_to64();
    let ins = rom_4kb_inputs(b);
    if j < 5 {
        assert(decoder_1_2n_inputs(b + 37, 5)[j].ids == select_ids(b + 37 + 1 + 5, j, true, 32).push(
            at(b + 37, 1 + j),
        ));
    } else if j < 10 {
        assert(decoder_1_2n_inputs(b, 5)[j - 5].ids == select_ids(b + 1 + 5, j - 5, true, 32).push(
            at(b, 1 + (j - 5)),
        ));
    } else {
        assert(decoder_1_2n_inputs(b, 5)[5].ids =~= Seq::new(32, |i: int| at(b, 6 + i)));
        assert(decoder_1_2n_inputs(b + 37, 5)[5].ids =~= Seq::new(32, |i: int| at(b, 43 + i)));
    }
}

/// The gates of the ROM that have gate `x` among their children.
#[verifier::spinoff_prover]
proof fn lemma_rom_child_has(u: UnitModel, b: int, data: Seq<u32>, j: int, x: int)
    requires
        is_rom(u, b, data),
        0 <= j < 1130,
        b + 1 <= x < b + 1131,
    ensures
        u.gates[j].children.contains(x as Id) <==> (if j < 5 {
            b + 6 <= x < b + 38 && !bit_of(x - (b + 6), j)
        } else if j < 37 {
            b + 107 + 32 * (j - 5) <= x < b + 107 + 32 * (j - 5) + 32
        } else if j < 42 {
            b + 43 <= x < b + 75 && !bit_of(x - (b + 43), j - 37)
        } else if j < 74 {
            b + 107 <= x < b + 1131 && (x - (b + 107)) % 32 == j - 42
        } else if j < 106 {
            false
        } else {
            b + 75 <= x < b + 107 && word_bit(data, j - 106, x - (b + 75))
        }),
{
    lemma_rom_gate(u, b, data, j);
    let cs = u.gates[j].children;
    if j < 5 || (37 <= j < 42) {
        let first = if j < 5 { b + 6 } else { b + 43 };
        let line = if j < 5 { j } else { j - 37 };
        lemma_select_contains(first, line, false, 32);
        if cs.contains(x as Id) {
            let m = choose|m: int| 0 <= m < cs.len() && cs[m] == x as Id;
            assert(first <= cs[m] < first + 32);
        }
        if first <= x < first + 32 {
            assert(cs.contains((first + (x - first)) as Id) <==> !bit_of(x - first, line));
        }
    } else if j < 37 {
        if cs.contains(x as Id) {
            let m = choose|m: int| 0 <= m < cs.len() && cs[m] == x as Id;
            assert(cs[m] == at(b, 107 + 32 * (j - 5) + m));
        }
        if b + 107 + 32 * (j - 5) <= x < b + 107 + 32 * (j - 5) + 32 {
            assert(cs[x - (b + 107 + 32 * (j - 5))] == x as Id);
        }
    } else if 42 <= j < 74 {
        let r = j - 42;
        if cs.contains(x as Id) {
            let m = choose|m: int| 0 <= m < cs.len() && cs[m] == x as Id;
            assert(cs[m] == at(b, 107 + 32 * m + r));
            assert(x - (b + 107) == 32 * m + r);
        }
        if b + 107 <= x < b + 1131 && (x - (b + 107)) % 32 == r {
            let c = (x - (b + 107)) / 32;
            assert(x - (b + 107) == 32 * c + r);
            assert(cs[c] == x as Id);
        }
    } else if j >= 106 {
        let v = rom_value(data, j - 106);
        lemma_rom_bits_contains(b, v, 32);
        if cs.contains(x as Id) {
            let m = choose|m: int| 0 <= m < cs.len() && cs[m] == x as Id;
            assert(b + 75 <= cs[m] < b + 107);
            assert(at(b, 75 + (x - (b + 75))) == x as Id);
        }
        if b + 75 <= x < b + 107 {
            assert(at(b, 75 + (x - (b + 75))) == x as Id);
        }
    }
}

/// The inputs of the ROM that have gate `x` among their gates.
#[verifier::spinoff_prover]
proof fn lemma_rom_input_has(b: int, j: int, x: int)
    requires
        0 <= b,
        b + 1130 <= u32::MAX,
        0 <= j < 11,
        b + 1 <= x < b + 1131,
    ensures
        rom_4kb_inputs(b)[j].ids.contains(x as Id) <==> (if j < 5 {
            (b + 43 <= x < b + 75 && bit_of(x - (b + 43), j)) || x == b + 38 + j
        } else if j < 10 {
            (b + 6 <= x < b + 38 && bit_of(x - (b + 6), j - 5)) || x == b + 1 + (j - 5)
        } else {
            (b + 6 <= x < b + 38) || (b + 43 <= x < b + 75)
        }),
        j < 10 ==> rom_4kb_inputs(b)[j].name == SignalName('A', (j + 2) as u8),
        j == 10 ==> rom_4kb_inputs(b)[j].name == SignalName('R', 0),
{
    lemma_rom_input(b, j);
    let ids = rom_4kb_inputs(b)[j].ids;
    if j < 10 {
        let first = if j < 5 { b + 43 } else { b + 6 };
        let line = if j < 5 { j } else { j - 5 };
        let own = if j < 5 { b + 38 + j } else { b + 1 + (j - 5) };
        let sel = select_ids(first, line, true, 32);
        lemma_select_contains(first, line, true, 32);
        assert(ids == sel.push(own as Id));
        if ids.contains(x as Id) {
            let m = choose|m: int| 0 <= m < ids.len() && ids[m] == x as Id;
            if m < sel.len() {
                assert(sel[m] == x as Id);
                assert(sel.contains((first + (x - first)) as Id));
            }
        }
        if first <= x < first + 32 && bit_of(x - first, line) {
            assert(sel.contains((first + (x - first)) as Id));
            let m = choose|m: int| 0 <= m < sel.len() && sel[m] == x as Id;
            assert(ids[m] == sel[m]);
        }
        if x == own {
            assert(ids[sel.len() as int] == x as Id);
        }
    } else {
        if ids.contains(x as Id) {
            let m = choose|m: int| 0 <= m < ids.len() && ids[m] == x as Id;
            if m < 32 {
                assert(ids[m] == at(b, 6 + m));
            } else {
                assert(ids[m] == at(b, 43 + (m - 32)));
            }
        }
        if b + 6 <= x < b + 38 {
            assert(ids[x - (b + 6)] == x as Id);
        }
        if b + 43 <= x < b + 75 {
            assert(ids[32 + (x - (b + 43))] == x as Id);
        }
    }
}

/// A tick keeps the ROM's layout.
proof fn lemma_rom_tick_shape(u: UnitModel, b: int, data: Seq<u32>, ins: Seq<(SignalName, bool, Vec<Id>)>)
    requires
        is_rom(u, b, data),
    ensures
        is_rom(tick_model(u, ins), b, data),
{
    let t = tick_model(u, ins);
    assert forall|k: int| 0 <= k < 1130 implies #[trigger] t.gates[k] == (GateModel {
        active: t.gates[k].active,
        ..rom_4kb_gates(b, data)[k]
    }) by {
        assert(u.gates[k] == (GateModel { active: u.gates[k].active, ..rom_4kb_gates(b, data)[k] }));
    }
}

/// One tick of inverter `t` of decoder `side`: it becomes `not` its address line.
#[verifier::spinoff_prover]
proof fn lemma_rom_tick_inverter(
    u: UnitModel,
    b: int,
    data: Seq<u32>,
    ins: Seq<(SignalName, bool, Vec<Id>)>,
    side: int,
    t: int,
)
    requires
        is_rom(u, b, data),
        side == 0 || side == 1,
        0 <= t < 5,
    ensures
        tick_model(u, ins).gates[dec_base(side) + t].active == !addr_in(ins, dec_addr(side, t)),
{
    let q = dec_base(side) + t;
    let x = b + 1 + q;
    let a = dec_addr(side, t);
    lemma_rom_gate(u, b, data, q);
    let ps = parents_of(u, x as Id);
    let ir = input_refs(u.inputs, x as Id);
    let gr = gate_refs(u.gates, x as Id);
    lemma_input_refs_members(u.inputs, x as Id);
    lemma_gate_refs_members(u.gates, x as Id);
    assert(gr.len() == 0) by {
        if gr.len() > 0 {
            let j = choose|j: int|
                0 <= j < u.gates.len() && u.gates[j].children.contains(x as Id) && gr[0] == ParentRef::Gate(
                    u.gates[j].id,
                );
            lemma_rom_child_has(u, b, data, j, x);
        }
    }
    let name = SignalName('A', (a + 2) as u8);
    assert forall|m: int| 0 <= m < ir.len() implies ir[m] == ParentRef::Input(name) by {
        let j = choose|j: int|
            0 <= j < u.inputs.len() && u.inputs[j].ids.contains(x as Id) && ir[m] == ParentRef::Input(
                u.inputs[j].name,
            );
        lemma_rom_input_has(b, j, x);
    }
    lemma_rom_input_has(b, a, x);
    assert(u.inputs[a].ids.contains(x as Id));
    assert(ir.contains(ParentRef::Input(name)));
    let vals = ps.map_values(|r: ParentRef| ref_value(u.gates, ins, r));
    assert(ps =~= ir);
    assert(vals.len() > 0);
    assert forall|m: int| 0 <= m < vals.len() implies vals[m] == addr_in(ins, a) by {
        assert(ps[m] == ParentRef::Input(name));
    }
    assert(all_true(vals) == addr_in(ins, a)) by {
        if !addr_in(ins, a) {
            assert(!vals[0]);
        }
    }
}

/// One tick of `and` `m` of decoder `side`: it becomes on when `R` is on, the address
/// lines set in `m` are on, and the inverters of the others were on.
#[verifier::spinoff_prover]
proof fn lemma_rom_tick_decoder(
    u: UnitModel,
    b: int,
    data: Seq<u32>,
    ins: Seq<(SignalName, bool, Vec<Id>)>,
    side: int,
    m: int,
)
    requires
        is_rom(u, b, data),
        side == 0 || side == 1,
        0 <= m < 32,
    ensures
        tick_model(u, ins).gates[dec_base(side) + 5 + m].active == (read_in(ins) && (forall|t: int|
            0 <= t < 5 && bit_of(m, t) ==> #[trigger] addr_in(ins, dec_addr(side, t))) && (forall|t: int|
            0 <= t < 5 && !bit_of(m, t) ==> #[trigger] u.gates[dec_base(side) + t].active)),
{
    let base = dec_base(side);
    let q = base + 5 + m;
    let x = b + 1 + q;
    lemma_rom_gate(u, b, data, q);
    let ps = parents_of(u, x as Id);
    let ir = input_refs(u.inputs, x as Id);
    let gr = gate_refs(u.gates, x as Id);
    lemma_input_refs_members(u.inputs, x as Id);
    lemma_gate_refs_members(u.gates, x as Id);
    assert(ps == ir + gr);
    let vals = ps.map_values(|r: ParentRef| ref_value(u.gates, ins, r));
    let en = read_in(ins);
    let cond = en && (forall|t: int| 0 <= t < 5 && bit_of(m, t) ==> #[trigger] addr_in(ins, dec_addr(side, t)))
        && (forall|t: int| 0 <= t < 5 && !bit_of(m, t) ==> #[trigger] u.gates[base + t].active);
    lemma_rom_input_has(b, 10, x);
    assert(u.inputs[10].ids.contains(x as Id));
    assert(ir.contains(ParentRef::Input(SignalName('R', 0))));
    let mi = choose|k: int| 0 <= k < ir.len() && ir[k] == ParentRef::Input(SignalName('R', 0));
    assert(ps[mi] == ir[mi]);
    assert(vals.len() > 0);
    if all_true(vals) {
        assert(vals[mi] == en);
        assert forall|t: int| 0 <= t < 5 && bit_of(m, t) implies #[trigger] addr_in(ins, dec_addr(side, t)) by {
            let a = dec_addr(side, t);
            lemma_rom_input_has(b, a, x);
            assert(u.inputs[a].ids.contains(x as Id));
            assert(ir.contains(ParentRef::Input(SignalName('A', (a + 2) as u8))));
            let k = choose|k: int| 0 <= k < ir.len() && ir[k] == ParentRef::Input(SignalName('A', (a + 2) as u8));
            assert(ps[k] == ir[k]);
            assert(vals[k]);
        }
        assert forall|t: int| 0 <= t < 5 && !bit_of(m, t) implies #[trigger] u.gates[base + t].active by {
            lemma_rom_child_has(u, b, data, base + t, x);
            assert(gr.contains(ParentRef::Gate(u.gates[base + t].id)));
            let k = choose|k: int| 0 <= k < gr.len() && gr[k] == ParentRef::Gate(u.gates[base + t].id);
            assert(ps[ir.len() + k] == gr[k]);
            assert(vals[ir.len() + k]);
            lemma_rom_gate(u, b, data, base + t);
        }
    }
    if cond {
        assert forall|k: int| 0 <= k < vals.len() implies vals[k] by {
            if k < ir.len() {
                let j = choose|j: int|
                    0 <= j < u.inputs.len() && u.inputs[j].ids.contains(x as Id) && ir[k] == ParentRef::Input(
                        u.inputs[j].name,
                    );
                lemma_rom_input_has(b, j, x);
                assert(ps[k] == ir[k]);
                if j < 10 {
                    let t = if j < 5 { j } else { j - 5 };
                    assert(dec_addr(side, t) == j);
                    assert(bit_of(m, t));
                    assert(addr_in(ins, dec_addr(side, t)));
                }
            } else {
                let kk = k - ir.len();
                let j = choose|j: int|
                    0 <= j < u.gates.len() && u.gates[j].children.contains(x as Id) && gr[kk] == ParentRef::Gate(
                        u.gates[j].id,
                    );
                lemma_rom_child_has(u, b, data, j, x);
                lemma_rom_gate(u, b, data, j);
                assert(ps[k] == gr[kk]);
                let t = j - base;
                assert(!bit_of(m, t));
                assert(u.gates[base + t].active);
            }
        }
    }
}

/// One tick of the `and` of word `w`: on when its column's and its row's decoder outputs
/// were on.
#[verifier::spinoff_prover]
proof fn lemma_rom_tick_word(u: UnitModel, b: int, data: Seq<u32>, ins: Seq<(SignalName, bool, Vec<Id>)>, w: int)
    requires
        is_rom(u, b, data),
        0 <= w < 1024,
    ensures
        tick_model(u, ins).gates[106 + w].active == (u.gates[5 + w / 32].active && u.gates[42 + w % 32].active),
{
    let q = 106 + w;
    let x = b + 1 + q;
    let c = w / 32;
    let r = w % 32;
    assert(w == 32 * c + r);
    lemma_rom_gate(u, b, data, q);
    let ps = parents_of(u, x as Id);
    let ir = input_refs(u.inputs, x as Id);
    let gr = gate_refs(u.gates, x as Id);
    lemma_input_refs_members(u.inputs, x as Id);
    lemma_gate_refs_members(u.gates, x as Id);
    assert(ir.len() == 0) by {
        if ir.len() > 0 {
            let j = choose|j: int|
                0 <= j < u.inputs.len() && u.inputs[j].ids.contains(x as Id) && ir[0] == ParentRef::Input(
                    u.inputs[j].name,
                );
            lemma_rom_input_has(b, j, x);
        }
    }
    assert(ps =~= gr);
    let vals = ps.map_values(|rf: ParentRef| ref_value(u.gates, ins, rf));
    lemma_rom_child_has(u, b, data, 5 + c, x);
    lemma_rom_child_has(u, b, data, 42 + r, x);
    lemma_rom_gate(u, b, data, 5 + c);
    lemma_rom_gate(u, b, data, 42 + r);
    assert(gr.contains(ParentRef::Gate(u.gates[5 + c].id)));
    assert(gr.contains(ParentRef::Gate(u.gates[42 + r].id)));
    let kc = choose|k: int| 0 <= k < gr.len() && gr[k] == ParentRef::Gate(u.gates[5 + c].id);
    let kr = choose|k: int| 0 <= k < gr.len() && gr[k] == ParentRef::Gate(u.gates[42 + r].id);
    assert(vals[kc] == u.gates[5 + c].active);
    assert(vals[kr] == u.gates[42 + r].active);
    assert forall|k: int| 0 <= k < vals.len() implies vals[k] == u.gates[5 + c].active || vals[k] == u.gates[42
        + r].active by {
        let j = choose|j: int|
            0 <= j < u.gates.len() && u.gates[j].children.contains(x as Id) && gr[k] == ParentRef::Gate(u.gates[j].id);
        lemma_rom_child_has(u, b, data, j, x);
        lemma_rom_gate(u, b, data, j);
        if j < 37 {
            assert(j == 5 + c);
        } else {
            assert(j == 42 + r);
        }
    }
    if u.gates[5 + c].active && u.gates[42 + r].active {
        assert forall|k: int| 0 <= k < vals.len() implies vals[k] by {}
    }
}

/// One tick of output `O i`: on when the `and` of a word with bit `i` set was on.
#[verifier::spinoff_prover]
proof fn lemma_rom_tick_output(u: UnitModel, b: int, data: Seq<u32>, ins: Seq<(SignalName, bool, Vec<Id>)>, i: int)
    requires
        is_rom(u, b, data),
        0 <= i < 32,
    ensures
        tick_model(u, ins).gates[74 + i].active == (exists|w: int|
            0 <= w < 1024 && word_bit(data, w, i) && #[trigger] u.gates[106 + w].active),
{
    let q = 74 + i;
    let x = b + 1 + q;
    lemma_rom_gate(u, b, data, q);
    let ps = parents_of(u, x as Id);
    let ir = input_refs(u.inputs, x as Id);
    let gr = gate_refs(u.gates, x as Id);
    lemma_input_refs_members(u.inputs, x as Id);
    lemma_gate_refs_members(u.gates, x as Id);
    assert(ir.len() == 0) by {
        if ir.len() > 0 {
            let j = choose|j: int|
                0 <= j < u.inputs.len() && u.inputs[j].ids.contains(x as Id) && ir[0] == ParentRef::Input(
                    u.inputs[j].name,
                );
            lemma_rom_input_has(b, j, x);
        }
    }
    assert(ps =~= gr);
    let vals = ps.map_values(|rf: ParentRef| ref_value(u.gates, ins, rf));
    let some = exists|w: int| 0 <= w < 1024 && word_bit(data, w, i) && #[trigger] u.gates[106 + w].active;
    if any_true(vals) {
        let k = choose|k: int| 0 <= k < vals.len() && vals[k];
        let j = choose|j: int|
            0 <= j < u.gates.len() && u.gates[j].children.contains(x as Id) && gr[k] == ParentRef::Gate(u.gates[j].id);
        lemma_rom_child_has(u, b, data, j, x);
        lemma_rom_gate(u, b, data, j);
        assert(u.gates[106 + (j - 106)].active);
    }
    if some {
        let w = choose|w: int| 0 <= w < 1024 && word_bit(data, w, i) && #[trigger] u.gates[106 + w].active;
        lemma_rom_child_has(u, b, data, 106 + w, x);
        assert(gr.contains(ParentRef::Gate(u.gates[106 + w].id)));
        let k = choose|k: int| 0 <= k < gr.len() && gr[k] == ParentRef::Gate(u.gates[106 + w].id);
        lemma_rom_gate(u, b, data, 106 + w);
        assert(vals[k]);
    }
}

/// The ROM reads: with `R` and the address `A2 .. A11` held, after four ticks, whatever
/// state its gates started in, output `O i` is on exactly when `R` is on and bit `i` of
/// the word the address spells is set (words past the end of the image read as 0).
pub proof fn law_rom_reads(u: UnitModel, b: int, data: Seq<u32>, ins: Seq<(SignalName, bool, Vec<Id>)>)
    requires
        is_rom(u, b, data),
    ensures
        ({
            let u4 = tick_model(tick_model(tick_model(tick_model(u, ins), ins), ins), ins);
            &&& is_rom(u4, b, data)
            &&& forall|i: int|
                0 <= i < 32 ==> #[trigger] u4.outputs[i].id == u4.gates[74 + i].id && u4.outputs[i].name
                    == SignalName('O', i as u8)
            &&& forall|i: int|
                0 <= i < 32 ==> #[trigger] u4.gates[74 + i].active == (read_in(ins) && exists|w: int|
                    0 <= w < 1024 && address_spells(ins, w) && #[trigger] word_bit(data, w, i))
        }),
{
    let en = read_in(ins);
    let u1 = tick_model(u, ins);
    let u2 = tick_model(u1, ins);
    let u3 = tick_model(u2, ins);
    let u4 = tick_model(u3, ins);
    lemma_rom_tick_shape(u, b, data, ins);
    lemma_rom_tick_shape(u1, b, data, ins);
    lemma_rom_tick_shape(u2, b, data, ins);
    lemma_rom_tick_shape(u3, b, data, ins);
    assert forall|side: int, t: int| (side == 0 || side == 1) && 0 <= t < 5 implies #[trigger] u1.gates[dec_base(side)
        + t].active == !addr_in(ins, dec_addr(side, t)) by {
        lemma_rom_tick_inverter(u, b, data, ins, side, t);
    }
    assert forall|side: int, m: int| (side == 0 || side == 1) && 0 <= m < 32 implies #[trigger] u2.gates[dec_base(side)
        + 5 + m].active == (en && dec_spells(ins, side, m)) by {
        lemma_rom_tick_decoder(u1, b, data, ins, side, m);
        if u2.gates[dec_base(side) + 5 + m].active {
            assert forall|t: int| 0 <= t < 5 implies #[trigger] addr_in(ins, dec_addr(side, t)) == bit_of(m, t) by {
                if !bit_of(m, t) {
                    assert(u1.gates[dec_base(side) + t].active);
                }
            }
        }
        if en && dec_spells(ins, side, m) {
            assert forall|t: int| 0 <= t < 5 && !bit_of(m, t) implies #[trigger] u1.gates[dec_base(side) + t].active by {
                assert(addr_in(ins, dec_addr(side, t)) == bit_of(m, t));
            }
        }
    }
    assert forall|w: int| 0 <= w < 1024 implies #[trigger] u3.gates[106 + w].active == (en && address_spells(ins, w)) by {
        lemma_rom_tick_word(u2, b, data, ins, w);
        assert(u2.gates[dec_base(0) + 5 + w / 32].active == (en && dec_spells(ins, 0, w / 32)));
        assert(u2.gates[dec_base(1) + 5 + w % 32].active == (en && dec_spells(ins, 1, w % 32)));
    }
    assert forall|i: int| 0 <= i < 32 implies #[trigger] u4.gates[74 + i].active == (en && exists|w: int|
        0 <= w < 1024 && address_spells(ins, w) && #[trigger] word_bit(data, w, i)) by {
        lemma_rom_tick_output(u3, b, data, ins, i);
        if u4.gates[74 + i].active {
            let w = choose|w: int| 0 <= w < 1024 && word_bit(data, w, i) && #[trigger] u3.gates[106 + w].active;
            assert(address_spells(ins, w) && word_bit(data, w, i));
        }
        if en && exists|w: int| 0 <= w < 1024 && address_spells(ins, w) && #[trigger] word_bit(data, w, i) {
            let w = choose|w: int| 0 <= w < 1024 && address_spells(ins, w) && #[trigger] word_bit(data, w, i);
            assert(u3.gates[106 + w].active);
        }
    }
    assert forall|i: int| 0 <= i < 32 implies #[trigger] u4.outputs[i].id == u4.gates[74 + i].id && u4.outputs[i].name
        == SignalName('O', i as u8) by {
        lemma_rom_gate(u4, b, data, 74 + i);
    }
}

} // verus!
