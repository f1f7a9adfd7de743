use vstd::prelude::*;

use crate::color::Color;
use crate::emulator::{name_key, signal_key};
use crate::logic_gate::{GateModel, IdSource, LogicGate, LogicGateMode, Switch};
use crate::logic_unit::{
    find_gate, first_gate, gates_model, has_gate, ids_at_most, inputs_model, is_first_gate, lemma_first_gate,
    Input, InputModel, LogicUnit, Output,
};
use crate::order::{stable_order, stable_positions};
use crate::pos::{fits_i32, Pos};
use crate::utils::Id;

verus! {

/// A part placed in a blueprint: a gate or a switch.
pub enum Part {
    Gate(LogicGate),
    Switch(Switch),
}

/// A part as a value.
#[verifier::ext_equal]
pub enum PartModel {
    Gate(GateModel),
    Switch { id: Id, active: bool, children: Seq<Id> },
}

/// A part with its position and color.
pub struct Placed {
    pub part: Part,
    pub pos: Pos,
    pub color: Color,
}

/// A placed part as a value.
#[verifier::ext_equal]
pub struct PlacedModel {
    pub part: PartModel,
    pub pos: Pos,
    pub color: Color,
}

impl View for Placed {
    type V = PlacedModel;

    open spec fn view(&self) -> PlacedModel {
        PlacedModel {
            part: match self.part {
                Part::Gate(g) => PartModel::Gate(g@),
                Part::Switch(s) => PartModel::Switch {
                    id: s.spec_id(),
                    active: s.spec_active(),
                    children: s.spec_children(),
                },
            },
            pos: self.pos,
            color: self.color,
        }
    }
}

/// The models of placed parts.
pub open spec fn placed_model(v: Seq<Placed>) -> Seq<PlacedModel> {
    v.map_values(|p: Placed| p@)
}

/// A gate placed at `pos` with `color`.
pub open spec fn gate_at(g: GateModel, pos: Pos, color: Color) -> PlacedModel {
    PlacedModel { part: PartModel::Gate(g), pos, color }
}

/// The sequence `s` reordered: position `i` holds `s[p[i]]`.
pub open spec fn permuted<T>(s: Seq<T>, p: Seq<usize>) -> Seq<T> {
    p.map_values(|i: usize| s[i as int])
}

/// `r` is `s` sorted by `keys` with a stable sort.
pub open spec fn stable_sorted<T>(s: Seq<T>, keys: Seq<u64>, r: Seq<T>) -> bool {
    exists|p: Seq<usize>| stable_order(keys, p) && r == permuted(s, p)
}

/// The keys of outputs by full name.
pub open spec fn output_name_keys(outs: Seq<Output>) -> Seq<u64> {
    outs.map_values(|o: Output| name_key(o.name))
}

/// The keys of outputs by letter.
pub open spec fn output_letter_keys(outs: Seq<Output>) -> Seq<u64> {
    outs.map_values(|o: Output| o.name.0 as u64)
}

/// The keys of inputs by letter.
pub open spec fn input_letter_keys(ins: Seq<InputModel>) -> Seq<u64> {
    ins.map_values(|i: InputModel| i.name.0 as u64)
}

/// Every gate `g` with id not in `shown`, in order, placed at `at` with `color`.
pub open spec fn hidden_items(gs: Seq<GateModel>, shown: Seq<Id>, at: Pos, color: Color) -> Seq<PlacedModel>
    decreases gs.len(),
{
    if gs.len() == 0 {
        Seq::empty()
    } else {
        hidden_items(gs.drop_last(), shown, at, color) + if shown.contains(gs.last().id) {
            Seq::empty()
        } else {
            seq![gate_at(gs.last(), at, color)]
        }
    }
}

/// `x` is among `v`.
fn contains_id(v: &Vec<Id>, x: Id) -> (r: bool)
    ensures
        r == v@.contains(x),
{
    let mut i: usize = 0;
    while i < v.len()
        invariant
            i <= v@.len(),
            forall|j: int| 0 <= j < i ==> v@[j] != x,
        decreases v@.len() - i,
    {
        if v[i] == x {
            return true;
        }
        i += 1;
    }
    false
}

/// Some gate has an id not in `shown`.
pub open spec fn some_hidden(gs: Seq<GateModel>, shown: Seq<Id>) -> bool {
    exists|k: int| 0 <= k < gs.len() && !shown.contains(#[trigger] gs[k].id)
}

/// Appends, in order, every gate whose id is not in `shown`, placed at `base + offset`
/// with `color`.
fn place_hidden(
    items: &mut Vec<Placed>,
    gates: &Vec<LogicGate>,
    shown: &Vec<Id>,
    base: Pos,
    offset: Pos,
    color: Color,
)
    requires
        some_hidden(gates_model(gates@), shown@) ==> base.can_add(offset),
    ensures
        placed_model(final(items)@) == placed_model(old(items)@) + hidden_items(
            gates_model(gates@),
            shown@,
            base.spec_plus(offset),
            color,
        ),
{
    let ghost gs = gates_model(gates@);
    let ghost at = base.spec_plus(offset);
    let ghost start = placed_model(items@);
    let mut i: usize = 0;
    while i < gates.len()
        invariant
            i <= gates@.len(),
            gs == gates_model(gates@),
            at == base.spec_plus(offset),
            some_hidden(gs, shown@) ==> base.can_add(offset),
            placed_model(items@) == start + hidden_items(gs.take(i as int), shown@, at, color),
        decreases gates@.len() - i,
    {
        let gate = &gates[i];
        proof {
            assert(gs.take(i as int + 1).drop_last() =~= gs.take(i as int));
            assert(gs.take(i as int + 1).last() == gate@);
        }
        let ghost before = items@;
        if !contains_id(shown, gate.id) {
            proof {
                assert(!shown@.contains(gs[i as int].id));
            }
            let at_pos = base.plus(offset);
            items.push(Placed { part: Part::Gate(gate.duplicate()), pos: at_pos, color });
            proof {
                assert(placed_model(items@) =~= placed_model(before).push(gate_at(gate@, at, color)));
            }
        }
        proof {
            assert(placed_model(items@) =~= start + hidden_items(gs.take(i as int + 1), shown@, at, color));
        }
        i += 1;
    }
    proof {
        assert(gs.take(gates@.len() as int) =~= gs);
    }
}

/// The outputs at the positions `p`, in that order.
fn outputs_at(outs: &Vec<Output>, p: &Vec<usize>) -> (r: Vec<Output>)
    requires
        forall|i: int| 0 <= i < p@.len() ==> #[trigger] p@[i] < outs@.len(),
    ensures
        r@ == permuted(outs@, p@),
{
    let mut r: Vec<Output> = Vec::new();
    let mut i: usize = 0;
    while i < p.len()
        invariant
            i <= p@.len(),
            forall|j: int| 0 <= j < p@.len() ==> #[trigger] p@[j] < outs@.len(),
            r@ =~= permuted(outs@, p@.take(i as int)),
        decreases p@.len() - i,
    {
        r.push(outs[p[i]]);
        i += 1;
    }
    proof {
        assert(p@.take(p@.len() as int) =~= p@);
    }
    r
}

/// A copy of an input.
pub(crate) fn copy_input(i: &Input) -> (r: Input)
    ensures
        r@ == i@,
{
    let ids = i.ids.clone();
    proof {
        assert(ids@ =~= i.ids@);
    }
    Input { name: i.name, ids }
}

/// The inputs at the positions `p`, in that order.
fn inputs_at(ins: &Vec<Input>, p: &Vec<usize>) -> (r: Vec<Input>)
    requires
        forall|i: int| 0 <= i < p@.len() ==> #[trigger] p@[i] < ins@.len(),
    ensures
        inputs_model(r@) == permuted(inputs_model(ins@), p@),
{
    let mut r: Vec<Input> = Vec::new();
    let mut i: usize = 0;
    while i < p.len()
        invariant
            i <= p@.len(),
            forall|j: int| 0 <= j < p@.len() ==> #[trigger] p@[j] < ins@.len(),
            inputs_model(r@) =~~= permuted(inputs_model(ins@), p@.take(i as int)),
        decreases p@.len() - i,
    {
        let c = copy_input(&ins[p[i]]);
        let ghost before = r@;
        r.push(c);
        proof {
            assert(inputs_model(r@) =~~= inputs_model(before).push(c@));
            assert(p@.take(i as int + 1) =~= p@.take(i as int).push(p@[i as int]));
            assert(permuted(inputs_model(ins@), p@.take(i as int + 1)) =~~= permuted(
                inputs_model(ins@),
                p@.take(i as int),
            ).push(inputs_model(ins@)[p@[i as int] as int]));
        }
        i += 1;
    }
    proof {
        assert(p@.take(p@.len() as int) =~= p@);
    }
    r
}

/// Sorts the outputs by full name (stable).
fn sort_outputs_by_name(outs: &mut Vec<Output>)
    ensures
        stable_sorted(old(outs)@, output_name_keys(old(outs)@), final(outs)@),
{
    let mut keys: Vec<u64> = Vec::new();
    let mut i: usize = 0;
    while i < outs.len()
        invariant
            i <= outs@.len(),
            keys@ =~= output_name_keys(outs@).take(i as int),
        decreases outs@.len() - i,
    {
        keys.push(signal_key(outs[i].name));
        i += 1;
    }
    proof {
        assert(keys@ =~= output_name_keys(outs@));
    }
    let p = stable_positions(&keys);
    let r = outputs_at(outs, &p);
    proof {
        assert(stable_order(output_name_keys(old(outs)@), p@));
    }
    *outs = r;
}

/// Sorts the outputs by letter (stable).
fn sort_outputs_by_letter(outs: &mut Vec<Output>)
    ensures
        stable_sorted(old(outs)@, output_letter_keys(old(outs)@), final(outs)@),
{
    let mut keys: Vec<u64> = Vec::new();
    let mut i: usize = 0;
    while i < outs.len()
        invariant
            i <= outs@.len(),
            keys@ =~= output_letter_keys(outs@).take(i as int),
        decreases outs@.len() - i,
    {
        keys.push(outs[i].name.0 as u64);
        i += 1;
    }
    proof {
        assert(keys@ =~= output_letter_keys(outs@));
    }
    let p = stable_positions(&keys);
    let r = outputs_at(outs, &p);
    proof {
        assert(stable_order(output_letter_keys(old(outs)@), p@));
    }
    *outs = r;
}

/// Sorts the inputs by letter (stable).
pub(crate) fn sort_inputs_by_letter(ins: &mut Vec<Input>)
    ensures
        stable_sorted(
            inputs_model(old(ins)@),
            input_letter_keys(inputs_model(old(ins)@)),
            inputs_model(final(ins)@),
        ),
{
    let mut keys: Vec<u64> = Vec::new();
    let mut i: usize = 0;
    while i < ins.len()
        invariant
            i <= ins@.len(),
            keys@ =~= input_letter_keys(inputs_model(ins@)).take(i as int),
        decreases ins@.len() - i,
    {
        keys.push(ins[i].name.0 as u64);
        i += 1;
    }
    proof {
        assert(keys@ =~= input_letter_keys(inputs_model(ins@)));
    }
    let p = stable_positions(&keys);
    let r = inputs_at(ins, &p);
    proof {
        assert(stable_order(input_letter_keys(inputs_model(old(ins)@)), p@));
    }
    *ins = r;
}

impl LogicUnit {
    /// Every gate at `pos`, in the color of ordinary gates.
    pub fn assemble_single(&self, pos: Pos) -> (items: Vec<Placed>)
        ensures
            placed_model(items@) == self@.gates.map_values(|g: GateModel| gate_at(g, pos, Color::spec_rgb(30, 30, 30))),
    {
        let mut items: Vec<Placed> = Vec::new();
        let mut i: usize = 0;
        while i < self.gates.len()
            invariant
                i <= self@.gates.len(),
                placed_model(items@) =~~= self@.gates.take(i as int).map_values(
                    |g: GateModel| gate_at(g, pos, Color::spec_rgb(30, 30, 30)),
                ),
            decreases self@.gates.len() - i,
        {
            let ghost before = items@;
            let d = self.gates[i].duplicate();
            items.push(Placed { part: Part::Gate(d), pos, color: Color::single() });
            proof {
                assert(placed_model(items@) =~~= placed_model(before).push(
                    gate_at(self@.gates[i as int], pos, Color::spec_rgb(30, 30, 30)),
                ));
                assert(self@.gates.take(i as int + 1) =~= self@.gates.take(i as int).push(
                    self@.gates[i as int],
                ));
            }
            i += 1;
        }
        proof {
            assert(self@.gates.take(self@.gates.len() as int) =~= self@.gates);
        }
        items
    }
}

/// Where the `idx`-th output goes in a display `w` pixels wide: column `idx % w`,
/// row `-(idx / w)`.
pub open spec fn pixel_offset(idx: int, w: int) -> Pos {
    Pos { x: (idx % w) as i32, y: (-((idx / w) as i32)) as i32, z: 0 }
}

/// The display pixels among the first `count` outputs: every output whose letter is `d`,
/// its gate placed at `pos + pixel_offset(idx, w)` in the display color.
pub open spec fn display_pixels(gs: Seq<GateModel>, outs: Seq<Output>, pos: Pos, w: int, count: int) -> Seq<
    PlacedModel,
>
    decreases count,
{
    if count <= 0 {
        Seq::empty()
    } else {
        display_pixels(gs, outs, pos, w, count - 1) + if outs[count - 1].name.0 == 'd' {
            seq![
                gate_at(
                    gs[first_gate(gs, outs[count - 1].id)],
                    pos.spec_plus(pixel_offset(count - 1, w)),
                    Color::spec_rgb(0, 0, 0),
                ),
            ]
        } else {
            Seq::empty()
        }
    }
}

/// The ids of the display pixels among the first `count` outputs.
pub open spec fn pixel_ids(outs: Seq<Output>, count: int) -> Seq<Id>
    decreases count,
{
    if count <= 0 {
        Seq::empty()
    } else {
        pixel_ids(outs, count - 1) + if outs[count - 1].name.0 == 'd' {
            seq![outs[count - 1].id]
        } else {
            Seq::empty()
        }
    }
}

/// The display pixels among the first `count` outputs are as many as their ids; the
/// pixel of output `idx` comes after those of the outputs before it.
proof fn lemma_display_pixel(gs: Seq<GateModel>, outs: Seq<Output>, pos: Pos, w: int, count: int, idx: int)
    requires
        0 <= idx < count <= outs.len(),
        outs[idx].name.0 == 'd',
    ensures
        display_pixels(gs, outs, pos, w, count).len() == pixel_ids(outs, count).len(),
        pixel_ids(outs, idx).len() < pixel_ids(outs, count).len(),
        display_pixels(gs, outs, pos, w, count)[pixel_ids(outs, idx).len() as int] == gate_at(
            gs[first_gate(gs, outs[idx].id)],
            pos.spec_plus(pixel_offset(idx, w)),
            Color::spec_rgb(0, 0, 0),
        ),
    decreases count,
{
    lemma_display_len(gs, outs, pos, w, count);
    if idx < count - 1 {
        lemma_display_pixel(gs, outs, pos, w, count - 1, idx);
    } else {
        lemma_display_len(gs, outs, pos, w, idx);
    }
}

/// The display pixels among the first `count` outputs are as many as their ids.
proof fn lemma_display_len(gs: Seq<GateModel>, outs: Seq<Output>, pos: Pos, w: int, count: int)
    ensures
        display_pixels(gs, outs, pos, w, count).len() == pixel_ids(outs, count).len(),
    decreases count,
{
    if count > 0 {
        lemma_display_len(gs, outs, pos, w, count - 1);
    }
}

/// The display can be laid out: every pixel has a gate, the width is positive, and no
/// coordinate leaves the `i32` range.
pub open spec fn display_fits(gs: Seq<GateModel>, outs: Seq<Output>, pos: Pos, w: int) -> bool {
    &&& forall|idx: int|
        0 <= idx < outs.len() && (#[trigger] outs[idx]).name.0 == 'd' ==> {
            &&& w > 0
            &&& has_gate(gs, outs[idx].id)
            &&& ((idx / w) as i32) != i32::MIN
            &&& pos.can_add(pixel_offset(idx, w))
        }
    &&& some_hidden(gs, pixel_ids(outs, outs.len() as int)) ==> fits_i32(pos.z - 1)
}

impl LogicUnit {
    /// Lays the unit out as a display `w` pixels wide: outputs are sorted by name, every
    /// output with letter `d` is a pixel placed by its rank, and the other gates go one
    /// step below `pos`.
    pub fn assemble_display(&mut self, pos: Pos, w: usize) -> (items: Vec<Placed>)
        requires
            forall|p: Seq<usize>|
                stable_order(output_name_keys(old(self)@.outputs), p) ==> display_fits(
                    old(self)@.gates,
                    permuted(old(self)@.outputs, p),
                    pos,
                    w as int,
                ),
        ensures
            stable_sorted(old(self)@.outputs, output_name_keys(old(self)@.outputs), final(self)@.outputs),
            final(self)@.gates == old(self)@.gates,
            final(self)@.inputs == old(self)@.inputs,
            placed_model(items@) == display_pixels(
                final(self)@.gates,
                final(self)@.outputs,
                pos,
                w as int,
                final(self)@.outputs.len() as int,
            ) + hidden_items(
                final(self)@.gates,
                pixel_ids(final(self)@.outputs, final(self)@.outputs.len() as int),
                Pos { x: pos.x, y: pos.y, z: (pos.z - 1) as i32 },
                Color::spec_rgb(30, 30, 30),
            ),
            forall|idx: int|
                0 <= idx < final(self)@.outputs.len() && (#[trigger] final(self)@.outputs[idx]).name.0 == 'd' ==> exists|
                    k: int,
                |
                    0 <= k < items@.len() && placed_model(items@)[k] == gate_at(
                        final(self)@.gates[first_gate(final(self)@.gates, final(self)@.outputs[idx].id)],
                        Pos {
                            x: (pos.x + ((idx % (w as int)) as i32)) as i32,
                            y: (pos.y - ((idx / (w as int)) as i32)) as i32,
                            z: pos.z,
                        },
                        Color::spec_rgb(0, 0, 0),
                    ),
    {
        let mut items: Vec<Placed> = Vec::new();
        let mut o_ids: Vec<Id> = Vec::new();
        let ghost old_outs = self@.outputs;
        sort_outputs_by_name(&mut self.io.outputs);
        let ghost outs = self@.outputs;
        let ghost gs = self@.gates;
        proof {
            let p = choose|p: Seq<usize>|
                stable_order(output_name_keys(old_outs), p) && outs == permuted(old_outs, p);
            assert(display_fits(gs, outs, pos, w as int));
        }
        let n = self.io.outputs.len();
        let mut idx: usize = 0;
        while idx < n
            invariant
                n == outs.len(),
                idx <= n,
                outs == self@.outputs,
                gs == self@.gates,
                display_fits(gs, outs, pos, w as int),
                placed_model(items@) == display_pixels(gs, outs, pos, w as int, idx as int),
                o_ids@ == pixel_ids(outs, idx as int),
            decreases n - idx,
        {
            let o = self.io.outputs[idx];
            let ghost before = items@;
            if o.name.0 == 'd' {
                proof {
                    assert(outs[idx as int] == o);
                }
                let row = idx % w;
                let col = idx / w;
                let k = match find_gate(&self.gates, o.id) {
                    Some(k) => k,
                    None => {
                        proof {
                            assert(false);
                        }
                        0
                    },
                };
                proof {
                    lemma_first_gate(gs, o.id, k as int);
                }
                let gate = self.gates[k].duplicate();
                o_ids.push(o.id);
                let off = Pos::new(row as i32, -(col as i32), 0);
                proof {
                    assert(off == pixel_offset(idx as int, w as int));
                }
                let at = pos.plus(off);
                items.push(Placed { part: Part::Gate(gate), pos: at, color: Color::display() });
                proof {
                    assert(placed_model(items@) =~~= placed_model(before).push(
                        gate_at(gs[first_gate(gs, o.id)], at, Color::spec_rgb(0, 0, 0)),
                    ));
                }
            }
            proof {
                assert(placed_model(items@) =~~= display_pixels(gs, outs, pos, w as int, idx as int + 1));
                assert(o_ids@ =~= pixel_ids(outs, idx as int + 1));
            }
            idx += 1;
        }
        let ghost shown = placed_model(items@);
        place_hidden(&mut items, &self.gates, &o_ids, pos, Pos::new(0, 0, -1), Color::single());
        proof {
            let nn = outs.len() as int;
            lemma_display_len(gs, outs, pos, w as int, nn);
            assert forall|idx: int| 0 <= idx < nn && (#[trigger] outs[idx]).name.0 == 'd' implies exists|k: int|
                0 <= k < items@.len() && placed_model(items@)[k] == gate_at(
                    gs[first_gate(gs, outs[idx].id)],
                    Pos {
                        x: (pos.x + ((idx % (w as int)) as i32)) as i32,
                        y: (pos.y - ((idx / (w as int)) as i32)) as i32,
                        z: pos.z,
                    },
                    Color::spec_rgb(0, 0, 0),
                ) by {
                lemma_display_pixel(gs, outs, pos, w as int, nn, idx);
                let k = pixel_ids(outs, idx).len() as int;
                assert(display_fits(gs, outs, pos, w as int));
                assert(outs[idx].name.0 == 'd');
                let v = (idx / (w as int)) as i32;
                assert(v != i32::MIN);
                assert(((-v) as i32) == -v);
                let lit = Pos {
                    x: (pos.x + ((idx % (w as int)) as i32)) as i32,
                    y: (pos.y - ((idx / (w as int)) as i32)) as i32,
                    z: pos.z,
                };
                assert(pos.spec_plus(pixel_offset(idx, w as int)) == lit);
                assert(shown == display_pixels(gs, outs, pos, w as int, nn));
                assert(0 <= k < shown.len());
                assert(placed_model(items@)[k] == shown[k]);
                assert(placed_model(items@).len() == items@.len());
                assert(k < items@.len());
                assert(placed_model(items@)[k] == gate_at(gs[first_gate(gs, outs[idx].id)], lit, Color::spec_rgb(0, 0, 0)));
            }
        }
        items
    }
}

/// Whether the color has flipped by position `idx`: it flips at every change of letter.
pub open spec fn letter_flag(letters: Seq<char>, idx: int) -> bool
    decreases idx,
{
    if idx <= 0 {
        false
    } else {
        letter_flag(letters, idx - 1) != (letters[idx] != letters[idx - 1])
    }
}

/// The letters of the outputs.
pub open spec fn output_letters(outs: Seq<Output>) -> Seq<char> {
    outs.map_values(|o: Output| o.name.0)
}

/// The letters of the inputs.
pub open spec fn input_letters(ins: Seq<InputModel>) -> Seq<char> {
    ins.map_values(|i: InputModel| i.name.0)
}

/// The ids of the outputs.
pub open spec fn output_ids(outs: Seq<Output>) -> Seq<Id> {
    outs.map_values(|o: Output| o.id)
}

/// `i + 1` as computed in `i32` arithmetic from the position `i`.
pub open spec fn rank_i32(i: int) -> i32 {
    ((i as i32) + 1) as i32
}

/// The outputs in a row to the right of `pos`, output `idx` at `x + idx + 1`; the color
/// alternates with each change of letter.
pub open spec fn output_row(gs: Seq<GateModel>, outs: Seq<Output>, pos: Pos) -> Seq<PlacedModel> {
    Seq::new(
        outs.len(),
        |idx: int|
            gate_at(
                gs[first_gate(gs, outs[idx].id)],
                Pos { x: (pos.x + rank_i32(idx)) as i32, ..pos },
                if letter_flag(output_letters(outs), idx) {
                    Color::spec_rgb(255, 0, 0)
                } else {
                    Color::spec_rgb(150, 0, 0)
                },
            ),
    )
}

/// A switch placed at `pos` with `color`.
pub open spec fn switch_at(id: Id, children: Seq<Id>, pos: Pos, color: Color) -> PlacedModel {
    PlacedModel { part: PartModel::Switch { id, active: false, children }, pos, color }
}

/// What laying out the inputs has built so far.
pub struct InputLayout {
    pub gates: Seq<GateModel>,
    pub items: Seq<PlacedModel>,
    pub last: nat,
}

/// The color of input `i`.
pub open spec fn input_color(ins: Seq<InputModel>, i: int) -> Color {
    if letter_flag(input_letters(ins), i) {
        Color::spec_rgb(0, 0, 255)
    } else {
        Color::spec_rgb(0, 0, 150)
    }
}

/// The ids one input takes: a gate, and a switch when switches are placed.
pub open spec fn ids_per_input(switches: bool) -> nat {
    if switches {
        2
    } else {
        1
    }
}

/// Laying out one input with gate list `tos` at rank `i` in `color`, after `prev`: a new
/// `and` gate (the next id) that drives `tos`, placed at `x - (i + 1)`, and, with
/// `switches`, a new switch (the id after) driving that gate, placed one step above.
pub open spec fn input_place(
    prev: InputLayout,
    tos: Seq<Id>,
    i: int,
    color: Color,
    pos: Pos,
    switches: bool,
) -> InputLayout {
    let gid = (prev.last + 1) as Id;
    let sw = if switches {
        seq![
            switch_at(
                (prev.last + 2) as Id,
                seq![gid],
                Pos { x: (-rank_i32(i)) as i32, y: 0, z: 1 }.spec_plus(pos),
                color,
            ),
        ]
    } else {
        Seq::empty()
    };
    let gates = crate::logic_unit::connect_all_model(
        prev.gates.push(crate::logic_gate::fresh_gate(gid, LogicGateMode::And, false)),
        gid,
        tos,
    );
    let placed = gate_at(gates[first_gate(gates, gid)], Pos { x: (pos.x - rank_i32(i)) as i32, ..pos }, color);
    InputLayout { gates, items: prev.items + sw + seq![placed], last: prev.last + ids_per_input(switches) }
}

/// Laying out input `i` of `ins` after `prev`.
pub open spec fn input_step(
    prev: InputLayout,
    ins: Seq<InputModel>,
    pos: Pos,
    switches: bool,
    i: int,
) -> InputLayout {
    input_place(prev, ins[i].ids, i, input_color(ins, i), pos, switches)
}

/// A layout state.
pub open spec fn layout(gates: Seq<GateModel>, items: Seq<PlacedModel>, last: nat) -> InputLayout {
    InputLayout { gates, items, last }
}

/// The input row of all inputs.
pub open spec fn full_input_row(
    gs: Seq<GateModel>,
    ins: Seq<InputModel>,
    pos: Pos,
    switches: bool,
    last: nat,
) -> InputLayout {
    input_row(gs, ins, pos, switches, last, ins.len() as int)
}

/// The place of input `i` stays in range.
pub open spec fn input_fits(i: int, pos: Pos, switches: bool) -> bool {
    &&& (i as i32) != i32::MAX
    &&& fits_i32(pos.x - rank_i32(i))
    &&& switches ==> Pos { x: (-rank_i32(i)) as i32, y: 0, z: 1 }.can_add(pos)
}

/// Laying out the first `count` inputs in a row to the left of `pos`, one `input_step`
/// after the other.
#[verifier::opaque]
pub open spec fn input_row(
    gs: Seq<GateModel>,
    ins: Seq<InputModel>,
    pos: Pos,
    switches: bool,
    last: nat,
    count: int,
) -> InputLayout
    decreases count,
{
    if count <= 0 {
        InputLayout { gates: gs, items: Seq::empty(), last }
    } else {
        input_step(input_row(gs, ins, pos, switches, last, count - 1), ins, pos, switches, count - 1)
    }
}

proof fn lemma_input_row_unfold(
    gs: Seq<GateModel>,
    ins: Seq<InputModel>,
    pos: Pos,
    switches: bool,
    last: nat,
    count: int,
)
    requires
        count >= 0,
    ensures
        input_row(gs, ins, pos, switches, last, 0) == (InputLayout { gates: gs, items: Seq::empty(), last }),
        input_row(gs, ins, pos, switches, last, count + 1) == input_step(
            input_row(gs, ins, pos, switches, last, count),
            ins,
            pos,
            switches,
            count,
        ),
{
    reveal(input_row);
}

/// The `and` gate that the input row adds for input `i` of `ins` after the last id
/// `last`: the id after the `i` inputs before it, driving the gates of the input.
pub open spec fn input_gate(ins: Seq<InputModel>, i: int, last: nat, switches: bool) -> GateModel {
    GateModel {
        id: (last + 1 + i * ids_per_input(switches)) as Id,
        active: false,
        mode: LogicGateMode::And,
        children: ins[i].ids,
    }
}

/// `gates` is `gates0` unchanged, followed by the `and` gate of each input of `ins`, in
/// order (see `input_gate`).
pub open spec fn appends_inputs(
    gates0: Seq<GateModel>,
    ins: Seq<InputModel>,
    last: nat,
    switches: bool,
    gates: Seq<GateModel>,
) -> bool {
    &&& gates.len() == gates0.len() + ins.len()
    &&& forall|k: int| 0 <= k < gates0.len() ==> #[trigger] gates[k] == gates0[k]
    &&& forall|i: int| 0 <= i < ins.len() ==> #[trigger] gates[gates0.len() + i] == input_gate(ins, i, last, switches)
}

/// With switches, the input row places for input `i` first a switch, with the id after
/// that of the input's new `and` gate, that drives exactly that gate.
proof fn lemma_input_row_switches(
    gs: Seq<GateModel>,
    ins: Seq<InputModel>,
    pos: Pos,
    last: nat,
    c: int,
)
    requires
        0 <= c <= ins.len(),
    ensures
        ({
            let row = input_row(gs, ins, pos, true, last, c);
            &&& row.last == last + 2 * c
            &&& row.items.len() == 2 * c
            &&& forall|i: int|
                0 <= i < c ==> (#[trigger] row.items[2 * i]).part == (PartModel::Switch {
                    id: (last + 2 + 2 * i) as Id,
                    active: false,
                    children: seq![(last + 1 + 2 * i) as Id],
                })
        }),
    decreases c,
{
    lemma_input_row_unfold(gs, ins, pos, true, last, 0);
    if c > 0 {
        lemma_input_row_switches(gs, ins, pos, last, c - 1);
        lemma_input_row_unfold(gs, ins, pos, true, last, c - 1);
        let prev = input_row(gs, ins, pos, true, last, c - 1);
        let row = input_row(gs, ins, pos, true, last, c);
        assert forall|i: int| 0 <= i < c implies (#[trigger] row.items[2 * i]).part == (PartModel::Switch {
            id: (last + 2 + 2 * i) as Id,
            active: false,
            children: seq![(last + 1 + 2 * i) as Id],
        }) by {
            if i < c - 1 {
                assert(row.items[2 * i] == prev.items[2 * i]);
            }
        }
    }
}

/// Where the gates' ids are at most `last`, the input row leaves them as they are and
/// appends one new `and` gate per input, each with a fresh id.
proof fn lemma_input_row_appends(
    gs: Seq<GateModel>,
    ins: Seq<InputModel>,
    pos: Pos,
    switches: bool,
    last: nat,
    c: int,
)
    requires
        ids_at_most(gs, last),
        0 <= c <= ins.len(),
        last + ins.len() * ids_per_input(switches) <= u32::MAX,
    ensures
        ({
            let row = input_row(gs, ins, pos, switches, last, c);
            &&& row.last == last + c * ids_per_input(switches)
            &&& row.gates.len() == gs.len() + c
            &&& forall|k: int| 0 <= k < gs.len() ==> #[trigger] row.gates[k] == gs[k]
            &&& forall|i: int| 0 <= i < c ==> #[trigger] row.gates[gs.len() + i] == input_gate(ins, i, last, switches)
            &&& ids_at_most(row.gates, row.last)
        }),
    decreases c,
{
    lemma_input_row_unfold(gs, ins, pos, switches, last, 0);
    if c > 0 {
        lemma_input_row_appends(gs, ins, pos, switches, last, c - 1);
        lemma_input_row_unfold(gs, ins, pos, switches, last, c - 1);
        let per = ids_per_input(switches);
        let prev = input_row(gs, ins, pos, switches, last, c - 1);
        let row = input_row(gs, ins, pos, switches, last, c);
        assert(prev.last == last + (c - 1) * per);
        assert(c * per <= ins.len() * per) by (nonlinear_arith)
            requires
                c <= ins.len(),
                per >= 1,
        ;
        assert((c - 1) * per + per == c * per) by (nonlinear_arith);
        let gid = (prev.last + 1) as Id;
        assert(gid == prev.last + 1);
        let pushed = prev.gates.push(crate::logic_gate::fresh_gate(gid, LogicGateMode::And, false));
        assert(crate::logic_unit::is_first_gate(pushed, gid, prev.gates.len() as int));
        crate::logic_unit::lemma_first_gate(pushed, gid, prev.gates.len() as int);
        let tos = ins[c - 1].ids;
        assert(Seq::<Id>::empty() + tos =~= tos);
        assert(row.gates == crate::logic_unit::connect_all_model(pushed, gid, tos));
        assert(row.gates[gs.len() + (c - 1)] == input_gate(ins, c - 1, last, switches));
        assert forall|k: int| 0 <= k < row.gates.len() implies #[trigger] row.gates[k].id <= row.last by {
            if k < prev.gates.len() {
                assert(prev.gates[k].id <= prev.last);
            }
        }
    }
}

/// Every output has a gate, and no x coordinate of the output row overflows.
pub open spec fn outputs_fit(gs: Seq<GateModel>, outs: Seq<Output>, pos: Pos) -> bool {
    forall|idx: int|
        0 <= idx < outs.len() ==> {
            &&& has_gate(gs, (#[trigger] outs[idx]).id)
            &&& (idx as i32) != i32::MAX
            &&& fits_i32(pos.x + rank_i32(idx))
        }
}

/// No coordinate of the input row and no id overflows.
pub open spec fn inputs_fit(ins: Seq<InputModel>, pos: Pos, switches: bool, last: nat) -> bool {
    &&& forall|i: int| 0 <= i < ins.len() ==> #[trigger] input_fits(i, pos, switches)
    &&& last + ins.len() * ids_per_input(switches) <= u32::MAX
}

/// Adding children keeps the ids and the number of gates.
proof fn lemma_connect_all_ids(gs: Seq<GateModel>, from: Id, tos: Seq<Id>)
    requires
        tos.len() == 0 || has_gate(gs, from),
    ensures
        crate::logic_unit::connect_all_model(gs, from, tos).len() == gs.len(),
        forall|k: int|
            0 <= k < gs.len() ==> #[trigger] crate::logic_unit::connect_all_model(gs, from, tos)[k].id
                == gs[k].id,
{
    if tos.len() > 0 {
        crate::logic_unit::lemma_has_gate(gs, from);
    }
}

/// Appends the output row: output `idx` at `x + idx + 1`, colors alternating with each
/// change of letter. Collects the output ids.
fn place_output_row(
    items: &mut Vec<Placed>,
    o_ids: &mut Vec<Id>,
    gates: &Vec<LogicGate>,
    outs: &Vec<Output>,
    pos: Pos,
)
    requires
        outputs_fit(gates_model(gates@), outs@, pos),
    ensures
        placed_model(final(items)@) == placed_model(old(items)@) + output_row(gates_model(gates@), outs@, pos),
        final(o_ids)@ == old(o_ids)@ + output_ids(outs@),
{
    let ghost gs = gates_model(gates@);
    let ghost start = placed_model(items@);
    let ghost ids0 = o_ids@;
    let ghost row = output_row(gs, outs@, pos);
    let mut chcolor = false;
    let n = outs.len();
    let mut idx: usize = 0;
    while idx < n
        invariant
            n == outs@.len(),
            idx <= n,
            gs == gates_model(gates@),
            row == output_row(gs, outs@, pos),
            outputs_fit(gs, outs@, pos),
            chcolor == letter_flag(output_letters(outs@), idx - 1),
            placed_model(items@) =~~= start + row.take(idx as int),
            o_ids@ =~= ids0 + output_ids(outs@).take(idx as int),
        decreases n - idx,
    {
        let o = outs[idx];
        if idx != 0 && o.name.0 != outs[idx - 1].name.0 {
            chcolor = !chcolor;
        }
        proof {
            assert(outs@[idx as int] == o);
            assert(output_letters(outs@)[idx as int] == o.name.0);
            if idx > 0 {
                assert(output_letters(outs@)[idx - 1] == outs@[idx - 1].name.0);
            }
            if idx > 0 {
                assert(letter_flag(output_letters(outs@), idx as int) == (letter_flag(output_letters(outs@), idx - 1) != (output_letters(outs@)[idx as int] != output_letters(outs@)[idx - 1])));
            }
            assert(chcolor == letter_flag(output_letters(outs@), idx as int));
            assert(has_gate(gs, outs@[idx as int].id));
            assert(((idx as int) as i32) != i32::MAX);
            assert(((idx as int) as i32) == idx as i32);
            assert(fits_i32(pos.x + rank_i32(idx as int)));
        }
        let color = if chcolor {
            Color::output1()
        } else {
            Color::output2()
        };
        let k = match find_gate(gates, o.id) {
            Some(k) => k,
            None => {
                proof {
                    assert(false);
                }
                0
            },
        };
        proof {
            lemma_first_gate(gs, o.id, k as int);
        }
        let gate = gates[k].duplicate();
        o_ids.push(o.id);
        let at = pos.add_x(idx as i32 + 1);
        let ghost before = items@;
        items.push(Placed { part: Part::Gate(gate), pos: at, color });
        proof {
            assert(placed_model(items@) =~~= placed_model(before).push(row[idx as int]));
            assert(row.take(idx as int + 1) =~~= row.take(idx as int).push(row[idx as int]));
        }
        idx += 1;
    }
    proof {
        assert(row.take(n as int) =~~= row);
        assert(output_ids(outs@).take(n as int) =~= output_ids(outs@));
    }
}

impl LogicUnit {
    /// Lays out one input `input` at rank `i` with `color`: a new `and` gate joined to the
    /// unit, driving the input's gates, and a switch above it when `switches`.
    fn place_one_input(
        &mut self,
        ids: &mut IdSource,
        items: &mut Vec<Placed>,
        input: &Input,
        i: usize,
        color: Color,
        pos: Pos,
        switches: bool,
    )
        requires
            old(ids)@ + ids_per_input(switches) <= u32::MAX,
            input_fits(i as int, pos, switches),
        ensures
            layout(final(self)@.gates, placed_model(final(items)@), final(ids)@) == input_place(
                layout(old(self)@.gates, placed_model(old(items)@), old(ids)@),
                input.ids@,
                i as int,
                color,
                pos,
                switches,
            ),
            final(self)@.inputs == old(self)@.inputs,
            final(self)@.outputs == old(self)@.outputs,
    {
        let ghost start = placed_model(items@);
        let gate = LogicGate::new(ids, LogicGateMode::And, false);
        let gate_id = gate.id;
        let ghost sw = if switches {
            seq![
                switch_at(
                    (old(ids)@ + 2) as Id,
                    seq![gate_id],
                    Pos { x: (-rank_i32(i as int)) as i32, y: 0, z: 1 }.spec_plus(pos),
                    color,
                ),
            ]
        } else {
            Seq::<PlacedModel>::empty()
        };
        proof {
            assert(((i as int) as i32) == i as i32);
        }
        if switches {
            let mut switch = Switch::new(ids, false);
            switch.add_child(gate.id);
            let spos = Pos::new(-(i as i32 + 1), 0, 1).plus(pos);
            items.push(Placed { part: Part::Switch(switch), pos: spos, color });
        }
        proof {
            assert(placed_model(items@) =~~= start + sw);
        }
        let ghost g0 = self@.gates;
        self.gates.push(gate);
        proof {
            assert(self@.gates =~~= g0.push(crate::logic_gate::fresh_gate(gate_id, LogicGateMode::And, false)));
            assert(self@.gates[self@.gates.len() - 1].id == gate_id);
        }
        let ghost g1 = self@.gates;
        self.connect_to_input(gate_id, input);
        proof {
            lemma_connect_all_ids(g1, gate_id, input.ids@);
            assert(self@.gates[g1.len() - 1].id == gate_id);
        }
        let placed = match self.get(gate_id) {
            Some(g) => g.duplicate(),
            None => {
                proof {
                    assert(false);
                }
                return;
            },
        };
        let at = pos.add_x(-(i as i32 + 1));
        let ghost before = items@;
        items.push(Placed { part: Part::Gate(placed), pos: at, color });
        proof {
            assert(placed_model(items@) =~~= placed_model(before).push(gate_at(placed@, at, color)));
            let res = input_place(
                layout(old(self)@.gates, start, old(ids)@),
                input.ids@,
                i as int,
                color,
                pos,
                switches,
            );
            assert(res.gates == self@.gates);
            assert(at == Pos { x: (pos.x - rank_i32(i as int)) as i32, ..pos });
            assert(placed@ == res.gates[first_gate(res.gates, gate_id)]);
            assert(placed_model(items@) =~~= res.items);
            assert(ids@ == res.last);
        }
    }

    /// Appends the input row for the unit's inputs, in their current order: for each input
    /// a new `and` gate, joined to the unit, driving the input's gates (and a switch above
    /// it when `switches`).
    fn place_input_row(&mut self, ids: &mut IdSource, items: &mut Vec<Placed>, pos: Pos, switches: bool)
        requires
            inputs_fit(old(self)@.inputs, pos, switches, old(ids)@),
        ensures
            layout(final(self)@.gates, placed_model(final(items)@), final(ids)@) == layout(
                full_input_row(old(self)@.gates, old(self)@.inputs, pos, switches, old(ids)@).gates,
                placed_model(old(items)@) + full_input_row(
                    old(self)@.gates,
                    old(self)@.inputs,
                    pos,
                    switches,
                    old(ids)@,
                ).items,
                full_input_row(old(self)@.gates, old(self)@.inputs, pos, switches, old(ids)@).last,
            ),
            final(self)@.inputs == old(self)@.inputs,
            final(self)@.outputs == old(self)@.outputs,
    {
        let ghost gs = self@.gates;
        let ghost ins = self@.inputs;
        let ghost last0 = ids@;
        let ghost head = placed_model(items@);
        proof {
            lemma_input_row_unfold(gs, ins, pos, switches, last0, 0);
            assert(head + Seq::<PlacedModel>::empty() =~~= head);
        }
        let mut chcolor = false;
        let m = self.io.inputs.len();
        let mut i: usize = 0;
        while i < m
            invariant
                m == ins.len(),
                i <= m,
                ins == self@.inputs,
                self@.outputs == old(self)@.outputs,
                inputs_fit(ins, pos, switches, last0),
                chcolor == letter_flag(input_letters(ins), i - 1),
                self@.gates == input_row(gs, ins, pos, switches, last0, i as int).gates,
                ids@ == input_row(gs, ins, pos, switches, last0, i as int).last,
                ids@ == last0 + i * ids_per_input(switches),
                placed_model(items@) == head + input_row(gs, ins, pos, switches, last0, i as int).items,
            decreases m - i,
        {
            let input = copy_input(&self.io.inputs[i]);
            if i != 0 && input.name.0 != self.io.inputs[i - 1].name.0 {
                chcolor = !chcolor;
            }
            proof {
                assert(input@ == ins[i as int]);
                assert(input_letters(ins)[i as int] == input.name.0);
                if i > 0 {
                    assert(input_letters(ins)[i - 1] == ins[i - 1].name.0);
                    assert(letter_flag(input_letters(ins), i as int) == (letter_flag(input_letters(ins), i - 1) != (input_letters(ins)[i as int] != input_letters(ins)[i - 1])));
                }
                assert(chcolor == letter_flag(input_letters(ins), i as int));
                assert(input_fits(i as int, pos, switches));
                assert(ids@ + ids_per_input(switches) <= u32::MAX) by (nonlinear_arith)
                    requires
                        ids@ == last0 + i * ids_per_input(switches),
                        last0 + m * ids_per_input(switches) <= u32::MAX,
                        i < m,
                ;
                assert(last0 + (i + 1) * ids_per_input(switches) == last0 + i * ids_per_input(switches) + ids_per_input(switches)) by (nonlinear_arith);
                lemma_input_row_unfold(gs, ins, pos, switches, last0, i as int);
            }
            let color = if chcolor {
                Color::input1()
            } else {
                Color::input2()
            };
            let ghost before = placed_model(items@);
            self.place_one_input(ids, items, &input, i, color, pos, switches);
            proof {
                let prev = input_row(gs, ins, pos, switches, last0, i as int);
                let next = input_row(gs, ins, pos, switches, last0, i as int + 1);
                assert(color == input_color(ins, i as int));
                assert(next == input_step(prev, ins, pos, switches, i as int));
                assert(self@.gates == next.gates);
                assert(placed_model(items@) =~~= head + next.items);
            }
            i += 1;
        }
        proof {
            assert(layout(self@.gates, placed_model(items@), ids@) == layout(
                full_input_row(gs, ins, pos, switches, last0).gates,
                head + full_input_row(gs, ins, pos, switches, last0).items,
                full_input_row(gs, ins, pos, switches, last0).last,
            ));
        }
    }

    /// Lays the unit out as a row: outputs sorted by letter to the right of `pos`, the
    /// other gates at `pos`, and, sorted by letter, one new input gate per input to the
    /// left (with a switch above each when `switches`). The new input gates join the unit.
    pub fn assemble_io(&mut self, ids: &mut IdSource, pos: Pos, switches: bool) -> (items: Vec<Placed>)
        requires
            ids_at_most(old(self)@.gates, old(ids)@),
            forall|p: Seq<usize>|
                stable_order(output_letter_keys(old(self)@.outputs), p) ==> outputs_fit(
                    old(self)@.gates,
                    permuted(old(self)@.outputs, p),
                    pos,
                ),
            forall|q: Seq<usize>|
                stable_order(input_letter_keys(old(self)@.inputs), q) ==> inputs_fit(
                    permuted(old(self)@.inputs, q),
                    pos,
                    switches,
                    old(ids)@,
                ),
        ensures
            stable_sorted(old(self)@.outputs, output_letter_keys(old(self)@.outputs), final(self)@.outputs),
            stable_sorted(old(self)@.inputs, input_letter_keys(old(self)@.inputs), final(self)@.inputs),
            layout(final(self)@.gates, placed_model(items@), final(ids)@) == layout(
                full_input_row(old(self)@.gates, final(self)@.inputs, pos, switches, old(ids)@).gates,
                output_row(old(self)@.gates, final(self)@.outputs, pos) + hidden_items(
                    old(self)@.gates,
                    output_ids(final(self)@.outputs),
                    pos,
                    Color::spec_rgb(30, 30, 30),
                ) + full_input_row(old(self)@.gates, final(self)@.inputs, pos, switches, old(ids)@).items,
                full_input_row(old(self)@.gates, final(self)@.inputs, pos, switches, old(ids)@).last,
            ),
            appends_inputs(old(self)@.gates, final(self)@.inputs, old(ids)@, switches, final(self)@.gates),
            ids_at_most(final(self)@.gates, final(ids)@),
            switches ==> forall|i: int|
                0 <= i < final(self)@.inputs.len() ==> exists|k: int|
                    0 <= k < items@.len() && placed_model(items@)[k].part == (PartModel::Switch {
                        id: (#[trigger] input_gate(final(self)@.inputs, i, old(ids)@, switches).id + 1) as Id,
                        active: false,
                        children: seq![input_gate(final(self)@.inputs, i, old(ids)@, switches).id],
                    }),
    {
        let mut items: Vec<Placed> = Vec::new();
        let mut o_ids: Vec<Id> = Vec::new();
        let ghost old_outs = self@.outputs;
        let ghost old_ins = self@.inputs;
        sort_outputs_by_letter(&mut self.io.outputs);
        sort_inputs_by_letter(&mut self.io.inputs);
        proof {
            let p = choose|p: Seq<usize>|
                stable_order(output_letter_keys(old_outs), p) && self@.outputs == permuted(old_outs, p);
            let q = choose|q: Seq<usize>|
                stable_order(input_letter_keys(old_ins), q) && self@.inputs == permuted(old_ins, q);
            assert(outputs_fit(self@.gates, self@.outputs, pos));
            assert(inputs_fit(self@.inputs, pos, switches, ids@));
            assert(o_ids@ + output_ids(self@.outputs) =~= output_ids(self@.outputs));
            assert(placed_model(items@) =~~= Seq::<PlacedModel>::empty());
        }
        place_output_row(&mut items, &mut o_ids, &self.gates, &self.io.outputs, pos);
        proof {
            assert(pos.spec_plus(Pos { x: 0, y: 0, z: 0 }) == pos);
        }
        place_hidden(&mut items, &self.gates, &o_ids, pos, Pos::new(0, 0, 0), Color::single());
        let ghost gs0 = self@.gates;
        let ghost ins1 = self@.inputs;
        let ghost ids0 = ids@;
        self.place_input_row(ids, &mut items, pos, switches);
        proof {
            lemma_input_row_appends(gs0, ins1, pos, switches, ids0 as nat, ins1.len() as int);
            if switches {
                lemma_input_row_switches(gs0, ins1, pos, ids0 as nat, ins1.len() as int);
                let row = full_input_row(gs0, ins1, pos, switches, ids0 as nat);
                let head = output_row(gs0, self@.outputs, pos) + hidden_items(
                    gs0,
                    output_ids(self@.outputs),
                    pos,
                    Color::spec_rgb(30, 30, 30),
                );
                assert(placed_model(items@) == head + row.items);
                assert forall|i: int| 0 <= i < ins1.len() implies exists|k: int|
                    0 <= k < items@.len() && placed_model(items@)[k].part == (PartModel::Switch {
                        id: (#[trigger] input_gate(ins1, i, ids0 as nat, switches).id + 1) as Id,
                        active: false,
                        children: seq![input_gate(ins1, i, ids0 as nat, switches).id],
                    }) by {
                    let k = head.len() + 2 * i;
                    assert(placed_model(items@)[k] == row.items[2 * i]);
                    assert(placed_model(items@).len() == items@.len());
                }
            }
        }
        items
    }
}

} // verus!
