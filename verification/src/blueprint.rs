use vstd::prelude::*;

use crate::assemble::{
    appends_inputs, input_gate, PartModel,
    full_input_row, hidden_items, input_letter_keys, inputs_fit, layout, output_ids,
    output_letter_keys, output_row, outputs_fit, permuted, placed_model, stable_sorted, Placed,
    PlacedModel,
};
use crate::color::Color;
use crate::logic_gate::{GateModel, IdSource};
use crate::utils::Id;
use crate::logic_unit::{ids_at_most, InputModel, LogicUnit, Output};
use crate::order::stable_order;
use crate::pos::Pos;

verus! {

/// A blueprint: the parts placed so far, in order.
pub struct Blueprint {
    bodies: Vec<Placed>,
}

impl View for Blueprint {
    type V = Seq<PlacedModel>;

    closed spec fn view(&self) -> Seq<PlacedModel> {
        placed_model(self.bodies@)
    }
}

impl Blueprint {
    /// An empty blueprint.
    pub fn new() -> (b: Self)
        ensures
            b@ == Seq::<PlacedModel>::empty(),
    {
        let b = Blueprint { bodies: Vec::new() };
        proof {
            assert(b@ =~= Seq::<PlacedModel>::empty());
        }
        b
    }

    /// Adds `bodies` after the parts placed so far.
    pub fn place(&mut self, bodies: Vec<Placed>)
        ensures
            final(self)@ == old(self)@ + placed_model(bodies@),
    {
        let mut bodies = bodies;
        let ghost before = self.bodies@;
        let ghost more = bodies@;
        self.bodies.append(&mut bodies);
        proof {
            assert(placed_model(self.bodies@) =~= placed_model(before) + placed_model(more));
        }
    }

    /// The parts placed, in order.
    pub fn bodies(&self) -> (r: &Vec<Placed>)
        ensures
            placed_model(r@) == self@,
    {
        &self.bodies
    }
}

/// `items` (with the unit's gates becoming `gates` and the last id `last`) is the row
/// that `LogicUnit::assemble_io` lays at the origin, with switches, for a unit with
/// `gates0`, `outs0`, `ins0` and the last id `last0`, its outputs sorted into `outs` and
/// its inputs into `ins`; `gates` is `gates0` followed by the new input gates, and each
/// input has a switch that drives exactly its new gate.
pub open spec fn laid_out(
    gates0: Seq<GateModel>,
    outs0: Seq<Output>,
    ins0: Seq<InputModel>,
    last0: nat,
    outs: Seq<Output>,
    ins: Seq<InputModel>,
    gates: Seq<GateModel>,
    items: Seq<PlacedModel>,
    last: nat,
) -> bool {
    let pos = Pos { x: 0, y: 0, z: 0 };
    let row = full_input_row(gates0, ins, pos, true, last0);
    &&& stable_sorted(outs0, output_letter_keys(outs0), outs)
    &&& stable_sorted(ins0, input_letter_keys(ins0), ins)
    &&& appends_inputs(gates0, ins, last0, true, gates)
    &&& forall|i: int|
        0 <= i < ins.len() ==> exists|k: int|
            0 <= k < items.len() && items[k].part == (PartModel::Switch {
                id: (#[trigger] input_gate(ins, i, last0, true).id + 1) as Id,
                active: false,
                children: seq![input_gate(ins, i, last0, true).id],
            })
    &&& layout(gates, items, last) == layout(
        row.gates,
        output_row(gates0, outs, pos) + hidden_items(gates0, output_ids(outs), pos, Color::spec_rgb(30, 30, 30))
            + row.items,
        row.last,
    )
}

/// The blueprint of `unit` laid out as a row at the origin, with a switch on each input
/// (see `LogicUnit::assemble_io`); the new input gates take their ids from `ids`.
pub fn bp(ids: &mut IdSource, unit: LogicUnit) -> (b: Blueprint)
    requires
        ids_at_most(unit@.gates, old(ids)@),
        forall|p: Seq<usize>|
            stable_order(output_letter_keys(unit@.outputs), p) ==> outputs_fit(
                unit@.gates,
                permuted(unit@.outputs, p),
                Pos { x: 0, y: 0, z: 0 },
            ),
        forall|q: Seq<usize>|
            stable_order(input_letter_keys(unit@.inputs), q) ==> inputs_fit(
                permuted(unit@.inputs, q),
                Pos { x: 0, y: 0, z: 0 },
                true,
                old(ids)@,
            ),
    ensures
        exists|outs: Seq<Output>, ins: Seq<InputModel>, gates: Seq<GateModel>|
            #[trigger] laid_out(unit@.gates, unit@.outputs, unit@.inputs, old(ids)@, outs, ins, gates, b@, final(ids)@),
{
    let ghost unit0 = unit@;
    let ghost ids0 = ids@;
    let mut unit = unit;
    let mut blueprint = Blueprint::new();
    let items = unit.assemble_io(ids, Pos::new(0, 0, 0), true);
    let ghost im = placed_model(items@);
    proof {
        assert(im.len() == items@.len());
    }
    blueprint.place(items);
    proof {
        assert(blueprint@ =~~= placed_model(items@));
        let outs = unit@.outputs;
        let ins = unit@.inputs;
        let gates = unit@.gates;
        assert(layout(gates, blueprint@, ids@) == layout(gates, placed_model(items@), ids@));
        assert(blueprint@ == im);
        assert forall|i: int| 0 <= i < ins.len() implies exists|k: int|
            0 <= k < blueprint@.len() && blueprint@[k].part == (PartModel::Switch {
                id: (#[trigger] input_gate(ins, i, ids0 as nat, true).id + 1) as Id,
                active: false,
                children: seq![input_gate(ins, i, ids0 as nat, true).id],
            }) by {
            let g = input_gate(ins, i, ids0 as nat, true);
            let k = choose|k: int|
                0 <= k < items@.len() && placed_model(items@)[k].part == (PartModel::Switch {
                    id: (g.id + 1) as Id,
                    active: false,
                    children: seq![g.id],
                });
            assert(blueprint@[k] == im[k]);
        }
        assert(laid_out(unit0.gates, unit0.outputs, unit0.inputs, ids0, outs, ins, gates, blueprint@, ids@));
    }
    blueprint
}

} // verus!
