use vstd::prelude::*;

use crate::logic_gate::{fresh_gate, GateModel, IdSource, LogicGate, LogicGateMode};
use crate::utils::{Id, SignalName};

verus! {

/// A named input of a unit and the gates it drives.
#[derive(Debug)]
pub struct Input {
    pub name: SignalName,
    pub ids: Vec<Id>,
}

/// An input as a value.
#[verifier::ext_equal]
pub struct InputModel {
    pub name: SignalName,
    pub ids: Seq<Id>,
}

impl View for Input {
    type V = InputModel;

    open spec fn view(&self) -> InputModel {
        InputModel { name: self.name, ids: self.ids@ }
    }
}

/// A named output of a unit: the id of its carrier gate.
#[derive(Debug, Clone, Copy, PartialEq, Eq, Structural)]
pub struct Output {
    pub name: SignalName,
    pub id: Id,
}

/// The interface of a unit: its inputs and outputs, in the order they were declared.
pub struct IO {
    pub inputs: Vec<Input>,
    pub outputs: Vec<Output>,
}

/// The interface of a unit as a value.
pub struct IoModel {
    pub inputs: Seq<InputModel>,
    pub outputs: Seq<Output>,
}

/// The models of a sequence of inputs.
pub open spec fn inputs_model(v: Seq<Input>) -> Seq<InputModel> {
    v.map_values(|i: Input| i@)
}

/// The models of a sequence of gates.
pub open spec fn gates_model(v: Seq<LogicGate>) -> Seq<GateModel> {
    v.map_values(|g: LogicGate| g@)
}

impl View for IO {
    type V = IoModel;

    open spec fn view(&self) -> IoModel {
        IoModel { inputs: inputs_model(self.inputs@), outputs: self.outputs@ }
    }
}

/// A circuit: its gates, in the order they were added, and its interface.
pub struct LogicUnit {
    pub gates: Vec<LogicGate>,
    pub io: IO,
}

/// A circuit as a value.
pub struct UnitModel {
    pub gates: Seq<GateModel>,
    pub inputs: Seq<InputModel>,
    pub outputs: Seq<Output>,
}

impl View for LogicUnit {
    type V = UnitModel;

    open spec fn view(&self) -> UnitModel {
        UnitModel {
            gates: gates_model(self.gates@),
            inputs: inputs_model(self.io.inputs@),
            outputs: self.io.outputs@,
        }
    }
}

// ---------------------------------------------------------------------------
// Lookup by id or name: the first match counts.

/// `k` is the first position of a gate with id `id`.
pub open spec fn is_first_gate(gs: Seq<GateModel>, id: Id, k: int) -> bool {
    &&& 0 <= k < gs.len()
    &&& gs[k].id == id
    &&& forall|j: int| 0 <= j < k ==> gs[j].id != id
}

/// Some gate has id `id`.
pub open spec fn has_gate(gs: Seq<GateModel>, id: Id) -> bool {
    exists|k: int| 0 <= k < gs.len() && gs[k].id == id
}

/// The first position of a gate with id `id`.
pub open spec fn first_gate(gs: Seq<GateModel>, id: Id) -> int {
    choose|k: int| is_first_gate(gs, id, k)
}

/// `k` is the first position of an input named `name`.
pub open spec fn is_first_input(ins: Seq<InputModel>, name: SignalName, k: int) -> bool {
    &&& 0 <= k < ins.len()
    &&& ins[k].name == name
    &&& forall|j: int| 0 <= j < k ==> ins[j].name != name
}

/// Some input is named `name`.
pub open spec fn has_input(ins: Seq<InputModel>, name: SignalName) -> bool {
    exists|k: int| 0 <= k < ins.len() && ins[k].name == name
}

/// The first position of an input named `name`.
pub open spec fn first_input(ins: Seq<InputModel>, name: SignalName) -> int {
    choose|k: int| is_first_input(ins, name, k)
}

/// `k` is the first position of an output named `name`.
pub open spec fn is_first_output(outs: Seq<Output>, name: SignalName, k: int) -> bool {
    &&& 0 <= k < outs.len()
    &&& outs[k].name == name
    &&& forall|j: int| 0 <= j < k ==> outs[j].name != name
}

/// Some output is named `name`.
pub open spec fn has_output(outs: Seq<Output>, name: SignalName) -> bool {
    exists|k: int| 0 <= k < outs.len() && outs[k].name == name
}

/// The first position of an output named `name`.
pub open spec fn first_output(outs: Seq<Output>, name: SignalName) -> int {
    choose|k: int| is_first_output(outs, name, k)
}

/// The first match is unique.
pub proof fn lemma_first_gate(gs: Seq<GateModel>, id: Id, k: int)
    requires
        is_first_gate(gs, id, k),
    ensures
        first_gate(gs, id) == k,
{
    let f = first_gate(gs, id);
    assert(is_first_gate(gs, id, f));
    if f < k {
        assert(gs[f].id != id);
    } else if f > k {
        assert(gs[k].id != id);
    }
}

/// The first match is unique.
pub proof fn lemma_first_input(ins: Seq<InputModel>, name: SignalName, k: int)
    requires
        is_first_input(ins, name, k),
    ensures
        first_input(ins, name) == k,
{
    let f = first_input(ins, name);
    assert(is_first_input(ins, name, f));
    if f < k {
        assert(ins[f].name != name);
    } else if f > k {
        assert(ins[k].name != name);
    }
}

/// The first match is unique.
pub proof fn lemma_first_output(outs: Seq<Output>, name: SignalName, k: int)
    requires
        is_first_output(outs, name, k),
    ensures
        first_output(outs, name) == k,
{
    let f = first_output(outs, name);
    assert(is_first_output(outs, name, f));
    if f < k {
        assert(outs[f].name != name);
    } else if f > k {
        assert(outs[k].name != name);
    }
}

/// A gate with id `id` exists, so a first one does.
pub proof fn lemma_first_gate_exists(gs: Seq<GateModel>, id: Id, k: int)
    requires
        0 <= k < gs.len(),
        gs[k].id == id,
    ensures
        is_first_gate(gs, id, first_gate(gs, id)),
    decreases k,
{
    if exists|j: int| 0 <= j < k && gs[j].id == id {
        let j = choose|j: int| 0 <= j < k && gs[j].id == id;
        lemma_first_gate_exists(gs, id, j);
    } else {
        assert(is_first_gate(gs, id, k));
    }
}

/// A gate with id `id` exists, so a first one does.
pub proof fn lemma_has_gate(gs: Seq<GateModel>, id: Id)
    requires
        has_gate(gs, id),
    ensures
        is_first_gate(gs, id, first_gate(gs, id)),
{
    let k = choose|k: int| 0 <= k < gs.len() && gs[k].id == id;
    lemma_first_gate_exists(gs, id, k);
}

/// Every gate's id is at most `last`: the gates took their ids from a source that has
/// handed out `last` last.
pub open spec fn ids_at_most(gs: Seq<GateModel>, last: nat) -> bool {
    forall|k: int| 0 <= k < gs.len() ==> #[trigger] gs[k].id <= last
}

/// The gates after `to` is added to the children of the first gate with id `from`.
pub open spec fn connect_model(gs: Seq<GateModel>, from: Id, to: Id) -> Seq<GateModel> {
    let k = first_gate(gs, from);
    gs.update(k, GateModel { children: gs[k].children.push(to), ..gs[k] })
}

/// The gates after all of `tos` are added, in order, to the children of the first gate
/// with id `from`.
pub open spec fn connect_all_model(gs: Seq<GateModel>, from: Id, tos: Seq<Id>) -> Seq<GateModel> {
    let k = first_gate(gs, from);
    if tos.len() == 0 {
        gs
    } else {
        gs.update(k, GateModel { children: gs[k].children + tos, ..gs[k] })
    }
}

/// The inputs after `more` is appended to the ids of the first input named `name`.
pub open spec fn add_inputs_model(ins: Seq<InputModel>, name: SignalName, more: Seq<Id>) -> Seq<
    InputModel,
> {
    let k = first_input(ins, name);
    if more.len() == 0 {
        ins
    } else {
        ins.update(k, InputModel { name: ins[k].name, ids: ins[k].ids + more })
    }
}

/// Finds the first input named `name`.
fn find_input(inputs: &Vec<Input>, name: SignalName) -> (k: usize)
    requires
        has_input(inputs_model(inputs@), name),
    ensures
        is_first_input(inputs_model(inputs@), name, k as int),
{
    let mut k: usize = 0;
    while k < inputs.len()
        invariant
            k <= inputs@.len(),
            forall|j: int| 0 <= j < k ==> inputs@[j].name != name,
            has_input(inputs_model(inputs@), name),
        decreases inputs@.len() - k,
    {
        if inputs[k].name == name {
            return k;
        }
        k += 1;
    }
    proof {
        let j = choose|j: int|
            0 <= j < inputs_model(inputs@).len() && inputs_model(inputs@)[j].name == name;
        assert(inputs@[j].name == name);
    }
    0
}

/// Finds the first output named `name`.
fn find_output(outputs: &Vec<Output>, name: SignalName) -> (k: usize)
    requires
        has_output(outputs@, name),
    ensures
        is_first_output(outputs@, name, k as int),
{
    let mut k: usize = 0;
    while k < outputs.len()
        invariant
            k <= outputs@.len(),
            forall|j: int| 0 <= j < k ==> outputs@[j].name != name,
            has_output(outputs@, name),
        decreases outputs@.len() - k,
    {
        if outputs[k].name == name {
            return k;
        }
        k += 1;
    }
    0
}

/// The position of the first input named `name`, if there is one.
pub(crate) fn input_position(inputs: &Vec<Input>, name: SignalName) -> (r: Option<usize>)
    ensures
        match r {
            Some(k) => has_input(inputs_model(inputs@), name) && k as int == first_input(
                inputs_model(inputs@),
                name,
            ) && k < inputs@.len(),
            None => !has_input(inputs_model(inputs@), name),
        },
{
    let mut k: usize = 0;
    while k < inputs.len()
        invariant
            k <= inputs@.len(),
            forall|j: int| 0 <= j < k ==> inputs@[j].name != name,
        decreases inputs@.len() - k,
    {
        if inputs[k].name == name {
            proof {
                assert(inputs_model(inputs@)[k as int].name == name);
                lemma_first_input(inputs_model(inputs@), name, k as int);
            }
            return Some(k);
        }
        k += 1;
    }
    None
}

/// The position of the first output named `name`, if there is one.
pub(crate) fn output_position(outputs: &Vec<Output>, name: SignalName) -> (r: Option<usize>)
    ensures
        match r {
            Some(k) => has_output(outputs@, name) && k as int == first_output(outputs@, name) && k
                < outputs@.len(),
            None => !has_output(outputs@, name),
        },
{
    let mut k: usize = 0;
    while k < outputs.len()
        invariant
            k <= outputs@.len(),
            forall|j: int| 0 <= j < k ==> outputs@[j].name != name,
        decreases outputs@.len() - k,
    {
        if outputs[k].name == name {
            proof {
                lemma_first_output(outputs@, name, k as int);
            }
            return Some(k);
        }
        k += 1;
    }
    None
}

/// Finds the first gate with id `id`, if there is one.
pub(crate) fn find_gate(gates: &Vec<LogicGate>, id: Id) -> (r: Option<usize>)
    ensures
        match r {
            Some(k) => is_first_gate(gates_model(gates@), id, k as int),
            None => !has_gate(gates_model(gates@), id),
        },
{
    let mut k: usize = 0;
    while k < gates.len()
        invariant
            k <= gates@.len(),
            forall|j: int| 0 <= j < k ==> gates@[j].id != id,
        decreases gates@.len() - k,
    {
        if gates[k].id == id {
            return Some(k);
        }
        k += 1;
    }
    None
}

impl IO {
    pub(crate) fn new() -> (io: Self)
        ensures
            io@.inputs == Seq::<InputModel>::empty(),
            io@.outputs == Seq::<Output>::empty(),
    {
        Self { inputs: Vec::new(), outputs: Vec::new() }
    }

    /// Declares a new input `name` driving the gates `ids`.
    pub fn create_input(&mut self, name: SignalName, ids: Vec<Id>)
        ensures
            final(self)@.inputs == old(self)@.inputs.push(InputModel { name, ids: ids@ }),
            final(self)@.outputs == old(self)@.outputs,
    {
        let ghost before = self.inputs@;
        self.inputs.push(Input { name, ids });
        proof {
            assert(inputs_model(self.inputs@) =~= inputs_model(before).push(
                InputModel { name, ids: ids@ },
            ));
        }
    }

    /// Lets the first input named `name` drive gate `id` as well.
    pub fn add_input(&mut self, name: SignalName, id: Id)
        requires
            has_input(old(self)@.inputs, name),
        ensures
            final(self)@.inputs == add_inputs_model(old(self)@.inputs, name, seq![id]),
            final(self)@.outputs == old(self)@.outputs,
    {
        let k = find_input(&self.inputs, name);
        let ghost before = self.inputs@;
        proof {
            lemma_first_input(inputs_model(before), name, k as int);
        }
        let mut inp = self.inputs.remove(k);
        inp.ids.push(id);
        proof {
            assert(inp.ids@ =~= before[k as int].ids@ + seq![id]);
        }
        self.inputs.insert(k, inp);
        proof {
            assert(inputs_model(self.inputs@) =~= add_inputs_model(
                inputs_model(before),
                name,
                seq![id],
            ));
        }
    }

    /// Lets the first input named `name` drive the gates `ids` as well, in order.
    pub fn add_inputs(&mut self, name: SignalName, ids: &[Id])
        requires
            ids@.len() == 0 || has_input(old(self)@.inputs, name),
        ensures
            final(self)@.inputs == add_inputs_model(old(self)@.inputs, name, ids@),
            final(self)@.outputs == old(self)@.outputs,
    {
        if ids.len() == 0 {
            return;
        }
        let k = find_input(&self.inputs, name);
        let ghost before = self.inputs@;
        proof {
            lemma_first_input(inputs_model(before), name, k as int);
        }
        let mut inp = self.inputs.remove(k);
        let ghost ids0 = inp.ids@;
        let mut i: usize = 0;
        while i < ids.len()
            invariant
                i <= ids@.len(),
                inp.name == name,
                inp.ids@ == ids0 + ids@.subrange(0, i as int),
            decreases ids@.len() - i,
        {
            inp.ids.push(ids[i]);
            proof {
                assert(ids@.subrange(0, i as int + 1) =~= ids@.subrange(0, i as int).push(ids@[i as int]));
            }
            i += 1;
        }
        proof {
            assert(ids@.subrange(0, ids@.len() as int) =~= ids@);
        }
        self.inputs.insert(k, inp);
        proof {
            assert(inputs_model(self.inputs@) =~= add_inputs_model(inputs_model(before), name, ids@));
        }
    }

    /// The first input named `name`.
    pub fn get_input(&self, name: SignalName) -> (r: &Input)
        requires
            has_input(self@.inputs, name),
        ensures
            r@ == self@.inputs[first_input(self@.inputs, name)],
    {
        let k = find_input(&self.inputs, name);
        proof {
            lemma_first_input(self@.inputs, name, k as int);
        }
        &self.inputs[k]
    }

    /// Declares a new output `name` carried by gate `id`.
    pub fn create_output(&mut self, name: SignalName, id: Id)
        ensures
            final(self)@.outputs == old(self)@.outputs.push(Output { name, id }),
            final(self)@.inputs == old(self)@.inputs,
    {
        self.outputs.push(Output { name, id });
    }

    /// The first output named `name`.
    pub fn get_output(&self, name: SignalName) -> (r: &Output)
        requires
            has_output(self@.outputs, name),
        ensures
            *r == self@.outputs[first_output(self@.outputs, name)],
    {
        let k = find_output(&self.outputs, name);
        proof {
            lemma_first_output(self@.outputs, name, k as int);
        }
        &self.outputs[k]
    }
}

impl LogicUnit {
    /// An empty unit.
    pub fn new() -> (u: Self)
        ensures
            u@.gates == Seq::<GateModel>::empty(),
            u@.inputs == Seq::<InputModel>::empty(),
            u@.outputs == Seq::<Output>::empty(),
    {
        let u = Self { gates: Vec::new(), io: IO::new() };
        proof {
            assert(u@.gates =~= Seq::<GateModel>::empty());
        }
        u
    }

    /// The gates of the unit.
    pub fn gates(&self) -> (r: &Vec<LogicGate>)
        ensures
            gates_model(r@) == self@.gates,
    {
        &self.gates
    }

    /// Adds a new gate with the next id of `ids` and returns that id.
    pub fn add_gate(&mut self, ids: &mut IdSource, mode: LogicGateMode, active: bool) -> (id: Id)
        requires
            old(ids)@ < u32::MAX,
        ensures
            final(ids)@ == old(ids)@ + 1,
            id == final(ids)@,
            final(self)@.gates == old(self)@.gates.push(fresh_gate(id, mode, active)),
            final(self)@.inputs == old(self)@.inputs,
            final(self)@.outputs == old(self)@.outputs,
            ids_at_most(old(self)@.gates, old(ids)@) ==> !has_gate(old(self)@.gates, id) && ids_at_most(
                final(self)@.gates,
                final(ids)@,
            ),
    {
        let gate = LogicGate::new(ids, mode, active);
        let id = gate.id;
        let ghost before = self.gates@;
        self.gates.push(gate);
        proof {
            assert(gates_model(self.gates@) =~= gates_model(before).push(fresh_gate(id, mode, active)));
        }
        id
    }

    /// Adds a new gate with the next id of `ids`, declares it as output `name`, and
    /// returns its id.
    pub fn add_gate_output(
        &mut self,
        ids: &mut IdSource,
        mode: LogicGateMode,
        active: bool,
        name: SignalName,
    ) -> (id: Id)
        requires
            old(ids)@ < u32::MAX,
        ensures
            final(ids)@ == old(ids)@ + 1,
            id == final(ids)@,
            final(self)@.gates == old(self)@.gates.push(fresh_gate(id, mode, active)),
            final(self)@.inputs == old(self)@.inputs,
            final(self)@.outputs == old(self)@.outputs.push(Output { name, id }),
            ids_at_most(old(self)@.gates, old(ids)@) ==> !has_gate(old(self)@.gates, id) && ids_at_most(
                final(self)@.gates,
                final(ids)@,
            ),
    {
        let gate = LogicGate::new(ids, mode, active);
        let id = gate.id;
        self.io.create_output(name, id);
        let ghost before = self.gates@;
        self.gates.push(gate);
        proof {
            assert(gates_model(self.gates@) =~= gates_model(before).push(fresh_gate(id, mode, active)));
        }
        id
    }

    /// Lets the first gate with id `from_id` drive the controller `to_id`.
    pub fn connect(&mut self, from_id: Id, to_id: Id)
        requires
            has_gate(old(self)@.gates, from_id),
        ensures
            final(self)@.gates == connect_model(old(self)@.gates, from_id, to_id),
            final(self)@.inputs == old(self)@.inputs,
            final(self)@.outputs == old(self)@.outputs,
    {
        let ghost before = self.gates@;
        let k = match find_gate(&self.gates, from_id) {
            Some(k) => k,
            None => {
                proof {
                    assert(false);
                }
                0
            },
        };
        proof {
            lemma_first_gate(gates_model(before), from_id, k as int);
        }
        let mut g = self.gates.remove(k);
        g.add_child(to_id);
        self.gates.insert(k, g);
        proof {
            assert(gates_model(self.gates@) =~= connect_model(gates_model(before), from_id, to_id));
        }
    }

    /// Lets the first gate with id `from_id` drive every gate of the input `to`, in order.
    pub fn connect_to_input(&mut self, from_id: Id, to: &Input)
        requires
            to.ids@.len() == 0 || has_gate(old(self)@.gates, from_id),
        ensures
            final(self)@.gates == connect_all_model(old(self)@.gates, from_id, to.ids@),
            final(self)@.inputs == old(self)@.inputs,
            final(self)@.outputs == old(self)@.outputs,
    {
        let ghost before = self@.gates;
        let mut i: usize = 0;
        while i < to.ids.len()
            invariant
                i <= to.ids@.len(),
                to.ids@.len() == 0 || has_gate(before, from_id),
                self@.gates == connect_all_model(before, from_id, to.ids@.subrange(0, i as int)),
                self@.inputs == old(self)@.inputs,
                self@.outputs == old(self)@.outputs,
            decreases to.ids@.len() - i,
        {
            let ghost cur = self@.gates;
            proof {
                lemma_has_gate(before, from_id);
                let k = first_gate(before, from_id);
                assert(is_first_gate(cur, from_id, k));
                lemma_first_gate(cur, from_id, k);
            }
            self.connect(from_id, to.ids[i]);
            proof {
                assert(to.ids@.subrange(0, i as int + 1) =~= to.ids@.subrange(0, i as int).push(
                    to.ids@[i as int],
                ));
                assert(self@.gates =~= connect_all_model(
                    before,
                    from_id,
                    to.ids@.subrange(0, i as int + 1),
                ));
            }
            i += 1;
        }
        proof {
            assert(to.ids@.subrange(0, to.ids@.len() as int) =~= to.ids@);
        }
    }

    /// Moves the gates of `unit` to the end of this unit's gates and returns its interface.
    pub fn embed(&mut self, unit: LogicUnit) -> (io: IO)
        ensures
            final(self)@.gates == old(self)@.gates + unit@.gates,
            final(self)@.inputs == old(self)@.inputs,
            final(self)@.outputs == old(self)@.outputs,
            io@.inputs == unit@.inputs,
            io@.outputs == unit@.outputs,
    {
        let mut unit = unit;
        let ghost before = self.gates@;
        let ghost other = unit.gates@;
        self.gates.append(&mut unit.gates);
        proof {
            assert(gates_model(self.gates@) =~= gates_model(before) + gates_model(other));
        }
        unit.io
    }

    /// Adds the single gate `gate` and returns the interface of a two-input gate cell:
    /// inputs `A` and `B` both drive it, output `Y` is its output.
    pub fn embed_gate(&mut self, gate: LogicGate) -> (io: IO)
        ensures
            final(self)@.gates == old(self)@.gates.push(gate@),
            final(self)@.inputs == old(self)@.inputs,
            final(self)@.outputs == old(self)@.outputs,
            io@.inputs == seq![
                InputModel { name: SignalName('A', 0), ids: seq![gate.id] },
                InputModel { name: SignalName('B', 0), ids: seq![gate.id] },
            ],
            io@.outputs == seq![Output { name: SignalName('Y', 0), id: gate.id }],
    {
        let id = gate.id;
        let ghost before = self.gates@;
        let ghost gm = gate@;
        self.gates.push(gate);
        proof {
            assert(gates_model(self.gates@) =~= gates_model(before).push(gm));
        }
        let mut io = IO::new();
        io.create_input(SignalName('A', 0), vec![id]);
        io.create_input(SignalName('B', 0), vec![id]);
        io.create_output(SignalName('Y', 0), id);
        proof {
            assert(io@.inputs =~~= seq![
                InputModel { name: SignalName('A', 0), ids: seq![id] },
                InputModel { name: SignalName('B', 0), ids: seq![id] },
            ]);
            assert(io@.outputs =~= seq![Output { name: SignalName('Y', 0), id }]);
        }
        io
    }

    /// The first gate with id `id`, if any.
    pub(crate) fn get(&self, id: Id) -> (r: Option<&LogicGate>)
        ensures
            match r {
                Some(g) => has_gate(self@.gates, id) && g@ == self@.gates[first_gate(self@.gates, id)],
                None => !has_gate(self@.gates, id),
            },
    {
        match find_gate(&self.gates, id) {
            Some(k) => {
                proof {
                    lemma_first_gate(self@.gates, id, k as int);
                }
                Some(&self.gates[k])
            },
            None => None,
        }
    }
}

} // verus!
