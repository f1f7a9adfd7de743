use vstd::prelude::*;

use crate::utils::Id;

verus! {

/// The source of controller ids: it remembers the last id it handed out, and hands out
/// `1, 2, 3, ...` in turn, so that every part of a blueprint gets its own id.
pub struct IdSource {
    last: Id,
}

impl View for IdSource {
    type V = nat;

    /// The last id handed out (`0` before the first).
    closed spec fn view(&self) -> nat {
        self.last as nat
    }
}

impl IdSource {
    /// A source that has handed out no id yet.
    pub fn new() -> (s: Self)
        ensures
            s@ == 0,
    {
        IdSource { last: 0 }
    }

    /// The last id handed out (`0` before the first).
    pub fn last(&self) -> (id: Id)
        ensures
            id == self@,
    {
        self.last
    }
}

/// Hands out the next controller id: one more than the last one.
pub fn new_controller_id(ids: &mut IdSource) -> (id: Id)
    requires
        old(ids)@ < u32::MAX,
    ensures
        final(ids)@ == old(ids)@ + 1,
        id == final(ids)@,
{
    ids.last = ids.last + 1;
    ids.last
}

/// The function a logic gate computes from its inputs.
#[derive(Debug, Clone, Copy, PartialEq, Eq, Structural)]
pub enum LogicGateMode {
    And,
    Or,
    Xor,
    Nand,
    Nor,
    Xnor,
}

/// The number of a gate mode in the blueprint format.
pub open spec fn mode_number(mode: LogicGateMode) -> u8 {
    match mode {
        LogicGateMode::And => 0,
        LogicGateMode::Or => 1,
        LogicGateMode::Xor => 2,
        LogicGateMode::Nand => 3,
        LogicGateMode::Nor => 4,
        LogicGateMode::Xnor => 5,
    }
}

impl LogicGateMode {
    /// The number of the mode in the blueprint format.
    pub fn number(&self) -> (n: u8)
        ensures
            n == mode_number(*self),
    {
        match self {
            LogicGateMode::And => 0,
            LogicGateMode::Or => 1,
            LogicGateMode::Xor => 2,
            LogicGateMode::Nand => 3,
            LogicGateMode::Nor => 4,
            LogicGateMode::Xnor => 5,
        }
    }
}

/// All values are `true`.
pub open spec fn all_true(s: Seq<bool>) -> bool {
    forall|i: int| 0 <= i < s.len() ==> s[i]
}

/// Some value is `true`.
pub open spec fn any_true(s: Seq<bool>) -> bool {
    exists|i: int| 0 <= i < s.len() && s[i]
}

/// An odd number of values are `true`.
pub open spec fn parity(s: Seq<bool>) -> bool
    decreases s.len(),
{
    if s.len() == 0 {
        false
    } else {
        parity(s.drop_last()) != s.last()
    }
}

/// What a gate of mode `mode` outputs when its inputs carry `inputs`; a gate with no
/// input outputs `false`.
pub open spec fn gate_output(mode: LogicGateMode, inputs: Seq<bool>) -> bool {
    if inputs.len() == 0 {
        false
    } else {
        match mode {
            LogicGateMode::And => all_true(inputs),
            LogicGateMode::Or => any_true(inputs),
            LogicGateMode::Xor => parity(inputs),
            LogicGateMode::Nand => !all_true(inputs),
            LogicGateMode::Nor => !any_true(inputs),
            LogicGateMode::Xnor => !parity(inputs),
        }
    }
}

/// A logic gate as a value: its id, state, mode and the ids it drives.
#[verifier::ext_equal]
pub struct GateModel {
    pub id: Id,
    pub active: bool,
    pub mode: LogicGateMode,
    pub children: Seq<Id>,
}

/// A logic gate of a blueprint.
#[derive(Debug)]
pub struct LogicGate {
    pub id: Id,
    pub active: bool,
    pub mode: LogicGateMode,
    pub children: Vec<Id>,
}

impl View for LogicGate {
    type V = GateModel;

    open spec fn view(&self) -> GateModel {
        GateModel { id: self.id, active: self.active, mode: self.mode, children: self.children@ }
    }
}

/// A fresh gate model with no children.
pub open spec fn fresh_gate(id: Id, mode: LogicGateMode, active: bool) -> GateModel {
    GateModel { id, active, mode, children: Seq::empty() }
}

/// A gate model with children.
pub open spec fn gate_with(id: Id, mode: LogicGateMode, active: bool, children: Seq<Id>) -> GateModel {
    GateModel { id, active, mode, children }
}

impl LogicGate {
    /// A new gate with the next id of `ids` and no children.
    pub fn new(ids: &mut IdSource, mode: LogicGateMode, active: bool) -> (g: Self)
        requires
            old(ids)@ < u32::MAX,
        ensures
            final(ids)@ == old(ids)@ + 1,
            g@ == fresh_gate(final(ids)@ as Id, mode, active),
            g@.id > old(ids)@,
    {
        let id = new_controller_id(ids);
        Self { id, mode, active, children: Vec::new() }
    }

    /// Lets this gate drive the controller `id`.
    pub fn add_child(&mut self, id: Id)
        ensures
            final(self)@ == (GateModel { children: old(self)@.children.push(id), ..old(self)@ }),
    {
        self.children.push(id);
    }

    /// A copy of this gate.
    pub fn duplicate(&self) -> (g: Self)
        ensures
            g@ == self@,
    {
        let children = self.children.clone();
        proof {
            assert(children@ =~= self.children@);
        }
        LogicGate { id: self.id, active: self.active, mode: self.mode, children }
    }

    /// What this gate outputs for the given input values.
    pub fn evaluate(&self, parents: &[bool]) -> (r: bool)
        ensures
            r == gate_output(self.mode, parents@),
    {
        if parents.len() == 0 {
            return false;
        }
        let mut all = true;
        let mut any = false;
        let mut odd = false;
        let mut i: usize = 0;
        while i < parents.len()
            invariant
                i <= parents@.len(),
                all == all_true(parents@.subrange(0, i as int)),
                any == any_true(parents@.subrange(0, i as int)),
                odd == parity(parents@.subrange(0, i as int)),
            decreases parents@.len() - i,
        {
            let x = parents[i];
            proof {
                let s = parents@.subrange(0, i as int + 1);
                assert(s.drop_last() =~= parents@.subrange(0, i as int));
                assert(s.last() == x);
                if !all_true(parents@.subrange(0, i as int)) {
                    let j = choose|j: int| 0 <= j < i && !parents@.subrange(0, i as int)[j];
                    assert(!s[j]);
                }
                if any_true(parents@.subrange(0, i as int)) {
                    let j = choose|j: int| 0 <= j < i && parents@.subrange(0, i as int)[j];
                    assert(s[j]);
                }
                if x {
                    assert(s[i as int]);
                }
                if !x {
                    assert(!s[i as int]);
                }
            }
            all = all && x;
            any = any || x;
            odd = odd != x;
            i += 1;
        }
        proof {
            assert(parents@.subrange(0, parents@.len() as int) =~= parents@);
        }
        match self.mode {
            LogicGateMode::And => all,
            LogicGateMode::Or => any,
            LogicGateMode::Xor => odd,
            LogicGateMode::Nand => !all,
            LogicGateMode::Nor => !any,
            LogicGateMode::Xnor => !odd,
        }
    }
}

/// A switch: a part the player toggles by hand, which drives other controllers.
pub struct Switch {
    active: bool,
    id: Id,
    children: Vec<Id>,
}

impl Switch {
    pub closed spec fn spec_id(&self) -> Id {
        self.id
    }

    pub closed spec fn spec_active(&self) -> bool {
        self.active
    }

    pub closed spec fn spec_children(&self) -> Seq<Id> {
        self.children@
    }

    /// A new switch with the next id of `ids` and no children.
    pub fn new(ids: &mut IdSource, active: bool) -> (s: Self)
        requires
            old(ids)@ < u32::MAX,
        ensures
            final(ids)@ == old(ids)@ + 1,
            s.spec_id() == final(ids)@,
            s.spec_id() > old(ids)@,
            s.spec_active() == active,
            s.spec_children() == Seq::<Id>::empty(),
    {
        let id = new_controller_id(ids);
        Self { id, active, children: Vec::new() }
    }

    /// Lets this switch drive the controller `id`.
    pub fn add_child(&mut self, id: Id)
        ensures
            final(self).spec_id() == old(self).spec_id(),
            final(self).spec_active() == old(self).spec_active(),
            final(self).spec_children() == old(self).spec_children().push(id),
    {
        self.children.push(id);
    }

    pub fn id(&self) -> (r: Id)
        ensures
            r == self.spec_id(),
    {
        self.id
    }

    pub fn active(&self) -> (r: bool)
        ensures
            r == self.spec_active(),
    {
        self.active
    }

    pub fn children(&self) -> (r: &Vec<Id>)
        ensures
            r@ == self.spec_children(),
    {
        &self.children
    }
}

} // verus!
