//! The actions that a plan is made of.

use crate::calculator::reservoir::{padded, same_bank, ChemState};
use crate::chemicals::{same_tokens, token_views, tokens_same, ChemToken};
use vstd::prelude::*;

verus! {

/// One physical operation of the machine. Reservoirs are counted from 1.
#[derive(Clone, Copy, Debug, PartialEq, Eq, Hash, Structural)]
pub enum Action {
    /// Move `amount` units from reservoir `source` to reservoir `target`.
    Transfer { amount: u32, source: u32, target: u32 },
    /// Bring reservoir `target` to temperature `temp`.
    Heat { temp: u32, target: u32 },
    /// Discard all that reservoir `target` holds.
    Eject { target: u32 },
    /// Discard from reservoir `target` all but `remaining` units of byproduct.
    DumpByproduct { target: u32, remaining: u32 },
    /// Discard from reservoir `target` all but `amount` units.
    EjectDownTo { target: u32, amount: u32 },
    /// Bottle `amount` units of reservoir `target`.
    CreateBottle { target: u32, amount: u32 },
    /// Make a pill of `amount` units of reservoir `target`.
    CreatePill { target: u32, amount: u32 },
}

/// A step of a plan before reservoirs are chosen for it.
#[derive(Debug)]
pub enum AbstractAction {
    /// Combine the tokens, at temperature `temp` where one is asked for.
    Combine { vec: Vec<ChemToken>, temp: Option<u32> },
}

/// A log of actions together with the bank that it starts from.
#[derive(Debug)]
pub struct ActionChain {
    pub intial_state: ChemState,
    pub chain: Vec<Action>,
}

/// A sequence of steps before reservoirs are chosen for them.
#[derive(Debug)]
pub struct AbstractActionChain {
    pub chain: Vec<AbstractAction>,
}

impl Default for ActionChain {
    /// No actions, on a bank of empty reservoirs.
    fn default() -> (r: Self)
        ensures
            r.chain@.len() == 0,
            r.intial_state@ == padded(Seq::empty()),
    {
        ActionChain { intial_state: ChemState::default(), chain: Vec::new() }
    }
}

impl Default for AbstractActionChain {
    /// No steps.
    fn default() -> (r: Self)
        ensures
            r.chain@.len() == 0,
    {
        AbstractActionChain { chain: Vec::new() }
    }
}

impl AbstractAction {
    /// Equality of steps: tokens equal in structure, position by position, and the
    /// same temperature.
    pub open spec fn same(&self, other: &AbstractAction) -> bool {
        same_tokens(token_views(self->vec@), token_views(other->vec@)) && self->temp
            == other->temp
    }

    /// Whether the steps combine tokens equal in structure at the same temperature.
    pub fn same_as(&self, other: &AbstractAction) -> (r: bool)
        ensures
            r == self.same(other),
    {
        match (self, other) {
            (
                AbstractAction::Combine { vec: a, temp: t },
                AbstractAction::Combine { vec: b, temp: u },
            ) => {
                let temps = match (t, u) {
                    (Some(x), Some(y)) => *x == *y,
                    (None, None) => true,
                    _ => false,
                };
                tokens_same(a, b) && temps
            },
        }
    }
}

impl Clone for AbstractAction {
    fn clone(&self) -> (r: Self)
        ensures
            token_views(r->vec@) == token_views(self->vec@),
            r->temp == self->temp,
    {
        match self {
            AbstractAction::Combine { vec, temp } => {
                let mut copy: Vec<ChemToken> = Vec::new();
                let mut i: usize = 0;
                while i < vec.len()
                    invariant
                        i <= vec.len(),
                        copy@.len() == i,
                        forall|j: int| 0 <= j < i ==> (#[trigger] copy@[j])@ == vec@[j]@,
                    decreases vec.len() - i,
                {
                    copy.push(vec[i].clone());
                    i += 1;
                }
                proof {
                    crate::chemicals::lemma_token_views_len(copy@);
                    crate::chemicals::lemma_token_views_len(vec@);
                    assert forall|j: int| 0 <= j < vec@.len() implies token_views(copy@)[j]
                        == token_views(vec@)[j] by {
                        crate::chemicals::lemma_token_views_index(copy@, j);
                        crate::chemicals::lemma_token_views_index(vec@, j);
                    }
                    assert(token_views(copy@) =~= token_views(vec@));
                }
                AbstractAction::Combine { vec: copy, temp: *temp }
            },
        }
    }
}

impl PartialEq for AbstractAction {
    fn eq(&self, other: &Self) -> (r: bool) {
        self.same_as(other)
    }
}

impl vstd::std_specs::cmp::PartialEqSpecImpl for AbstractAction {
    open spec fn obeys_eq_spec() -> bool {
        true
    }

    open spec fn eq_spec(&self, other: &Self) -> bool {
        self.same(other)
    }
}

impl Eq for AbstractAction {

}

impl ActionChain {
    /// Equality of logs: equal banks and the same actions.
    pub open spec fn same(&self, other: &ActionChain) -> bool {
        same_bank(self.intial_state@, other.intial_state@) && self.chain@ == other.chain@
    }

    /// Whether the logs start from equal banks and hold the same actions.
    pub fn same_as(&self, other: &ActionChain) -> (r: bool)
        ensures
            r == self.same(other),
    {
        if !self.intial_state.same_as(&other.intial_state) || self.chain.len()
            != other.chain.len() {
            return false;
        }
        let mut i: usize = 0;
        while i < self.chain.len()
            invariant
                i <= self.chain.len(),
                self.chain.len() == other.chain.len(),
                forall|j: int| 0 <= j < i ==> self.chain@[j] == other.chain@[j],
            decreases self.chain.len() - i,
        {
            if self.chain[i] != other.chain[i] {
                return false;
            }
            i += 1;
        }
        assert(self.chain@ =~= other.chain@);
        true
    }
}

impl Clone for ActionChain {
    fn clone(&self) -> (r: Self)
        ensures
            r.intial_state@ == self.intial_state@,
            r.chain@ == self.chain@,
    {
        let mut chain: Vec<Action> = Vec::new();
        let mut i: usize = 0;
        while i < self.chain.len()
            invariant
                i <= self.chain.len(),
                chain@ == self.chain@.take(i as int),
            decreases self.chain.len() - i,
        {
            chain.push(self.chain[i]);
            i += 1;
            assert(chain@ =~= self.chain@.take(i as int));
        }
        assert(self.chain@.take(i as int) =~= self.chain@);
        ActionChain { intial_state: self.intial_state.clone(), chain }
    }
}

impl PartialEq for ActionChain {
    fn eq(&self, other: &Self) -> (r: bool) {
        self.same_as(other)
    }
}

impl vstd::std_specs::cmp::PartialEqSpecImpl for ActionChain {
    open spec fn obeys_eq_spec() -> bool {
        true
    }

    open spec fn eq_spec(&self, other: &Self) -> bool {
        self.same(other)
    }
}

impl Eq for ActionChain {

}

impl AbstractActionChain {
    /// Equality of sequences of steps: as many steps, equal position by position.
    pub open spec fn same(&self, other: &AbstractActionChain) -> bool {
        &&& self.chain@.len() == other.chain@.len()
        &&& forall|i: int|
            0 <= i < self.chain@.len() ==> (#[trigger] self.chain@[i]).same(&other.chain@[i])
    }

    /// Whether the sequences hold as many steps, equal position by position.
    pub fn same_as(&self, other: &AbstractActionChain) -> (r: bool)
        ensures
            r == self.same(other),
    {
        if self.chain.len() != other.chain.len() {
            return false;
        }
        let mut i: usize = 0;
        while i < self.chain.len()
            invariant
                i <= self.chain.len(),
                self.chain.len() == other.chain.len(),
                forall|j: int|
                    0 <= j < i ==> (#[trigger] self.chain@[j]).same(&other.chain@[j]),
            decreases self.chain.len() - i,
        {
            if !self.chain[i].same_as(&other.chain[i]) {
                assert(!self.chain@[i as int].same(&other.chain@[i as int]));
                return false;
            }
            i += 1;
        }
        true
    }
}

impl Clone for AbstractActionChain {
    fn clone(&self) -> (r: Self)
        ensures
            r.chain@.len() == self.chain@.len(),
            forall|i: int|
                0 <= i < self.chain@.len() ==> token_views((#[trigger] r.chain@[i])->vec@)
                    == token_views(self.chain@[i]->vec@) && r.chain@[i]->temp
                    == self.chain@[i]->temp,
    {
        let mut chain: Vec<AbstractAction> = Vec::new();
        let mut i: usize = 0;
        while i < self.chain.len()
            invariant
                i <= self.chain.len(),
                chain@.len() == i,
                forall|j: int|
                    0 <= j < i ==> token_views((#[trigger] chain@[j])->vec@) == token_views(
                        self.chain@[j]->vec@,
                    ) && chain@[j]->temp == self.chain@[j]->temp,
            decreases self.chain.len() - i,
        {
            chain.push(self.chain[i].clone());
            i += 1;
        }
        AbstractActionChain { chain }
    }
}

impl PartialEq for AbstractActionChain {
    fn eq(&self, other: &Self) -> (r: bool) {
        self.same_as(other)
    }
}

impl vstd::std_specs::cmp::PartialEqSpecImpl for AbstractActionChain {
    open spec fn obeys_eq_spec() -> bool {
        true
    }

    open spec fn eq_spec(&self, other: &Self) -> bool {
        self.same(other)
    }
}

impl Eq for AbstractActionChain {

}

} // verus!
