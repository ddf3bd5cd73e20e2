//! Reservoirs with their capacity classes, and the bank of them.

use crate::chemicals::{
    quantity_text, ChemToken, Chemical, CompoundView, NumberToken, PlanError, TokenView,
};
use crate::text::{decimal, push_decimal};
use vstd::string::StringExecFns;
use crate::seqs::{first_index, lemma_first_index, lemma_first_index_is, lemma_first_index_none};
use vstd::prelude::*;

verus! {

/// The number of reservoirs of the machine.
pub const NUM_RESERVOIRS: usize = 10;

/// The units that a small reservoir holds.
pub const SMALL_RESERVOIR: u32 = 50;

/// The units that a large reservoir holds.
pub const LARGE_RESERVOIR: u32 = 100;

/// The capacity class of a reservoir.
#[derive(Clone, Copy, Debug, PartialEq, Eq, Hash, Structural)]
pub enum ReservoirSize {
    Empty,
    Small,
    Large,
}

impl ReservoirSize {
    /// The units that a reservoir of this class holds.
    pub open spec fn units(self) -> u32 {
        match self {
            ReservoirSize::Empty => 0,
            ReservoirSize::Small => SMALL_RESERVOIR,
            ReservoirSize::Large => LARGE_RESERVOIR,
        }
    }

    /// The smallest class that holds `size` units.
    pub open spec fn fitting(size: u32) -> Result<ReservoirSize, PlanError> {
        if size == 0 {
            Ok(ReservoirSize::Empty)
        } else if size <= SMALL_RESERVOIR {
            Ok(ReservoirSize::Small)
        } else if size <= LARGE_RESERVOIR {
            Ok(ReservoirSize::Large)
        } else {
            Err(PlanError::CapacityExceeded { needed: size as u64 })
        }
    }

    pub fn get_size(&self) -> (r: u32)
        ensures
            r == self.units(),
    {
        match self {
            ReservoirSize::Empty => 0,
            ReservoirSize::Small => SMALL_RESERVOIR,
            ReservoirSize::Large => LARGE_RESERVOIR,
        }
    }

    /// The smallest class that holds `size` units; more than a large reservoir
    /// holds fits none.
    pub fn fit(size: u32) -> (r: Result<ReservoirSize, PlanError>)
        ensures
            r == Self::fitting(size),
    {
        if size == 0 {
            Ok(ReservoirSize::Empty)
        } else if size <= SMALL_RESERVOIR {
            Ok(ReservoirSize::Small)
        } else if size <= LARGE_RESERVOIR {
            Ok(ReservoirSize::Large)
        } else {
            Err(PlanError::CapacityExceeded { needed: size as u64 })
        }
    }
}

/// The class that `fitting` picks holds the amount, and no smaller class does; it
/// picks none exactly if the amount is above what a large reservoir holds.
pub proof fn lemma_fitting_is_minimal(size: u32, other: ReservoirSize)
    ensures
        ReservoirSize::fitting(size) matches Ok(class) ==> class.units() >= size && (other.units()
            >= size ==> other.units() >= class.units()),
        ReservoirSize::fitting(size) is Err <==> size > LARGE_RESERVOIR,
{
}

/// One mixing vessel: what it holds, and the capacity class that it needs.
#[derive(Debug)]
pub struct Reservoir {
    pub contents: Option<ChemToken>,
    pub reservoir_size: ReservoirSize,
}

/// The mathematical value of a [`Reservoir`].
pub struct ReservoirView {
    pub contents: Option<TokenView>,
    pub class: ReservoirSize,
}

impl View for Reservoir {
    type V = ReservoirView;

    open spec fn view(&self) -> ReservoirView {
        ReservoirView {
            contents: match self.contents {
                Some(t) => Some(t@),
                None => None,
            },
            class: self.reservoir_size,
        }
    }
}

impl ReservoirView {
    /// The reservoir holds a token of compound `c`.
    pub open spec fn holds(self, c: CompoundView) -> bool {
        self.contents matches Some(t) && t.compound.same(c)
    }

    /// The concrete quantity of what the reservoir holds.
    pub open spec fn amount(self) -> Option<u32> {
        match self.contents {
            Some(t) => t.concrete,
            None => None,
        }
    }

    /// The class of the reservoir holds what is in it, as far as that has a size.
    pub open spec fn fits(self) -> bool {
        self.contents matches Some(t) ==> (t.size() matches Ok(s) ==> s <= self.class.units())
    }

    /// The reservoir after `t` was put in place of what it held: the class grows to
    /// the smallest that holds `t` where it is too small, and stays otherwise.
    pub open spec fn replaced(self, t: TokenView) -> Result<ReservoirView, PlanError> {
        match t.size() {
            Err(e) => Err(e),
            Ok(s) => if self.class.units() < s {
                match ReservoirSize::fitting(s) {
                    Err(e) => Err(e),
                    Ok(class) => Ok(ReservoirView { contents: Some(t), class }),
                }
            } else {
                Ok(ReservoirView { contents: Some(t), class: self.class })
            },
        }
    }

    /// The reservoir after `amount` units were taken out of it. The parts of what it
    /// holds lose their concrete quantities.
    pub open spec fn reduced(self, amount: u32) -> Result<ReservoirView, PlanError> {
        match self.contents {
            None => Err(PlanError::MissingReservoir),
            Some(t) => match t.concrete {
                None => Err(PlanError::UnresolvedQuantity),
                Some(c) => if c < amount {
                    Err(PlanError::InsufficientStock { have: c, need: amount })
                } else {
                    Ok(
                        ReservoirView {
                            contents: Some(
                                TokenView {
                                    quantity: t.quantity,
                                    compound: t.with_parts_abstract().compound,
                                    priority: t.priority,
                                    concrete: Some((c - amount) as u32),
                                },
                            ),
                            class: self.class,
                        },
                    )
                },
            },
        }
    }

    /// The emptied reservoir. It keeps its class.
    pub open spec fn cleared(self) -> ReservoirView {
        ReservoirView { contents: None, class: self.class }
    }

    /// The reservoir with `factor` times the concrete quantity, as a fixed amount.
    pub open spec fn multiplied(self, factor: u32) -> Result<ReservoirView, PlanError> {
        match self.contents {
            None => Ok(self),
            Some(t) => match t.concrete {
                None => Err(PlanError::UnresolvedQuantity),
                Some(c) => if c * factor > u32::MAX {
                    Err(PlanError::CapacityExceeded { needed: (c * factor) as u64 })
                } else {
                    self.replaced(
                        TokenView {
                            quantity: NumberToken::Constant((c * factor) as u32),
                            compound: t.compound,
                            priority: t.priority,
                            concrete: Some((c * factor) as u32),
                        },
                    )
                },
            },
        }
    }
}

impl Clone for Reservoir {
    fn clone(&self) -> (r: Self)
        ensures
            r@ == self@,
    {
        Reservoir {
            contents: match &self.contents {
                Some(t) => Some(t.clone()),
                None => None,
            },
            reservoir_size: self.reservoir_size,
        }
    }
}

impl Reservoir {
    /// Adding to a reservoir is no operation of the machine: the reservoir stays as it is.
    pub fn add(&mut self, chem: &ChemToken)
        ensures
            *final(self) == *old(self),
    {
    }

    /// A reservoir that holds `contents`, of the smallest class that does.
    pub fn new(contents: &ChemToken) -> (r: Result<Reservoir, PlanError>)
        ensures
            match Reservoir::empty_view().replaced(contents@) {
                Ok(v) => r is Ok && r->Ok_0@ == v,
                Err(e) => r == Err::<Reservoir, PlanError>(e),
            },
    {
        let size = match contents.size() {
            Ok(size) => size,
            Err(e) => { return Err(e); },
        };
        match ReservoirSize::fit(size) {
            Ok(class) => Ok(Reservoir { contents: Some(contents.clone()), reservoir_size: class }),
            Err(e) => Err(e),
        }
    }

    /// The view of an empty reservoir of the smallest class.
    pub open spec fn empty_view() -> ReservoirView {
        ReservoirView { contents: None, class: ReservoirSize::Empty }
    }

    pub fn empty() -> (r: Reservoir)
        ensures
            r@ == Reservoir::empty_view(),
    {
        Reservoir { contents: None, reservoir_size: ReservoirSize::Empty }
    }

    /// Moves the reservoir to the next class. A large reservoir cannot grow.
    pub fn upgrade_size(&mut self) -> (r: Result<(), PlanError>)
        ensures
            final(self)@.contents == old(self)@.contents,
            match old(self)@.class {
                ReservoirSize::Empty => r is Ok && final(self)@.class == ReservoirSize::Small,
                ReservoirSize::Small => r is Ok && final(self)@.class == ReservoirSize::Large,
                ReservoirSize::Large => r == Err::<(), PlanError>(
                    PlanError::CapacityExceeded { needed: (LARGE_RESERVOIR + 1) as u64 },
                ) && final(self)@.class == ReservoirSize::Large,
            },
    {
        match self.reservoir_size {
            ReservoirSize::Empty => {
                self.reservoir_size = ReservoirSize::Small;
                Ok(())
            },
            ReservoirSize::Small => {
                self.reservoir_size = ReservoirSize::Large;
                Ok(())
            },
            ReservoirSize::Large => Err(
                PlanError::CapacityExceeded { needed: (LARGE_RESERVOIR + 1) as u64 },
            ),
        }
    }

    /// Puts `chem` in place of what the reservoir holds. On failure the reservoir is
    /// left as it was.
    pub fn replace(&mut self, chem: &ChemToken) -> (r: Result<(), PlanError>)
        ensures
            match old(self)@.replaced(chem@) {
                Ok(v) => r is Ok && final(self)@ == v,
                Err(e) => r == Err::<(), PlanError>(e) && final(self)@ == old(self)@,
            },
    {
        let size = match chem.size() {
            Ok(size) => size,
            Err(e) => { return Err(e); },
        };
        if self.reservoir_size.get_size() < size {
            match ReservoirSize::fit(size) {
                Ok(class) => { self.reservoir_size = class; },
                Err(e) => { return Err(e); },
            }
        }
        self.contents = Some(chem.clone());
        Ok(())
    }

    /// Empties the reservoir.
    pub fn clear(&mut self)
        ensures
            final(self)@ == old(self)@.cleared(),
    {
        self.contents = None;
    }

    /// Takes `amount` units out of the reservoir. On failure the reservoir is left as
    /// it was.
    pub fn reduce(&mut self, amount: u32) -> (r: Result<(), PlanError>)
        ensures
            match old(self)@.reduced(amount) {
                Ok(v) => r is Ok && final(self)@ == v,
                Err(e) => r == Err::<(), PlanError>(e) && final(self)@ == old(self)@,
            },
    {
        match &mut self.contents {
            None => Err(PlanError::MissingReservoir),
            Some(token) => match token.concrete_quantity {
                None => Err(PlanError::UnresolvedQuantity),
                Some(c) => {
                    if c < amount {
                        Err(PlanError::InsufficientStock { have: c, need: amount })
                    } else {
                        token.concrete_quantity = Some(c - amount);
                        token.set_children_abstract();
                        Ok(())
                    }
                },
            },
        }
    }

    /// Multiplies what the reservoir holds by `amount`, and lets the class grow with
    /// it. On failure the reservoir is left as it was.
    pub fn multiply(&mut self, amount: u32) -> (r: Result<(), PlanError>)
        ensures
            match old(self)@.multiplied(amount) {
                Ok(v) => r is Ok && final(self)@ == v,
                Err(e) => r == Err::<(), PlanError>(e) && final(self)@ == old(self)@,
            },
    {
        let scaled = match &self.contents {
            None => { return Ok(()); },
            Some(token) => match token.concrete_quantity {
                None => { return Err(PlanError::UnresolvedQuantity); },
                Some(c) => {
                    assert(c * amount <= 0xffff_ffff * 0xffff_ffff) by (nonlinear_arith)
                        requires
                            0 <= c <= 0xffff_ffff,
                            0 <= amount <= 0xffff_ffff,
                    ;
                    let product: u64 = c as u64 * amount as u64;
                    if product > u32::MAX as u64 {
                        return Err(PlanError::CapacityExceeded { needed: product });
                    }
                    ChemToken {
                        quantity: NumberToken::Constant(product as u32),
                        chemical: token.chemical.clone(),
                        priority: token.priority,
                        concrete_quantity: Some(product as u32),
                    }
                },
            },
        };
        self.replace(&scaled)
    }
}

/// The reservoirs of the machine, in their fixed order.
#[derive(Debug)]
pub struct ChemState {
    pub chems: Vec<Reservoir>,
}

/// The views of a sequence of reservoirs.
pub open spec fn reservoir_views(s: Seq<Reservoir>) -> Seq<ReservoirView> {
    s.map_values(|r: Reservoir| r@)
}

impl View for ChemState {
    type V = Seq<ReservoirView>;

    open spec fn view(&self) -> Seq<ReservoirView> {
        reservoir_views(self.chems@)
    }
}

/// Holding compound `c`, as a predicate on reservoirs.
pub open spec fn holding(c: CompoundView) -> spec_fn(ReservoirView) -> bool {
    |r: ReservoirView| r.holds(c)
}

/// Holding nothing, as a predicate on reservoirs.
pub open spec fn vacant() -> spec_fn(ReservoirView) -> bool {
    |r: ReservoirView| r.contents is None
}

/// The first reservoir of the bank that holds compound `c`.
pub open spec fn find_compound(bank: Seq<ReservoirView>, c: CompoundView) -> Option<int> {
    first_index(bank, holding(c))
}

/// The first reservoir of the bank that holds nothing.
pub open spec fn first_empty_index(bank: Seq<ReservoirView>) -> Option<int> {
    first_index(bank, vacant())
}

/// How many reservoirs of the bank hold something.
pub open spec fn occupied_count(bank: Seq<ReservoirView>) -> nat
    decreases bank.len(),
{
    if bank.len() == 0 {
        0
    } else {
        occupied_count(bank.drop_last()) + if bank.last().contents is Some {
            1nat
        } else {
            0nat
        }
    }
}

/// The sizes of what the reservoirs hold, summed up: the first size that is not
/// there, or the first sum that does not fit, fails the whole.
pub open spec fn bank_size(bank: Seq<ReservoirView>) -> Result<u32, PlanError>
    decreases bank.len(),
{
    if bank.len() == 0 {
        Ok(0)
    } else {
        match bank_size(bank.drop_last()) {
            Err(e) => Err(e),
            Ok(sum) => match bank.last().contents {
                None => Ok(sum),
                Some(t) => match t.size() {
                    Err(e) => Err(e),
                    Ok(s) => if sum + s > u32::MAX {
                        Err(PlanError::CapacityExceeded { needed: (sum + s) as u64 })
                    } else {
                        Ok((sum + s) as u32)
                    },
                },
            },
        }
    }
}

/// The bank filled up with empty reservoirs to the machine's number of them.
pub open spec fn padded(bank: Seq<ReservoirView>) -> Seq<ReservoirView> {
    if bank.len() >= NUM_RESERVOIRS {
        bank
    } else {
        bank + Seq::new((NUM_RESERVOIRS - bank.len()) as nat, |i: int| Reservoir::empty_view())
    }
}

/// The reservoirs of the bank that hold something, in their order.
pub open spec fn occupied_only(bank: Seq<ReservoirView>) -> Seq<ReservoirView>
    decreases bank.len(),
{
    if bank.len() == 0 {
        bank
    } else if bank.last().contents is Some {
        occupied_only(bank.drop_last()).push(bank.last())
    } else {
        occupied_only(bank.drop_last())
    }
}

/// Every reservoir of the bank multiplied by `factor`; the first that cannot be fails
/// the whole.
pub open spec fn multiplied_bank(bank: Seq<ReservoirView>, factor: u32) -> Result<
    Seq<ReservoirView>,
    PlanError,
>
    decreases bank.len(),
{
    if bank.len() == 0 {
        Ok(bank)
    } else {
        match multiplied_bank(bank.drop_last(), factor) {
            Err(e) => Err(e),
            Ok(head) => match bank.last().multiplied(factor) {
                Err(e) => Err(e),
                Ok(r) => Ok(head.push(r)),
            },
        }
    }
}

/// The name that stands for nothing.
pub open spec fn no_name() -> Seq<char> {
    seq!['N', 'o', 'n', 'e']
}

/// The text of the reservoir with number `number`: a comma and two blanks, `r` and
/// the number, a colon, the quantity in brackets, a blank and the name.
pub open spec fn reservoir_text(r: ReservoirView, number: nat) -> Seq<char> {
    let quantity = match r.contents {
        Some(t) => t.quantity,
        None => NumberToken::Constant(0),
    };
    let name = match r.contents {
        Some(t) => match t.compound.name {
            Some(n) => n,
            None => no_name(),
        },
        None => no_name(),
    };
    seq![',', ' ', ' ', 'r'] + decimal(number) + seq![':', '('] + quantity_text(quantity) + seq![
        ')',
        ' ',
    ] + name
}

/// The texts of the reservoirs of a bank, numbered from 1.
pub open spec fn reservoirs_text(bank: Seq<ReservoirView>) -> Seq<char>
    decreases bank.len(),
{
    if bank.len() == 0 {
        Seq::empty()
    } else {
        reservoirs_text(bank.drop_last()) + reservoir_text(bank.last(), bank.len())
    }
}

/// The text of a bank: its reservoirs in square brackets.
pub open spec fn bank_text(bank: Seq<ReservoirView>) -> Seq<char> {
    seq!['['] + reservoirs_text(bank) + seq![']']
}

/// The units of the class of each reservoir.
pub open spec fn class_units(bank: Seq<ReservoirView>) -> Seq<u32> {
    bank.map_values(|r: ReservoirView| r.class.units())
}

/// `find_compound` gives the least index whose reservoir holds the compound.
pub proof fn lemma_find_compound(bank: Seq<ReservoirView>, c: CompoundView)
    ensures
        match find_compound(bank, c) {
            Some(i) => 0 <= i < bank.len() && bank[i].holds(c) && forall|j: int|
                0 <= j < i ==> !(#[trigger] bank[j]).holds(c),
            None => forall|j: int| 0 <= j < bank.len() ==> !(#[trigger] bank[j]).holds(c),
        },
{
    lemma_first_index(bank, holding(c));
}

/// `first_empty_index` gives the least index whose reservoir holds nothing.
pub proof fn lemma_first_empty_index(bank: Seq<ReservoirView>)
    ensures
        match first_empty_index(bank) {
            Some(i) => 0 <= i < bank.len() && bank[i].contents is None && forall|j: int|
                0 <= j < i ==> (#[trigger] bank[j]).contents is Some,
            None => forall|j: int| 0 <= j < bank.len() ==> (#[trigger] bank[j]).contents is Some,
        },
{
    lemma_first_index(bank, vacant());
}

/// Once a prefix of the bank fails to multiply, so does the whole, with the same error.
pub proof fn lemma_multiplied_bank_prefix_err(bank: Seq<ReservoirView>, factor: u32, n: int)
    requires
        0 <= n <= bank.len(),
        multiplied_bank(bank.take(n), factor) is Err,
    ensures
        multiplied_bank(bank, factor) == multiplied_bank(bank.take(n), factor),
    decreases bank.len() - n,
{
    if n < bank.len() {
        assert(bank.take(n + 1).drop_last() =~= bank.take(n));
        lemma_multiplied_bank_prefix_err(bank, factor, n + 1);
    } else {
        assert(bank.take(n) =~= bank);
    }
}

/// Once a prefix of the bank has no size, neither has the whole, with the same error.
pub proof fn lemma_bank_size_prefix_err(bank: Seq<ReservoirView>, n: int)
    requires
        0 <= n <= bank.len(),
        bank_size(bank.take(n)) is Err,
    ensures
        bank_size(bank) == bank_size(bank.take(n)),
    decreases bank.len() - n,
{
    if n < bank.len() {
        assert(bank.take(n + 1).drop_last() =~= bank.take(n));
        lemma_bank_size_prefix_err(bank, n + 1);
    } else {
        assert(bank.take(n) =~= bank);
    }
}

/// No more reservoirs are occupied than there are.
pub proof fn lemma_occupied_count_bound(bank: Seq<ReservoirView>)
    ensures
        occupied_count(bank) <= bank.len(),
    decreases bank.len(),
{
    if bank.len() > 0 {
        lemma_occupied_count_bound(bank.drop_last());
    }
}

impl ChemState {
    /// Multiplies what every reservoir holds by `amount`. On failure the bank is left as
    /// it was.
    pub fn multiply(&mut self, amount: u32) -> (r: Result<(), PlanError>)
        ensures
            match multiplied_bank(old(self)@, amount) {
                Ok(v) => r is Ok && final(self)@ == v,
                Err(e) => r == Err::<(), PlanError>(e) && final(self)@ == old(self)@,
            },
    {
        let ghost bank = self@;
        let mut scaled: Vec<Reservoir> = Vec::new();
        let mut i: usize = 0;
        assert(bank.take(0) =~= Seq::empty());
        assert(reservoir_views(scaled@) =~= Seq::empty());
        while i < self.chems.len()
            invariant
                i <= self.chems.len(),
                bank == self@,
                multiplied_bank(bank.take(i as int), amount) == Ok::<Seq<ReservoirView>, PlanError>(
                    reservoir_views(scaled@),
                ),
            decreases self.chems.len() - i,
        {
            proof {
                assert(bank.take(i + 1).drop_last() =~= bank.take(i as int));
                assert(bank.take(i + 1).last() == self.chems@[i as int]@);
            }
            let mut reservoir = self.chems[i].clone();
            match reservoir.multiply(amount) {
                Ok(()) => {
                    proof {
                        assert(reservoir_views(scaled@.push(reservoir)) =~= reservoir_views(
                            scaled@,
                        ).push(reservoir@));
                    }
                    scaled.push(reservoir);
                },
                Err(e) => {
                    proof {
                        assert(multiplied_bank(bank.take(i + 1), amount) == Err::<
                            Seq<ReservoirView>,
                            PlanError,
                        >(e));
                        lemma_multiplied_bank_prefix_err(bank, amount, i + 1);
                    }
                    return Err(e);
                },
            }
            i += 1;
        }
        assert(bank.take(i as int) =~= bank);
        self.chems = scaled;
        Ok(())
    }

    /// The bank as text, for the eye.
    pub fn to_text(&self) -> (text: String)
        ensures
            text@ == bank_text(self@),
    {
        let ghost bank = self@;
        let mut text = String::new();
        proof {
            reveal_strlit("[");
            reveal_strlit("]");
            reveal_strlit(",  r");
            reveal_strlit(":(");
            reveal_strlit(") ");
            reveal_strlit("None");
            assert("["@ =~= seq!['[']);
            assert("]"@ =~= seq![']']);
            assert(",  r"@ =~= seq![',', ' ', ' ', 'r']);
            assert(":("@ =~= seq![':', '(']);
            assert(") "@ =~= seq![')', ' ']);
            assert("None"@ =~= no_name());
            assert(bank.take(0) =~= Seq::empty());
        }
        text.append("[");
        let mut i: usize = 0;
        assert(text@ =~= seq!['['] + reservoirs_text(bank.take(0)));
        while i < self.chems.len()
            invariant
                i <= self.chems.len(),
                bank == self@,
                text@ == seq!['['] + reservoirs_text(bank.take(i as int)),
                ",  r"@ == seq![',', ' ', ' ', 'r'],
                ":("@ == seq![':', '('],
                ") "@ == seq![')', ' '],
                "None"@ == no_name(),
            decreases self.chems.len() - i,
        {
            let ghost before = text@;
            proof {
                assert(bank.take(i + 1).drop_last() =~= bank.take(i as int));
                assert(bank.take(i + 1).last() == self.chems@[i as int]@);
            }
            text.append(",  r");
            push_decimal(&mut text, (i + 1) as u64);
            text.append(":(");
            match &self.chems[i].contents {
                Some(token) => {
                    let quantity = token.quantity.as_text();
                    text.append(quantity.as_str());
                    text.append(") ");
                    match &token.chemical.name {
                        Some(name) => text.append(name.as_str()),
                        None => text.append("None"),
                    }
                },
                None => {
                    let quantity = NumberToken::Constant(0).as_text();
                    text.append(quantity.as_str());
                    text.append(") ");
                    text.append("None");
                },
            }
            assert(text@ =~= before + reservoir_text(bank[i as int], (i + 1) as nat));
            i += 1;
            assert(text@ =~= seq!['['] + reservoirs_text(bank.take(i as int)));
        }
        assert(bank.take(i as int) =~= bank);
        text.append("]");
        assert(text@ =~= bank_text(bank));
        text
    }

    /// The units that the bank holds in all.
    pub fn size(&self) -> (r: Result<u32, PlanError>)
        ensures
            r == bank_size(self@),
    {
        let ghost bank = self@;
        let mut sum: u32 = 0;
        let mut i: usize = 0;
        assert(bank.take(0) =~= Seq::empty());
        while i < self.chems.len()
            invariant
                i <= self.chems.len(),
                bank == self@,
                bank_size(bank.take(i as int)) == Ok::<u32, PlanError>(sum),
            decreases self.chems.len() - i,
        {
            proof {
                assert(bank.take(i + 1).drop_last() =~= bank.take(i as int));
                assert(bank.take(i + 1).last() == self.chems@[i as int]@);
            }
            match &self.chems[i].contents {
                None => {},
                Some(token) => {
                    match token.size() {
                        Err(e) => {
                            proof {
                                lemma_bank_size_prefix_err(bank, i + 1);
                            }
                            return Err(e);
                        },
                        Ok(s) => {
                            let wide: u64 = sum as u64 + s as u64;
                            if wide > u32::MAX as u64 {
                                proof {
                                    lemma_bank_size_prefix_err(bank, i + 1);
                                }
                                return Err(PlanError::CapacityExceeded { needed: wide });
                            }
                            sum = wide as u32;
                        },
                    }
                },
            }
            i += 1;
        }
        assert(bank.take(i as int) =~= bank);
        Ok(sum)
    }

    /// The first reservoir that holds a compound structurally equal to `chem`.
    pub fn find_chem(&self, chem: &Chemical) -> (r: Option<usize>)
        ensures
            match r {
                Some(i) => find_compound(self@, chem@) == Some(i as int) && i < self@.len(),
                None => find_compound(self@, chem@) is None,
            },
    {
        let ghost p = holding(chem@);
        let mut i: usize = 0;
        while i < self.chems.len()
            invariant
                i <= self.chems.len(),
                p == holding(chem@),
                forall|j: int| 0 <= j < i ==> !p(#[trigger] self@[j]),
            decreases self.chems.len() - i,
        {
            let found = match &self.chems[i].contents {
                Some(token) => token.chemical.same_as(chem),
                None => false,
            };
            if found {
                proof {
                    assert(p(self@[i as int]));
                    lemma_first_index_is(self@, p, i as int);
                }
                return Some(i);
            }
            assert(!p(self@[i as int]));
            i += 1;
        }
        proof {
            lemma_first_index_none(self@, p);
        }
        None
    }

    /// A bank of the given reservoirs, filled up with empty ones to the machine's
    /// number of them.
    pub fn new(reservoirs: &Vec<Reservoir>) -> (r: ChemState)
        ensures
            r@ == padded(reservoir_views(reservoirs@)),
    {
        let mut chems: Vec<Reservoir> = Vec::new();
        let mut i: usize = 0;
        while i < reservoirs.len()
            invariant
                i <= reservoirs.len(),
                chems@.len() == i,
                forall|j: int| 0 <= j < i ==> (#[trigger] chems@[j])@ == reservoirs@[j]@,
            decreases reservoirs.len() - i,
        {
            chems.push(reservoirs[i].clone());
            i += 1;
        }
        while chems.len() < NUM_RESERVOIRS
            invariant
                chems@.len() >= reservoirs@.len(),
                chems@.len() <= NUM_RESERVOIRS || chems@.len() == reservoirs@.len(),
                forall|j: int|
                    0 <= j < reservoirs@.len() ==> (#[trigger] chems@[j])@ == reservoirs@[j]@,
                forall|j: int|
                    reservoirs@.len() <= j < chems@.len() ==> (#[trigger] chems@[j])@
                        == Reservoir::empty_view(),
            decreases NUM_RESERVOIRS - chems.len(),
        {
            chems.push(Reservoir::empty());
        }
        let r = ChemState { chems };
        assert(r@ =~= padded(reservoir_views(reservoirs@)));
        r
    }

    /// A copy of reservoir `index`.
    pub fn get(&self, index: usize) -> (r: Reservoir)
        requires
            index < self@.len(),
        ensures
            r@ == self@[index as int],
    {
        self.chems[index].clone()
    }

    /// Puts `chem` into reservoir `index`. On failure the bank is left as it was.
    pub fn replace(&mut self, index: usize, chem: &ChemToken) -> (r: Result<(), PlanError>)
        requires
            index < old(self)@.len(),
        ensures
            match old(self)@[index as int].replaced(chem@) {
                Ok(v) => r is Ok && final(self)@ == old(self)@.update(index as int, v),
                Err(e) => r == Err::<(), PlanError>(e) && final(self)@ == old(self)@,
            },
    {
        let r = self.chems[index].replace(chem);
        assert(self@ =~= old(self)@.update(index as int, self.chems@[index as int]@));
        r
    }

    /// Empties reservoir `index`.
    pub fn clear(&mut self, index: usize)
        requires
            index < old(self)@.len(),
        ensures
            final(self)@ == old(self)@.update(index as int, old(self)@[index as int].cleared()),
    {
        self.chems[index].clear();
        assert(self@ =~= old(self)@.update(index as int, old(self)@[index as int].cleared()));
    }

    /// Takes `amount` units out of reservoir `index`. On failure the bank is left as it
    /// was.
    pub fn reduce(&mut self, index: usize, amount: u32) -> (r: Result<(), PlanError>)
        requires
            index < old(self)@.len(),
        ensures
            match old(self)@[index as int].reduced(amount) {
                Ok(v) => r is Ok && final(self)@ == old(self)@.update(index as int, v),
                Err(e) => r == Err::<(), PlanError>(e) && final(self)@ == old(self)@,
            },
    {
        let r = self.chems[index].reduce(amount);
        assert(self@ =~= old(self)@.update(index as int, self.chems@[index as int]@));
        r
    }

    /// The first reservoir that holds nothing.
    pub fn first_empty(&self) -> (r: Result<usize, PlanError>)
        ensures
            match r {
                Ok(i) => first_empty_index(self@) == Some(i as int) && i < self@.len(),
                Err(e) => first_empty_index(self@) is None && e == PlanError::NoEmptyReservoir,
            },
    {
        let ghost p = vacant();
        let mut i: usize = 0;
        while i < self.chems.len()
            invariant
                i <= self.chems.len(),
                p == vacant(),
                forall|j: int| 0 <= j < i ==> !p(#[trigger] self@[j]),
            decreases self.chems.len() - i,
        {
            if self.chems[i].contents.is_none() {
                proof {
                    assert(p(self@[i as int]));
                    lemma_first_index_is(self@, p, i as int);
                }
                return Ok(i);
            }
            assert(!p(self@[i as int]));
            i += 1;
        }
        proof {
            lemma_first_index_none(self@, p);
        }
        Err(PlanError::NoEmptyReservoir)
    }

    /// How many reservoirs hold something: never more than there are reservoirs.
    pub fn count_nonempty(&self) -> (count: usize)
        ensures
            count == occupied_count(self@),
            count <= self@.len(),
    {
        let ghost bank = self@;
        let mut count: usize = 0;
        let mut i: usize = 0;
        assert(bank.take(0) =~= Seq::empty());
        while i < self.chems.len()
            invariant
                i <= self.chems.len(),
                bank == self@,
                count <= i,
                count == occupied_count(bank.take(i as int)),
            decreases self.chems.len() - i,
        {
            proof {
                assert(bank.take(i + 1).drop_last() =~= bank.take(i as int));
                assert(bank.take(i + 1).last() == self.chems@[i as int]@);
            }
            if self.chems[i].contents.is_some() {
                count += 1;
            }
            i += 1;
        }
        assert(bank.take(i as int) =~= bank);
        count
    }

    /// Moves the occupied reservoirs to the front, in their order, and fills the bank
    /// up with empty ones to the machine's number of them.
    pub fn pad(&mut self)
        ensures
            final(self)@ == padded(occupied_only(old(self)@)),
    {
        let ghost bank = self@;
        let mut kept: Vec<Reservoir> = Vec::new();
        let mut i: usize = 0;
        assert(bank.take(0) =~= Seq::empty());
        assert(reservoir_views(kept@) =~= Seq::empty());
        while i < self.chems.len()
            invariant
                i <= self.chems.len(),
                bank == self@,
                reservoir_views(kept@) == occupied_only(bank.take(i as int)),
            decreases self.chems.len() - i,
        {
            proof {
                assert(bank.take(i + 1).drop_last() =~= bank.take(i as int));
                assert(bank.take(i + 1).last() == self.chems@[i as int]@);
            }
            if self.chems[i].contents.is_some() {
                let reservoir = self.chems[i].clone();
                proof {
                    assert(reservoir_views(kept@.push(reservoir)) =~= reservoir_views(kept@).push(
                        reservoir@,
                    ));
                }
                kept.push(reservoir);
            }
            i += 1;
        }
        assert(bank.take(i as int) =~= bank);
        let ghost occupied = reservoir_views(kept@);
        while kept.len() < NUM_RESERVOIRS
            invariant
                kept@.len() >= occupied.len(),
                kept@.len() <= NUM_RESERVOIRS || kept@.len() == occupied.len(),
                forall|j: int| 0 <= j < occupied.len() ==> (#[trigger] kept@[j])@ == occupied[j],
                forall|j: int|
                    occupied.len() <= j < kept@.len() ==> (#[trigger] kept@[j])@
                        == Reservoir::empty_view(),
            decreases NUM_RESERVOIRS - kept.len(),
        {
            kept.push(Reservoir::empty());
        }
        self.chems = kept;
        assert(self@ =~= padded(occupied));
    }

    /// The units of the capacity class of each reservoir, in their order.
    pub fn get_sizes(&self) -> (sizes: Vec<u32>)
        ensures
            sizes@ == class_units(self@),
    {
        let mut sizes: Vec<u32> = Vec::new();
        let mut i: usize = 0;
        while i < self.chems.len()
            invariant
                i <= self.chems.len(),
                sizes@.len() == i,
                forall|j: int| 0 <= j < i ==> #[trigger] sizes@[j] == self@[j].class.units(),
            decreases self.chems.len() - i,
        {
            sizes.push(self.chems[i].reservoir_size.get_size());
            i += 1;
        }
        assert(sizes@ =~= class_units(self@));
        sizes
    }
}

impl Default for ChemState {
    /// A bank of empty reservoirs.
    fn default() -> (r: Self)
        ensures
            r@ == padded(Seq::empty()),
    {
        let none: Vec<Reservoir> = Vec::new();
        assert(reservoir_views(none@) =~= Seq::empty());
        ChemState::new(&none)
    }
}

impl Clone for ChemState {
    fn clone(&self) -> (r: Self)
        ensures
            r@ == self@,
    {
        let mut chems: Vec<Reservoir> = Vec::new();
        let mut i: usize = 0;
        while i < self.chems.len()
            invariant
                i <= self.chems.len(),
                chems@.len() == i,
                forall|j: int| 0 <= j < i ==> (#[trigger] chems@[j])@ == self.chems@[j]@,
            decreases self.chems.len() - i,
        {
            chems.push(self.chems[i].clone());
            i += 1;
        }
        let r = ChemState { chems };
        assert(r@ =~= self@);
        r
    }
}

impl ReservoirView {
    /// Equality of reservoirs: the same class, and both empty or holding tokens that
    /// are equal in structure.
    pub open spec fn same(self, other: ReservoirView) -> bool {
        &&& self.class == other.class
        &&& match (self.contents, other.contents) {
            (Some(a), Some(b)) => a.same(b),
            (None, None) => true,
            _ => false,
        }
    }
}

/// Equality of banks: as many reservoirs, equal position by position.
pub open spec fn same_bank(a: Seq<ReservoirView>, b: Seq<ReservoirView>) -> bool {
    &&& a.len() == b.len()
    &&& forall|i: int| 0 <= i < a.len() ==> (#[trigger] a[i]).same(b[i])
}

impl Reservoir {
    /// Whether the reservoirs are of one class and hold tokens equal in structure.
    pub fn same_as(&self, other: &Reservoir) -> (r: bool)
        ensures
            r == self@.same(other@),
    {
        let contents = match (&self.contents, &other.contents) {
            (Some(a), Some(b)) => a.same_as(b),
            (None, None) => true,
            _ => false,
        };
        contents && self.reservoir_size == other.reservoir_size
    }
}

impl ChemState {
    /// Whether the banks have as many reservoirs, equal position by position.
    pub fn same_as(&self, other: &ChemState) -> (r: bool)
        ensures
            r == same_bank(self@, other@),
    {
        if self.chems.len() != other.chems.len() {
            return false;
        }
        let mut i: usize = 0;
        while i < self.chems.len()
            invariant
                i <= self.chems.len(),
                self.chems.len() == other.chems.len(),
                forall|j: int| 0 <= j < i ==> (#[trigger] self@[j]).same(other@[j]),
            decreases self.chems.len() - i,
        {
            if !self.chems[i].same_as(&other.chems[i]) {
                assert(!self@[i as int].same(other@[i as int]));
                return false;
            }
            i += 1;
        }
        true
    }
}

impl PartialEq for Reservoir {
    fn eq(&self, other: &Self) -> (r: bool) {
        self.same_as(other)
    }
}

impl vstd::std_specs::cmp::PartialEqSpecImpl for Reservoir {
    open spec fn obeys_eq_spec() -> bool {
        true
    }

    open spec fn eq_spec(&self, other: &Self) -> bool {
        self@.same(other@)
    }
}

impl Eq for Reservoir {

}

impl PartialEq for ChemState {
    fn eq(&self, other: &Self) -> (r: bool) {
        self.same_as(other)
    }
}

impl vstd::std_specs::cmp::PartialEqSpecImpl for ChemState {
    open spec fn obeys_eq_spec() -> bool {
        true
    }

    open spec fn eq_spec(&self, other: &Self) -> bool {
        same_bank(self@, other@)
    }
}

impl Eq for ChemState {

}

} // verus!
