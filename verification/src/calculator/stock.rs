//! The bank that a recipe starts from: one reservoir for each base reagent, holding
//! all that the recipe takes of it.

use crate::calculator::reservoir::{
    padded, reservoir_views, ChemState, Reservoir, ReservoirView,
};
use crate::chemicals::{ChemToken, Chemical, CompoundView, NumberToken, PlanError, TokenView};
use crate::seqs::{first_index, lemma_first_index_is, lemma_first_index_none};
use vstd::prelude::*;

verus! {

/// A base reagent and the amount that a recipe takes of it.
#[derive(Debug)]
pub struct ReagentTotal {
    pub chemical: Chemical,
    pub total: u32,
}

/// The mathematical value of a [`ReagentTotal`].
pub struct TotalView {
    pub compound: CompoundView,
    pub total: u32,
}

impl View for ReagentTotal {
    type V = TotalView;

    open spec fn view(&self) -> TotalView {
        TotalView { compound: self.chemical@, total: self.total }
    }
}

/// The views of a sequence of totals.
pub open spec fn total_views(s: Seq<ReagentTotal>) -> Seq<TotalView> {
    s.map_values(|e: ReagentTotal| e@)
}

/// Being the total of compound `c`, as a predicate on totals.
pub open spec fn total_of(c: CompoundView) -> spec_fn(TotalView) -> bool {
    |e: TotalView| e.compound.same(c)
}

/// The position of compound `c` among the totals.
pub open spec fn find_total(totals: Seq<TotalView>, c: CompoundView) -> Option<int> {
    first_index(totals, total_of(c))
}

/// The totals after `amount` of compound `c` was counted: added to the compound's
/// total where it has one, else as a new total behind the others.
pub open spec fn counted_one(totals: Seq<TotalView>, c: CompoundView, amount: Option<u32>) -> Result<
    Seq<TotalView>,
    PlanError,
> {
    match amount {
        None => Err(PlanError::UnresolvedQuantity),
        Some(a) => match find_total(totals, c) {
            None => Ok(totals.push(TotalView { compound: c, total: a })),
            Some(i) => if totals[i].total + a > u32::MAX {
                Err(PlanError::CapacityExceeded { needed: (totals[i].total + a) as u64 })
            } else {
                Ok(
                    totals.update(
                        i,
                        TotalView {
                            compound: totals[i].compound,
                            total: (totals[i].total + a) as u32,
                        },
                    ),
                )
            },
        },
    }
}

/// The totals after every named compound in `t` was counted, the token itself first
/// and then its parts from left to right.
pub open spec fn counted(t: TokenView, totals: Seq<TotalView>) -> Result<Seq<TotalView>, PlanError>
    decreases t,
{
    let here = if t.compound.name is Some {
        counted_one(totals, t.compound, t.concrete)
    } else {
        Ok(totals)
    };
    match here {
        Err(e) => Err(e),
        Ok(with_self) => counted_parts(t.compound.parts, with_self),
    }
}

/// The totals after every named compound in `parts` was counted.
pub open spec fn counted_parts(parts: Seq<TokenView>, totals: Seq<TotalView>) -> Result<
    Seq<TotalView>,
    PlanError,
>
    decreases parts,
{
    if parts.len() == 0 {
        Ok(totals)
    } else {
        match counted_parts(parts.drop_last(), totals) {
            Err(e) => Err(e),
            Ok(head) => counted(parts.last(), head),
        }
    }
}

/// The token that stands in a reservoir for a base reagent's stock.
pub open spec fn stock_token(e: TotalView) -> TokenView {
    TokenView {
        quantity: NumberToken::Constant(e.total),
        compound: e.compound,
        priority: 0,
        concrete: Some(e.total),
    }
}

/// One reservoir for each total, of the smallest class that holds it; the first
/// total that fits no reservoir fails the whole.
pub open spec fn stocked(totals: Seq<TotalView>) -> Result<Seq<ReservoirView>, PlanError>
    decreases totals.len(),
{
    if totals.len() == 0 {
        Ok(Seq::empty())
    } else {
        match stocked(totals.drop_last()) {
            Err(e) => Err(e),
            Ok(head) => match Reservoir::empty_view().replaced(stock_token(totals.last())) {
                Err(e) => Err(e),
                Ok(r) => Ok(head.push(r)),
            },
        }
    }
}

/// The bank that the recipe of token `t` starts from: a reservoir for each base reagent
/// in the order in which the recipe first names them, then empty ones up to the
/// machine's number. More base reagents than that make a longer bank.
pub open spec fn initial_bank(t: TokenView) -> Result<Seq<ReservoirView>, PlanError> {
    match counted(t, Seq::empty()) {
        Err(e) => Err(e),
        Ok(totals) => match stocked(totals) {
            Err(e) => Err(e),
            Ok(reservoirs) => Ok(padded(reservoirs)),
        },
    }
}

/// Once a prefix of the parts fails to count, so does the whole, with the same error.
pub proof fn lemma_counted_parts_prefix_err(parts: Seq<TokenView>, totals: Seq<TotalView>, n: int)
    requires
        0 <= n <= parts.len(),
        counted_parts(parts.take(n), totals) is Err,
    ensures
        counted_parts(parts, totals) == counted_parts(parts.take(n), totals),
    decreases parts.len() - n,
{
    if n < parts.len() {
        assert(parts.take(n + 1).drop_last() =~= parts.take(n));
        lemma_counted_parts_prefix_err(parts, totals, n + 1);
    } else {
        assert(parts.take(n) =~= parts);
    }
}

/// Once a prefix of the totals fits no reservoirs, neither does the whole.
pub proof fn lemma_stocked_prefix_err(totals: Seq<TotalView>, n: int)
    requires
        0 <= n <= totals.len(),
        stocked(totals.take(n)) is Err,
    ensures
        stocked(totals) == stocked(totals.take(n)),
    decreases totals.len() - n,
{
    if n < totals.len() {
        assert(totals.take(n + 1).drop_last() =~= totals.take(n));
        lemma_stocked_prefix_err(totals, n + 1);
    } else {
        assert(totals.take(n) =~= totals);
    }
}

/// The position among `totals` of the total of a compound structurally equal to `chem`.
fn position_of(totals: &Vec<ReagentTotal>, chem: &Chemical) -> (r: Option<usize>)
    ensures
        match r {
            Some(i) => find_total(total_views(totals@), chem@) == Some(i as int) && i
                < totals@.len(),
            None => find_total(total_views(totals@), chem@) is None,
        },
{
    let ghost p = total_of(chem@);
    let ghost views = total_views(totals@);
    let mut i: usize = 0;
    while i < totals.len()
        invariant
            i <= totals.len(),
            views == total_views(totals@),
            p == total_of(chem@),
            forall|j: int| 0 <= j < i ==> !p(#[trigger] views[j]),
        decreases totals.len() - i,
    {
        if totals[i].chemical.same_as(chem) {
            proof {
                assert(p(views[i as int]));
                lemma_first_index_is(views, p, i as int);
            }
            return Some(i);
        }
        assert(!p(views[i as int]));
        i += 1;
    }
    proof {
        lemma_first_index_none(views, p);
    }
    None
}

/// Counts every named compound in `chem` into `chem_map`, the token itself first and
/// then its parts from left to right.
pub fn count_raw_chems_recursive(chem_map: Vec<ReagentTotal>, chem: &ChemToken) -> (r: Result<
    Vec<ReagentTotal>,
    PlanError,
>)
    ensures
        match counted(chem@, total_views(chem_map@)) {
            Ok(v) => r is Ok && total_views(r->Ok_0@) == v,
            Err(e) => r is Err && r->Err_0 == e,
        },
    decreases chem,
{
    let mut map = chem_map;
    let ghost before = total_views(map@);
    proof {
        chem.chemical.lemma_view_parts();
    }
    if chem.chemical.name.is_some() {
        let amount = match chem.concrete_quantity {
            Some(amount) => amount,
            None => { return Err(PlanError::UnresolvedQuantity); },
        };
        match position_of(&map, &chem.chemical) {
            None => {
                let entry = ReagentTotal { chemical: chem.chemical.clone(), total: amount };
                proof {
                    assert(total_views(map@.push(entry)) =~= before.push(entry@));
                }
                map.push(entry);
                assert(counted_one(before, chem@.compound, chem@.concrete) == Ok::<
                    Seq<TotalView>,
                    PlanError,
                >(total_views(map@)));
            },
            Some(i) => {
                assert(before[i as int] == map@[i as int]@);
                let sum: u64 = map[i].total as u64 + amount as u64;
                if sum > u32::MAX as u64 {
                    return Err(PlanError::CapacityExceeded { needed: sum });
                }
                map[i].total = sum as u32;
                proof {
                    assert(total_views(map@) =~= before.update(
                        i as int,
                        TotalView {
                            compound: before[i as int].compound,
                            total: sum as u32,
                        },
                    ));
                    assert(counted_one(before, chem@.compound, chem@.concrete) == Ok::<
                        Seq<TotalView>,
                        PlanError,
                    >(total_views(map@)));
                }
            },
        }
    }
    let ghost parts = chem@.compound.parts;
    let ghost with_self = total_views(map@);
    let mut i: usize = 0;
    assert(parts.take(0) =~= Seq::empty());
    while i < chem.chemical.chemicals.len()
        invariant
            i <= chem.chemical.chemicals.len(),
            parts == chem@.compound.parts,
            parts.len() == chem.chemical.chemicals@.len(),
            forall|j: int|
                0 <= j < parts.len() ==> #[trigger] parts[j] == chem.chemical.chemicals@[j]@,
            before == total_views(chem_map@),
            counted(chem@, before) == counted_parts(parts, with_self),
            counted_parts(parts.take(i as int), with_self) == Ok::<Seq<TotalView>, PlanError>(
                total_views(map@),
            ),
        decreases chem.chemical.chemicals.len() - i,
    {
        proof {
            assert(parts.take(i + 1).drop_last() =~= parts.take(i as int));
            assert(parts.take(i + 1).last() == parts[i as int]);
        }
        match count_raw_chems_recursive(map, &chem.chemical.chemicals[i]) {
            Ok(next) => {
                map = next;
            },
            Err(e) => {
                proof {
                    assert(counted_parts(parts.take(i + 1), with_self) == Err::<
                        Seq<TotalView>,
                        PlanError,
                    >(e));
                    lemma_counted_parts_prefix_err(parts, with_self, i + 1);
                }
                return Err(e);
            },
        }
        i += 1;
    }
    assert(parts.take(i as int) =~= parts);
    Ok(map)
}

/// The bank that the recipe of `final_chem` starts from.
pub fn compute_initial_state(final_chem: &ChemToken) -> (r: Result<ChemState, PlanError>)
    ensures
        match initial_bank(final_chem@) {
            Ok(v) => r is Ok && r->Ok_0@ == v,
            Err(e) => r is Err && r->Err_0 == e,
        },
{
    let none: Vec<ReagentTotal> = Vec::new();
    assert(total_views(none@) =~= Seq::empty());
    let totals = match count_raw_chems_recursive(none, final_chem) {
        Ok(totals) => totals,
        Err(e) => { return Err(e); },
    };
    let ghost views = total_views(totals@);
    let mut reservoirs: Vec<Reservoir> = Vec::new();
    let mut i: usize = 0;
    assert(views.take(0) =~= Seq::empty());
    assert(reservoir_views(reservoirs@) =~= Seq::empty());
    while i < totals.len()
        invariant
            i <= totals.len(),
            views == total_views(totals@),
            counted(final_chem@, Seq::empty()) == Ok::<Seq<TotalView>, PlanError>(views),
            stocked(views.take(i as int)) == Ok::<Seq<ReservoirView>, PlanError>(
                reservoir_views(reservoirs@),
            ),
        decreases totals.len() - i,
    {
        proof {
            assert(views.take(i + 1).drop_last() =~= views.take(i as int));
            assert(views.take(i + 1).last() == totals@[i as int]@);
        }
        let total = totals[i].total;
        let token = ChemToken {
            quantity: NumberToken::Constant(total),
            chemical: totals[i].chemical.clone(),
            priority: 0,
            concrete_quantity: Some(total),
        };
        match Reservoir::new(&token) {
            Ok(reservoir) => {
                proof {
                    assert(token@ == stock_token(views[i as int]));
                    assert(reservoir_views(reservoirs@.push(reservoir)) =~= reservoir_views(
                        reservoirs@,
                    ).push(reservoir@));
                }
                reservoirs.push(reservoir);
            },
            Err(e) => {
                proof {
                    assert(token@ == stock_token(views[i as int]));
                    assert(stocked(views.take(i + 1)) == Err::<Seq<ReservoirView>, PlanError>(e));
                    lemma_stocked_prefix_err(views, i + 1);
                }
                return Err(e);
            },
        }
        i += 1;
    }
    assert(views.take(i as int) =~= views);
    Ok(ChemState::new(&reservoirs))
}

/// The temperatures after `temp` was noted: behind the others where it is new.
pub open spec fn noted(temps: Seq<u32>, temp: Option<u32>) -> Seq<u32> {
    match temp {
        Some(t) => if temps.contains(t) {
            temps
        } else {
            temps.push(t)
        },
        None => temps,
    }
}

/// The temperatures that token `t` asks for, each once, added to `temps`: that of
/// the token itself first and then those of its parts from left to right.
pub open spec fn temperatures(t: TokenView, temps: Seq<u32>) -> Seq<u32>
    decreases t,
{
    temperatures_of(t.compound.parts, noted(temps, t.compound.temp))
}

/// The temperatures that the tokens of `parts` ask for, added to `temps`.
pub open spec fn temperatures_of(parts: Seq<TokenView>, temps: Seq<u32>) -> Seq<u32>
    decreases parts,
{
    if parts.len() == 0 {
        temps
    } else {
        temperatures(parts.last(), temperatures_of(parts.drop_last(), temps))
    }
}

/// Notes every temperature that `chem` asks for, each once.
pub fn get_temps_recursive(temps_map: &mut Vec<u32>, chem: &ChemToken)
    ensures
        final(temps_map)@ == temperatures(chem@, old(temps_map)@),
    decreases chem,
{
    proof {
        chem.chemical.lemma_view_parts();
    }
    match chem.chemical.temp {
        Some(temp) => {
            let mut known = false;
            let mut i: usize = 0;
            while i < temps_map.len()
                invariant
                    i <= temps_map.len(),
                    temps_map@ == old(temps_map)@,
                    known == exists|j: int| 0 <= j < i && temps_map@[j] == temp,
                decreases temps_map.len() - i,
            {
                if temps_map[i] == temp {
                    known = true;
                }
                i += 1;
            }
            if !known {
                temps_map.push(temp);
            }
        },
        None => {},
    }
    let ghost parts = chem@.compound.parts;
    let ghost start = temps_map@;
    let mut i: usize = 0;
    assert(parts.take(0) =~= Seq::empty());
    while i < chem.chemical.chemicals.len()
        invariant
            i <= chem.chemical.chemicals.len(),
            parts == chem@.compound.parts,
            parts.len() == chem.chemical.chemicals@.len(),
            forall|j: int|
                0 <= j < parts.len() ==> #[trigger] parts[j] == chem.chemical.chemicals@[j]@,
            temps_map@ == temperatures_of(parts.take(i as int), start),
        decreases chem.chemical.chemicals.len() - i,
    {
        proof {
            assert(parts.take(i + 1).drop_last() =~= parts.take(i as int));
            assert(parts.take(i + 1).last() == parts[i as int]);
        }
        get_temps_recursive(temps_map, &chem.chemical.chemicals[i]);
        i += 1;
    }
    assert(parts.take(i as int) =~= parts);
}

} // verus!
