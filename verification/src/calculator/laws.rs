//! What holds of every step of a plan: mass is conserved, the bank keeps its ten
//! reservoirs, and capacity classes fit and never shrink.

use crate::calculator::planner::{
    by_priority, destination, insertion_point, lemma_by_priority_len, lemma_destination,
    lemma_moved_all_len, lemma_picked_index, lemma_step, lemma_taken_all_len, moved, moved_all,
    picked_index, plan, step, taken, taken_all,
};
use crate::calculator::reservoir::{
    lemma_find_compound, lemma_occupied_count_bound, occupied_count,
    padded, ReservoirSize, ReservoirView, NUM_RESERVOIRS,
};
use crate::calculator::stock::initial_bank;
use crate::calculator::tree::{lemma_leaves_nonempty, BranchView, TreeView};
use crate::chemicals::{parts_resolved, parts_total, PlanError, TokenView};
use crate::seqs::lemma_first_index;
use vstd::prelude::*;

verus! {

/// The concrete quantity of a token, 0 where it has none.
pub open spec fn units_of(t: TokenView) -> int {
    match t.concrete {
        Some(c) => c as int,
        None => 0,
    }
}

/// The concrete quantities that the reservoirs of a bank hold, summed up.
pub open spec fn bank_total(bank: Seq<ReservoirView>) -> int
    decreases bank.len(),
{
    if bank.len() == 0 {
        0
    } else {
        bank_total(bank.drop_last()) + match bank.last().contents {
            Some(t) => units_of(t),
            None => 0,
        }
    }
}

/// The total of a bank after one reservoir was changed.
pub proof fn lemma_bank_total_update(bank: Seq<ReservoirView>, i: int, r: ReservoirView)
    requires
        0 <= i < bank.len(),
    ensures
        bank_total(bank.update(i, r)) == bank_total(bank) - match bank[i].contents {
            Some(t) => units_of(t),
            None => 0,
        } + match r.contents {
            Some(t) => units_of(t),
            None => 0,
        },
    decreases bank.len(),
{
    let after = bank.update(i, r);
    if i == bank.len() - 1 {
        assert(after.drop_last() =~= bank.drop_last());
    } else {
        assert(after.drop_last() =~= bank.drop_last().update(i, r));
        lemma_bank_total_update(bank.drop_last(), i, r);
    }
}

/// The sum of the concrete quantities of tokens after one more was put among them.
pub proof fn lemma_parts_total_insert(s: Seq<TokenView>, i: int, t: TokenView)
    requires
        0 <= i <= s.len(),
    ensures
        parts_total(s.insert(i, t)) == parts_total(s) + units_of(t),
        parts_resolved(s.insert(i, t)) <==> parts_resolved(s) && t.concrete is Some,
    decreases s.len(),
{
    let after = s.insert(i, t);
    if i == s.len() {
        assert(after.drop_last() =~= s);
    } else {
        assert(after.drop_last() =~= s.drop_last().insert(i, t));
        assert(after.last() == s.last());
        lemma_parts_total_insert(s.drop_last(), i, t);
    }
    if parts_resolved(after) {
        assert(after[i].concrete is Some);
        assert forall|j: int| 0 <= j < s.len() implies (#[trigger] s[j]).concrete is Some by {
            if j < i {
                assert(after[j] == s[j]);
            } else {
                assert(after[j + 1] == s[j]);
            }
        }
    }
    if parts_resolved(s) && t.concrete is Some {
        assert forall|j: int| 0 <= j < after.len() implies (#[trigger] after[j]).concrete
            is Some by {
            if j < i {
                assert(after[j] == s[j]);
            } else if j > i {
                assert(after[j] == s[j - 1]);
            }
        }
    }
}

/// Ordering the ingredients by priority changes neither their sum nor whether all
/// of them are resolved.
pub proof fn lemma_by_priority_total(s: Seq<TokenView>)
    ensures
        parts_total(by_priority(s)) == parts_total(s),
        parts_resolved(by_priority(s)) <==> parts_resolved(s),
    decreases s.len(),
{
    if s.len() > 0 {
        let head = by_priority(s.drop_last());
        lemma_by_priority_total(s.drop_last());
        lemma_by_priority_len(s.drop_last());
        lemma_first_index(head, crate::calculator::planner::below(s.last().priority));
        lemma_parts_total_insert(head, insertion_point(head, s.last().priority), s.last());
        if parts_resolved(s) {
            assert forall|j: int| 0 <= j < s.drop_last().len() implies (
            #[trigger] s.drop_last()[j]).concrete is Some by {
                assert(s[j].concrete is Some);
            }
        }
        if parts_resolved(s.drop_last()) && s.last().concrete is Some {
            assert forall|j: int| 0 <= j < s.len() implies (#[trigger] s[j]).concrete is Some by {
                if j < s.len() - 1 {
                    assert(s.drop_last()[j].concrete is Some);
                }
            }
        }
    }
}

/// Taking the first `n` ingredients lowers the total of the bank by their sum.
pub proof fn lemma_taken_all_total(bank: Seq<ReservoirView>, ings: Seq<TokenView>, n: int)
    requires
        0 <= n <= ings.len(),
    ensures
        taken_all(bank, ings, n) matches Ok(after) ==> bank_total(bank) - bank_total(after)
            == parts_total(ings.take(n)),
    decreases n,
{
    if n > 0 {
        lemma_taken_all_total(bank, ings, n - 1);
        assert(ings.take(n).drop_last() =~= ings.take(n - 1));
        assert(ings.take(n).last() == ings[n - 1]);
        if let Ok(b) = taken_all(bank, ings, n - 1) {
            let ing = ings[n - 1];
            lemma_find_compound(b, ing.compound);
            if let Ok(after) = taken(b, ing) {
                let i = crate::calculator::reservoir::find_compound(b, ing.compound)->Some_0;
                lemma_bank_total_update(b, i, after[i]);
            }
        }
    } else {
        assert(ings.take(0) =~= Seq::empty());
    }
}

/// Mass is conserved: in a step that combines ingredients, the units written to the
/// destination are the units taken out of the reservoirs of the ingredients.
pub proof fn lemma_mass_conservation(bank: Seq<ReservoirView>, tree: BranchView, floor: u32)
    requires
        bank.len() == NUM_RESERVOIRS,
        tree.leaves()[picked_index(tree.leaves(), bank)].token.compound.parts.len() > 0,
    ensures
        step(bank, tree, floor) matches Ok(s) ==> ({
            let leaf = tree.leaves()[picked_index(tree.leaves(), bank)];
            let ings = by_priority(leaf.token.compound.parts);
            let reduced = taken_all(bank, ings, ings.len() as int)->Ok_0;
            &&& 1 <= s.target <= s.bank.len()
            &&& s.bank[s.target - 1].contents == Some(leaf.token)
            &&& leaf.token.size() is Ok
            &&& leaf.token.size()->Ok_0 == bank_total(bank) - bank_total(reduced)
        }),
{
    lemma_leaves_nonempty(tree);
    lemma_picked_index(tree.leaves(), bank);
    if let Ok(s) = step(bank, tree, floor) {
        let leaf = tree.leaves()[picked_index(tree.leaves(), bank)];
        let parts = leaf.token.compound.parts;
        let ings = by_priority(parts);
        lemma_by_priority_len(parts);
        lemma_by_priority_total(parts);
        lemma_taken_all_total(bank, ings, ings.len() as int);
        lemma_taken_all_len(bank, ings, ings.len() as int);
        assert(ings.take(ings.len() as int) =~= ings);
        let reduced = taken_all(bank, ings, ings.len() as int)->Ok_0;
        lemma_destination(reduced, ings, floor);
        let dest = destination(reduced, ings, floor)->Ok_0.0;
        lemma_moved_all_len(reduced, ings, dest, floor, ings.len() as int);
        crate::chemicals::lemma_parts_total_step(parts, parts.len() - 1);
        assert(parts.take(parts.len() as int) =~= parts);
    }
}

/// The bank keeps its reservoirs through a step, so that no more than the machine has
/// are ever occupied.
pub proof fn lemma_occupancy_bound(bank: Seq<ReservoirView>, tree: BranchView, floor: u32)
    requires
        bank.len() == NUM_RESERVOIRS,
    ensures
        occupied_count(bank) <= NUM_RESERVOIRS,
        step(bank, tree, floor) matches Ok(s) ==> s.bank.len() == NUM_RESERVOIRS && occupied_count(
            s.bank,
        ) <= NUM_RESERVOIRS,
{
    lemma_occupied_count_bound(bank);
    lemma_step(bank, tree, floor);
    if let Ok(s) = step(bank, tree, floor) {
        lemma_occupied_count_bound(s.bank);
    }
}

/// Inside a step too the bank keeps its reservoirs: while ingredients are taken and
/// while they are moved, no more than the machine has are occupied.
pub proof fn lemma_occupancy_inside_step(
    bank: Seq<ReservoirView>,
    ings: Seq<TokenView>,
    dest: int,
    floor: u32,
    n: int,
)
    requires
        bank.len() == NUM_RESERVOIRS,
    ensures
        taken_all(bank, ings, n) matches Ok(after) ==> after.len() == NUM_RESERVOIRS
            && occupied_count(after) <= NUM_RESERVOIRS,
        moved_all(bank, ings, dest, floor, n) matches Ok(r) ==> r.0.len() == NUM_RESERVOIRS
            && occupied_count(r.0) <= NUM_RESERVOIRS,
{
    lemma_taken_all_len(bank, ings, n);
    lemma_moved_all_len(bank, ings, dest, floor, n);
    if let Ok(after) = taken_all(bank, ings, n) {
        lemma_occupied_count_bound(after);
    }
    if let Ok(r) = moved_all(bank, ings, dest, floor, n) {
        lemma_occupied_count_bound(r.0);
    }
}

/// What a reservoir's class is after a token was put into it: it holds the token, it
/// is no smaller than before, and where it had to grow it is the smallest class
/// that holds the token.
pub proof fn lemma_replaced_class(r: ReservoirView, t: TokenView, other: ReservoirSize)
    ensures
        r.replaced(t) matches Ok(v) ==> ({
            &&& v.contents == Some(t)
            &&& t.size() is Ok
            &&& t.size()->Ok_0 <= v.class.units()
            &&& v.class.units() >= r.class.units()
            &&& r.class.units() >= t.size()->Ok_0 ==> v.class == r.class
            &&& r.class.units() < t.size()->Ok_0 && other.units() >= t.size()->Ok_0
                ==> other.units() >= v.class.units()
        }),
{
}

/// A new reservoir has the smallest class that holds what it holds.
pub proof fn lemma_new_reservoir_is_minimal(t: TokenView, other: ReservoirSize)
    ensures
        crate::calculator::reservoir::Reservoir::empty_view().replaced(t) matches Ok(v) ==> ({
            &&& t.size()->Ok_0 <= v.class.units()
            &&& other.units() >= t.size()->Ok_0 ==> other.units() >= v.class.units()
        }),
{
}

/// Every reservoir of the bank holds what is in it.
pub open spec fn all_fit(bank: Seq<ReservoirView>) -> bool {
    forall|i: int| 0 <= i < bank.len() ==> (#[trigger] bank[i]).fits()
}

/// No reservoir of `after` has a smaller class than it has in `before`.
pub open spec fn classes_kept(before: Seq<ReservoirView>, after: Seq<ReservoirView>) -> bool {
    &&& after.len() == before.len()
    &&& forall|i: int|
        0 <= i < before.len() ==> (#[trigger] after[i]).class.units() >= before[i].class.units()
}

/// Taking out of a reservoir and clearing it keep its class, and what is left fits.
pub proof fn lemma_reduced_fits(r: ReservoirView, amount: u32)
    requires
        r.fits(),
    ensures
        r.reduced(amount) matches Ok(v) ==> v.fits() && v.class == r.class,
        r.cleared().fits(),
        r.cleared().class == r.class,
{
    if let Ok(v) = r.reduced(amount) {
        let t = r.contents->Some_0;
        let left = v.contents->Some_0;
        if t.compound.parts.len() > 0 {
            assert(left.compound.parts[0].concrete is None);
            assert(!parts_resolved(left.compound.parts));
        }
    }
}

/// Taking ingredients keeps the classes, and everything still fits.
pub proof fn lemma_taken_all_fits(bank: Seq<ReservoirView>, ings: Seq<TokenView>, n: int)
    requires
        all_fit(bank),
    ensures
        taken_all(bank, ings, n) matches Ok(after) ==> all_fit(after) && classes_kept(bank, after),
    decreases n,
{
    if n > 0 {
        lemma_taken_all_fits(bank, ings, n - 1);
        if let Ok(b) = taken_all(bank, ings, n - 1) {
            let ing = ings[n - 1];
            lemma_find_compound(b, ing.compound);
            if let Ok(after) = taken(b, ing) {
                let i = crate::calculator::reservoir::find_compound(b, ing.compound)->Some_0;
                lemma_reduced_fits(b[i], ing.concrete->Some_0);
                assert forall|j: int| 0 <= j < after.len() implies (#[trigger] after[j]).fits() by {
                    if j != i {
                        assert(b[j].fits());
                    }
                }
            }
        }
    }
}

/// Moving ingredients keeps the classes, and everything still fits.
pub proof fn lemma_moved_all_fits(
    bank: Seq<ReservoirView>,
    ings: Seq<TokenView>,
    dest: int,
    floor: u32,
    n: int,
)
    requires
        all_fit(bank),
    ensures
        moved_all(bank, ings, dest, floor, n) matches Ok(r) ==> all_fit(r.0) && classes_kept(
            bank,
            r.0,
        ),
    decreases n,
{
    if n > 0 {
        lemma_moved_all_fits(bank, ings, dest, floor, n - 1);
        if let Ok((b, log)) = moved_all(bank, ings, dest, floor, n - 1) {
            let ing = ings[n - 1];
            lemma_find_compound(b, ing.compound);
            if let Ok((after, actions)) = moved(b, ing, dest, floor) {
                let i = crate::calculator::reservoir::find_compound(b, ing.compound)->Some_0;
                lemma_reduced_fits(b[i], 0);
                assert forall|j: int| 0 <= j < after.len() implies (#[trigger] after[j]).fits() by {
                    if j != i {
                        assert(b[j].fits());
                    }
                }
            }
        }
    }
}

/// Through a step every reservoir still holds what is in it, and no class shrinks.
pub proof fn lemma_step_capacity(bank: Seq<ReservoirView>, tree: BranchView, floor: u32)
    requires
        all_fit(bank),
    ensures
        step(bank, tree, floor) matches Ok(s) ==> all_fit(s.bank) && classes_kept(bank, s.bank),
{
    if let Ok(s) = step(bank, tree, floor) {
        let ls = tree.leaves();
        let leaf = ls[picked_index(ls, bank)];
        let ings = by_priority(leaf.token.compound.parts);
        lemma_taken_all_fits(bank, ings, ings.len() as int);
        let reduced = taken_all(bank, ings, ings.len() as int)->Ok_0;
        lemma_destination(reduced, ings, floor);
        let dest = destination(reduced, ings, floor)->Ok_0.0;
        lemma_moved_all_fits(reduced, ings, dest, floor, ings.len() as int);
        let moved = moved_all(reduced, ings, dest, floor, ings.len() as int)->Ok_0.0;
        lemma_replaced_class(moved[dest], leaf.token, ReservoirSize::Large);
        assert forall|j: int| 0 <= j < s.bank.len() implies (#[trigger] s.bank[j]).fits() by {
            if j != dest {
                assert(moved[j].fits());
            }
        }
        assert forall|j: int| 0 <= j < bank.len() implies (#[trigger] s.bank[j]).class.units()
            >= bank[j].class.units() by {
            assert(reduced[j].class.units() >= bank[j].class.units());
            assert(moved[j].class.units() >= reduced[j].class.units());
        }
    }
}

/// A recipe with more base reagents than the machine has reservoirs fails at once,
/// whatever the number of batches.
pub proof fn lemma_too_many_reagents(tree: TreeView, times: u32)
    requires
        tree.initial_state.len() > NUM_RESERVOIRS,
    ensures
        plan(tree, times) == Err::<(Seq<crate::calculator::action::Action>, Seq<u32>), PlanError>(
            PlanError::TooManyReagents { count: tree.initial_state.len() as usize },
        ),
{
}

/// No batches make no actions, and report the classes of the bank as it starts.
pub proof fn lemma_no_batches(tree: TreeView)
    requires
        tree.initial_state.len() <= NUM_RESERVOIRS,
    ensures
        plan(tree, 0) == Ok::<(Seq<crate::calculator::action::Action>, Seq<u32>), PlanError>(
            (
                Seq::empty(),
                crate::calculator::reservoir::class_units(padded(tree.initial_state)),
            ),
        ),
{
}

/// The reservoirs that a recipe's stock is put into hold it.
pub proof fn lemma_stocked_fits(totals: Seq<crate::calculator::stock::TotalView>)
    ensures
        crate::calculator::stock::stocked(totals) matches Ok(bank) ==> all_fit(bank),
    decreases totals.len(),
{
    if totals.len() > 0 {
        lemma_stocked_fits(totals.drop_last());
        if let Ok(bank) = crate::calculator::stock::stocked(totals) {
            let head = crate::calculator::stock::stocked(totals.drop_last())->Ok_0;
            assert forall|i: int| 0 <= i < bank.len() implies (#[trigger] bank[i]).fits() by {
                if i < head.len() {
                    assert(head[i].fits());
                }
            }
        }
    }
}

/// In the bank that a recipe starts from every reservoir holds what is in it.
pub proof fn lemma_initial_bank_fits(t: TokenView)
    ensures
        initial_bank(t) matches Ok(bank) ==> all_fit(bank),
{
    if let Ok(bank) = initial_bank(t) {
        let totals = crate::calculator::stock::counted(t, Seq::empty())->Ok_0;
        lemma_stocked_fits(totals);
        let stock = crate::calculator::stock::stocked(totals)->Ok_0;
        assert forall|i: int| 0 <= i < bank.len() implies (#[trigger] bank[i]).fits() by {
            if i < stock.len() {
                assert(stock[i].fits());
            }
        }
    }
}

/// The priorities of `s` never rise from one token to the next.
pub open spec fn falling(s: Seq<TokenView>) -> bool {
    forall|i: int, j: int| 0 <= i < j < s.len() ==> s[i].priority >= s[j].priority
}

/// The tokens of `s` that have priority `p`, in their order.
pub open spec fn of_priority(s: Seq<TokenView>, p: u32) -> Seq<TokenView>
    decreases s.len(),
{
    if s.len() == 0 {
        s
    } else if s.last().priority == p {
        of_priority(s.drop_last(), p).push(s.last())
    } else {
        of_priority(s.drop_last(), p)
    }
}

/// The tokens of one priority after a token was put among the tokens, with none of
/// its priority behind it: it is the last of its priority, and the other
/// priorities do not see it.
pub proof fn lemma_of_priority_insert(s: Seq<TokenView>, at: int, t: TokenView, p: u32)
    requires
        0 <= at <= s.len(),
        forall|j: int| at <= j < s.len() ==> (#[trigger] s[j]).priority != t.priority,
    ensures
        of_priority(s.insert(at, t), p) == if t.priority == p {
            of_priority(s, p).push(t)
        } else {
            of_priority(s, p)
        },
    decreases s.len(),
{
    let after = s.insert(at, t);
    if at == s.len() {
        assert(after.drop_last() =~= s);
    } else {
        assert(after.drop_last() =~= s.drop_last().insert(at, t));
        assert(after.last() == s.last());
        assert(s[s.len() - 1].priority != t.priority);
        assert forall|j: int| at <= j < s.drop_last().len() implies (
        #[trigger] s.drop_last()[j]).priority != t.priority by {
            assert(s[j].priority != t.priority);
        }
        lemma_of_priority_insert(s.drop_last(), at, t, p);
    }
}

/// The ingredients are ordered as promised: the priorities never rise, and the
/// tokens of each priority are the same as before, in the same order.
pub proof fn lemma_by_priority_is_stable_order(s: Seq<TokenView>, p: u32)
    ensures
        falling(by_priority(s)),
        of_priority(by_priority(s), p) == of_priority(s, p),
        by_priority(s).len() == s.len(),
    decreases s.len(),
{
    lemma_by_priority_len(s);
    if s.len() > 0 {
        let head = by_priority(s.drop_last());
        let t = s.last();
        lemma_by_priority_is_stable_order(s.drop_last(), p);
        lemma_by_priority_len(s.drop_last());
        lemma_first_index(head, crate::calculator::planner::below(t.priority));
        let at = insertion_point(head, t.priority);
        let after = head.insert(at, t);
        assert forall|j: int| at <= j < head.len() implies (#[trigger] head[j]).priority
            != t.priority by {
            assert(head[at].priority < t.priority);
            if at < j {
                assert(head[at].priority >= head[j].priority);
            }
        }
        lemma_of_priority_insert(head, at, t, p);
        assert forall|i: int, j: int| 0 <= i < j < after.len() implies after[i].priority
            >= after[j].priority by {
            if j < at {
                assert(after[i] == head[i] && after[j] == head[j]);
            } else if j == at {
                assert(after[i] == head[i]);
                assert(!(head[i].priority < t.priority));
            } else if i < at {
                assert(after[i] == head[i] && after[j] == head[j - 1]);
                if i < j - 1 {
                    assert(head[i].priority >= head[j - 1].priority);
                }
            } else if i == at {
                assert(after[j] == head[j - 1]);
                assert(head[j - 1].priority != t.priority);
                assert(head[at].priority < t.priority);
                if at < j - 1 {
                    assert(head[at].priority >= head[j - 1].priority);
                }
            } else {
                assert(after[i] == head[i - 1] && after[j] == head[j - 1]);
                assert(head[i - 1].priority >= head[j - 1].priority);
            }
        }
    }
}

} // verus!
