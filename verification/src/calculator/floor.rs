//! The batch floor: with several batches the reservoirs below the floor hold the
//! stock of base reagents. Planning takes from them and does nothing else to them.

use crate::calculator::action::Action;
use crate::calculator::planner::{
    batch, batches, by_priority, destination, first_left_empty, floor_of, heating,
    lemma_destination, lemma_first_left_empty, lemma_moved_all_len, lemma_picked_index,
    lemma_step, lemma_taken_all_len, moved, moved_all, picked_index, plan, run_steps, step,
    taken, taken_all, trimmed,
};
use crate::calculator::reservoir::{
    class_units, find_compound, lemma_find_compound, lemma_first_empty_index, multiplied_bank,
    padded, ReservoirView, NUM_RESERVOIRS,
};
use crate::calculator::stock::{
    counted, counted_one, counted_parts, initial_bank, stocked, total_of, TotalView,
};
use crate::calculator::tree::{lemma_leaves_nonempty, BranchView, TreeView};
use crate::chemicals::TokenView;
use crate::seqs::lemma_first_index;
use vstd::prelude::*;

verus! {

/// Every reservoir below `floor` holds a named compound: the stock of a base reagent.
pub open spec fn stock_below(bank: Seq<ReservoirView>, floor: u32) -> bool {
    forall|i: int|
        0 <= i < floor && i < bank.len() ==> (#[trigger] bank[i]).contents is Some
            && bank[i].contents->Some_0.compound.name is Some
}

/// Below `floor` the reservoirs of `after` are still stock, of the classes that they
/// have in `before`.
pub open spec fn stock_kept(before: Seq<ReservoirView>, after: Seq<ReservoirView>, floor: u32) -> bool {
    &&& after.len() == before.len()
    &&& stock_below(after, floor)
    &&& forall|i: int|
        0 <= i < floor && i < before.len() ==> (#[trigger] after[i]).class == before[i].class
}

/// The action names no reservoir below `floor` (counted from 0) but as the source of a
/// transfer.
pub open spec fn spares(a: Action, floor: u32) -> bool {
    match a {
        Action::Transfer { target, .. } => target > floor,
        Action::Heat { target, .. } => target > floor,
        Action::Eject { target } => target > floor,
        Action::DumpByproduct { target, .. } => target > floor,
        Action::EjectDownTo { target, .. } => target > floor,
        Action::CreateBottle { target, .. } => target > floor,
        Action::CreatePill { target, .. } => target > floor,
    }
}

/// Every action of the log spares the reservoirs below `floor`.
pub open spec fn all_spare(log: Seq<Action>, floor: u32) -> bool {
    forall|k: int| 0 <= k < log.len() ==> spares(#[trigger] log[k], floor)
}

/// Two logs that spare the stock make one that does.
pub proof fn lemma_all_spare_concat(a: Seq<Action>, b: Seq<Action>, floor: u32)
    requires
        all_spare(a, floor),
        all_spare(b, floor),
    ensures
        all_spare(a + b, floor),
{
    assert forall|k: int| 0 <= k < (a + b).len() implies spares(#[trigger] (a + b)[k], floor) by {
        if k < a.len() {
            assert(spares(a[k], floor));
        } else {
            assert(spares(b[k - a.len()], floor));
        }
    }
}

/// Stock that is kept twice is kept.
pub proof fn lemma_stock_kept_twice(
    a: Seq<ReservoirView>,
    b: Seq<ReservoirView>,
    c: Seq<ReservoirView>,
    floor: u32,
)
    requires
        stock_kept(a, b, floor),
        stock_kept(b, c, floor),
    ensures
        stock_kept(a, c, floor),
{
    assert forall|i: int| 0 <= i < floor && i < a.len() implies (#[trigger] c[i]).class
        == a[i].class by {
        assert(b[i].class == a[i].class);
    }
}

/// Taking ingredients keeps the stock.
pub proof fn lemma_taken_all_keeps_stock(
    bank: Seq<ReservoirView>,
    ings: Seq<TokenView>,
    floor: u32,
    n: int,
)
    requires
        stock_below(bank, floor),
    ensures
        taken_all(bank, ings, n) matches Ok(after) ==> stock_kept(bank, after, floor),
    decreases n,
{
    if n > 0 {
        lemma_taken_all_keeps_stock(bank, ings, floor, n - 1);
        if let Ok(b) = taken_all(bank, ings, n - 1) {
            let ing = ings[n - 1];
            lemma_find_compound(b, ing.compound);
            if let Ok(after) = taken(b, ing) {
                let at = find_compound(b, ing.compound)->Some_0;
                assert forall|i: int| 0 <= i < floor && i < after.len() implies (
                #[trigger] after[i]).contents is Some
                    && after[i].contents->Some_0.compound.name is Some && after[i].class
                    == b[i].class by {
                    assert(b[i].contents is Some);
                }
                assert(stock_kept(b, after, floor));
                lemma_stock_kept_twice(bank, b, after, floor);
            }
        }
    } else {
        assert(stock_kept(bank, bank, floor));
    }
}

/// The reservoir to combine in lies at or above the floor, and its purge spares the
/// stock.
pub proof fn lemma_destination_above_floor(
    bank: Seq<ReservoirView>,
    ings: Seq<TokenView>,
    floor: u32,
)
    requires
        bank.len() == NUM_RESERVOIRS,
        stock_below(bank, floor),
    ensures
        destination(bank, ings, floor) matches Ok(d) ==> floor <= d.0 < bank.len() && all_spare(
            d.1,
            floor,
        ),
{
    lemma_destination(bank, ings, floor);
    lemma_first_left_empty(bank, ings, floor, ings.len() as int);
    if let Ok(d) = destination(bank, ings, floor) {
        match first_left_empty(bank, ings, floor, ings.len() as int) {
            Some(k) => {
                lemma_find_compound(bank, ings[k].compound);
            },
            None => {
                lemma_first_empty_index(bank);
                if d.0 < floor {
                    assert(bank[d.0].contents is Some);
                }
            },
        }
    }
}

/// Moving ingredients keeps the stock, and the actions spare it.
pub proof fn lemma_moved_all_keeps_stock(
    bank: Seq<ReservoirView>,
    ings: Seq<TokenView>,
    dest: int,
    floor: u32,
    n: int,
)
    requires
        bank.len() == NUM_RESERVOIRS,
        floor <= dest < NUM_RESERVOIRS,
        stock_below(bank, floor),
    ensures
        moved_all(bank, ings, dest, floor, n) matches Ok(r) ==> stock_kept(bank, r.0, floor)
            && all_spare(r.1, floor),
    decreases n,
{
    if n > 0 {
        lemma_moved_all_keeps_stock(bank, ings, dest, floor, n - 1);
        lemma_moved_all_len(bank, ings, dest, floor, n - 1);
        if let Ok((b, log)) = moved_all(bank, ings, dest, floor, n - 1) {
            let ing = ings[n - 1];
            lemma_find_compound(b, ing.compound);
            if let Ok((after, actions)) = moved(b, ing, dest, floor) {
                let at = find_compound(b, ing.compound)->Some_0;
                assert forall|i: int| 0 <= i < floor && i < after.len() implies (
                #[trigger] after[i]).contents is Some
                    && after[i].contents->Some_0.compound.name is Some && after[i].class
                    == b[i].class by {
                    assert(b[i].contents is Some);
                }
                assert(stock_kept(b, after, floor));
                lemma_stock_kept_twice(bank, b, after, floor);
                assert(all_spare(actions, floor));
                lemma_all_spare_concat(log, actions, floor);
            }
        }
    } else {
        assert(stock_kept(bank, bank, floor));
    }
}

/// A step spares the stock: what it makes goes at or above the floor, no action names
/// a reservoir below the floor but as the source of a transfer, and the reservoirs
/// below the floor stay occupied, with their classes.
pub proof fn lemma_step_spares_stock(bank: Seq<ReservoirView>, tree: BranchView, floor: u32)
    requires
        bank.len() == NUM_RESERVOIRS,
        stock_below(bank, floor),
    ensures
        step(bank, tree, floor) matches Ok(s) ==> s.target > floor && stock_kept(
            bank,
            s.bank,
            floor,
        ) && all_spare(s.actions, floor),
{
    if let Ok(s) = step(bank, tree, floor) {
        let ls = tree.leaves();
        lemma_leaves_nonempty(tree);
        lemma_picked_index(ls, bank);
        let leaf = ls[picked_index(ls, bank)];
        let ings = by_priority(leaf.token.compound.parts);
        lemma_taken_all_keeps_stock(bank, ings, floor, ings.len() as int);
        lemma_taken_all_len(bank, ings, ings.len() as int);
        let reduced = taken_all(bank, ings, ings.len() as int)->Ok_0;
        lemma_destination_above_floor(reduced, ings, floor);
        let (dest, purge) = destination(reduced, ings, floor)->Ok_0;
        lemma_moved_all_keeps_stock(reduced, ings, dest, floor, ings.len() as int);
        lemma_moved_all_len(reduced, ings, dest, floor, ings.len() as int);
        let (moved, transfers) = moved_all(reduced, ings, dest, floor, ings.len() as int)->Ok_0;
        lemma_stock_kept_twice(bank, reduced, moved, floor);
        assert forall|i: int| 0 <= i < floor && i < s.bank.len() implies (
        #[trigger] s.bank[i]).contents is Some && s.bank[i].contents->Some_0.compound.name is Some
            && s.bank[i].class == moved[i].class by {
            assert(moved[i].contents is Some);
        }
        assert(stock_kept(moved, s.bank, floor));
        lemma_stock_kept_twice(bank, moved, s.bank, floor);
        assert(all_spare(heating(leaf, dest), floor));
        lemma_all_spare_concat(purge, transfers, floor);
        lemma_all_spare_concat(purge + transfers, heating(leaf, dest), floor);
    }
}

/// Step after step the stock is spared.
pub proof fn lemma_run_steps_spare_stock(bank: Seq<ReservoirView>, tree: BranchView, floor: u32)
    requires
        bank.len() == NUM_RESERVOIRS,
        stock_below(bank, floor),
    ensures
        run_steps(bank, tree, floor) matches Ok(r) ==> stock_kept(bank, r.0, floor) && all_spare(
            r.2,
            floor,
        ),
    decreases tree.node_count(),
{
    if tree.children.len() == 0 {
        assert(stock_kept(bank, bank, floor));
    } else if let Ok(s) = step(bank, tree, floor) {
        lemma_step(bank, tree, floor);
        lemma_step_spares_stock(bank, tree, floor);
        lemma_run_steps_spare_stock(s.bank, s.tree, floor);
        if let Ok(r) = run_steps(s.bank, s.tree, floor) {
            lemma_stock_kept_twice(bank, s.bank, r.0, floor);
            lemma_all_spare_concat(s.actions, r.2, floor);
        }
    }
}

/// A batch of a mixture spares the stock: also the bottle is drawn at or above the
/// floor, and the clearing for the next batch starts at the floor.
pub proof fn lemma_batch_spares_stock(bank: Seq<ReservoirView>, root: BranchView, floor: u32)
    requires
        bank.len() == NUM_RESERVOIRS,
        stock_below(bank, floor),
        root.token.compound.name is None,
    ensures
        batch(bank, root, floor) matches Ok(r) ==> stock_kept(bank, r.0, floor) && all_spare(
            r.1,
            floor,
        ),
{
    if let Ok(r) = batch(bank, root, floor) {
        let tree = trimmed(root);
        lemma_run_steps_spare_stock(bank, tree, floor);
        let (mixed, rest, log) = run_steps(bank, tree, floor)->Ok_0;
        lemma_step_spares_stock(mixed, rest, floor);
        let last = step(mixed, rest, floor)->Ok_0;
        lemma_stock_kept_twice(bank, mixed, last.bank, floor);
        lemma_find_compound(last.bank, root.token.compound);
        let out = find_compound(last.bank, root.token.compound)->Some_0;
        let held = last.bank[out].contents->Some_0;
        assert(held.compound.shape().name == held.compound.name);
        assert(root.token.compound.shape().name == root.token.compound.name);
        assert(held.compound.name is None);
        if out < floor {
            assert(last.bank[out].contents->Some_0.compound.name is Some);
        }
        let bottle = Action::CreateBottle {
            target: (out + 1) as u32,
            amount: crate::calculator::planner::BOTTLE_AMOUNT,
        };
        let bottled = last.bank.update(out, last.bank[out].cleared());
        assert forall|i: int| 0 <= i < floor && i < r.0.len() implies (#[trigger] r.0[i]).contents
            is Some && r.0[i].contents->Some_0.compound.name is Some && r.0[i].class
            == last.bank[i].class by {
            assert(last.bank[i].contents is Some);
            assert(r.0[i] == bottled[i]);
        }
        assert(stock_kept(last.bank, r.0, floor));
        lemma_stock_kept_twice(bank, last.bank, r.0, floor);
        assert(all_spare(seq![bottle], floor));
        lemma_all_spare_concat(log, last.actions, floor);
        lemma_all_spare_concat(log + last.actions, seq![bottle], floor);
    }
}

/// Batch after batch the stock is spared.
pub proof fn lemma_batches_spare_stock(
    bank: Seq<ReservoirView>,
    root: BranchView,
    floor: u32,
    n: nat,
)
    requires
        bank.len() == NUM_RESERVOIRS,
        stock_below(bank, floor),
        root.token.compound.name is None,
    ensures
        batches(bank, root, floor, n) matches Ok(r) ==> stock_kept(bank, r.0, floor) && all_spare(
            r.1,
            floor,
        ),
    decreases n,
{
    if n == 0 {
        assert(stock_kept(bank, bank, floor));
    } else {
        lemma_batches_spare_stock(bank, root, floor, (n - 1) as nat);
        if let Ok((b, log)) = batches(bank, root, floor, (n - 1) as nat) {
            lemma_batch_spares_stock(b, root, floor);
            if let Ok((next, more)) = batch(b, root, floor) {
                lemma_stock_kept_twice(bank, b, next, floor);
                lemma_all_spare_concat(log, more, floor);
            }
        }
    }
}

/// The plan of a mixture spares the stock below the floor: no action of the plan names
/// a reservoir below the floor but as the source of a transfer, and the capacity
/// report gives those reservoirs the classes that they start with.
pub proof fn lemma_plan_spares_stock(tree: TreeView, times: u32)
    requires
        tree.initial_state.len() <= NUM_RESERVOIRS,
        tree.root.token.compound.name is None,
        floor_of(padded(tree.initial_state), times) matches Ok(floor) && stock_below(
            padded(tree.initial_state),
            floor,
        ),
    ensures
        plan(tree, times) matches Ok(r) ==> ({
            let floor = floor_of(padded(tree.initial_state), times)->Ok_0;
            &&& all_spare(r.0, floor)
            &&& r.1.len() == NUM_RESERVOIRS
            &&& forall|i: int|
                0 <= i < floor && i < NUM_RESERVOIRS ==> #[trigger] r.1[i] == class_units(
                    padded(tree.initial_state),
                )[i]
        }),
{
    let bank = padded(tree.initial_state);
    let floor = floor_of(bank, times)->Ok_0;
    lemma_batches_spare_stock(bank, tree.root, floor, times as nat);
    if let Ok((after, log)) = batches(bank, tree.root, floor, times as nat) {
        assert forall|i: int| 0 <= i < floor && i < NUM_RESERVOIRS implies #[trigger] class_units(
            after,
        )[i] == class_units(bank)[i] by {
            assert(after[i].class == bank[i].class);
        }
    }
}

/// Every occupied reservoir of the bank holds a named compound.
pub open spec fn all_stock(bank: Seq<ReservoirView>) -> bool {
    forall|i: int|
        0 <= i < bank.len() && (#[trigger] bank[i]).contents is Some
            ==> bank[i].contents->Some_0.compound.name is Some
}

/// Every total is of a named compound.
pub open spec fn all_named(totals: Seq<TotalView>) -> bool {
    forall|i: int| 0 <= i < totals.len() ==> (#[trigger] totals[i]).compound.name is Some
}

/// Counting a token gives totals of named compounds only.
pub proof fn lemma_counted_named(t: TokenView, totals: Seq<TotalView>)
    requires
        all_named(totals),
    ensures
        counted(t, totals) matches Ok(r) ==> all_named(r),
    decreases t,
{
    if let Ok(r) = counted(t, totals) {
        if t.compound.name is Some {
            let with_self = counted_one(totals, t.compound, t.concrete)->Ok_0;
            lemma_first_index(totals, total_of(t.compound));
            assert forall|i: int| 0 <= i < with_self.len() implies (
            #[trigger] with_self[i]).compound.name is Some by {
                if i < totals.len() {
                    assert(totals[i].compound.name is Some);
                }
            }
            lemma_counted_parts_named(t.compound.parts, with_self);
        } else {
            lemma_counted_parts_named(t.compound.parts, totals);
        }
    }
}

/// Counting tokens gives totals of named compounds only.
pub proof fn lemma_counted_parts_named(parts: Seq<TokenView>, totals: Seq<TotalView>)
    requires
        all_named(totals),
    ensures
        counted_parts(parts, totals) matches Ok(r) ==> all_named(r),
    decreases parts,
{
    if parts.len() > 0 {
        lemma_counted_parts_named(parts.drop_last(), totals);
        if let Ok(head) = counted_parts(parts.drop_last(), totals) {
            lemma_counted_named(parts.last(), head);
        }
    }
}

/// The reservoirs of totals of named compounds are stock.
pub proof fn lemma_stocked_is_stock(totals: Seq<TotalView>)
    requires
        all_named(totals),
    ensures
        stocked(totals) matches Ok(bank) ==> all_stock(bank),
    decreases totals.len(),
{
    if totals.len() > 0 {
        assert forall|i: int| 0 <= i < totals.drop_last().len() implies (
        #[trigger] totals.drop_last()[i]).compound.name is Some by {
            assert(totals[i].compound.name is Some);
        }
        lemma_stocked_is_stock(totals.drop_last());
        if let Ok(bank) = stocked(totals) {
            let head = stocked(totals.drop_last())->Ok_0;
            assert(totals[totals.len() - 1].compound.name is Some);
            assert forall|i: int| 0 <= i < bank.len() && (#[trigger] bank[i]).contents
                is Some implies bank[i].contents->Some_0.compound.name is Some by {
                if i < head.len() {
                    assert(head[i].contents is Some);
                }
            }
        }
    }
}

/// The bank that a recipe starts from holds nothing but stock.
pub proof fn lemma_initial_bank_is_stock(t: TokenView)
    ensures
        initial_bank(t) matches Ok(bank) ==> all_stock(bank),
{
    if let Ok(bank) = initial_bank(t) {
        lemma_counted_named(t, Seq::empty());
        let totals = counted(t, Seq::empty())->Ok_0;
        lemma_stocked_is_stock(totals);
        let stock = stocked(totals)->Ok_0;
        assert forall|i: int| 0 <= i < bank.len() && (#[trigger] bank[i]).contents
            is Some implies bank[i].contents->Some_0.compound.name is Some by {
            if i < stock.len() {
                assert(stock[i].contents is Some);
            }
        }
    }
}

/// Multiplying a bank of stock for several batches leaves a bank of stock.
pub proof fn lemma_multiplied_bank_is_stock(bank: Seq<ReservoirView>, factor: u32)
    requires
        all_stock(bank),
    ensures
        multiplied_bank(bank, factor) matches Ok(r) ==> r.len() == bank.len() && all_stock(r),
    decreases bank.len(),
{
    if bank.len() > 0 {
        assert forall|i: int| 0 <= i < bank.drop_last().len() && (
        #[trigger] bank.drop_last()[i]).contents is Some implies bank.drop_last()[i].contents->Some_0.compound.name is Some by {
            assert(bank[i].contents is Some);
        }
        lemma_multiplied_bank_is_stock(bank.drop_last(), factor);
        if let Ok(r) = multiplied_bank(bank, factor) {
            let head = multiplied_bank(bank.drop_last(), factor)->Ok_0;
            assert forall|i: int| 0 <= i < r.len() && (#[trigger] r[i]).contents
                is Some implies r[i].contents->Some_0.compound.name is Some by {
                if i < head.len() {
                    assert(head[i].contents is Some);
                } else {
                    assert(bank[bank.len() - 1].contents is Some);
                }
            }
        }
    }
}

/// In a bank of stock, all that lies below the floor of a plan is stock.
pub proof fn lemma_stock_up_to_floor(bank: Seq<ReservoirView>, times: u32)
    requires
        bank.len() == NUM_RESERVOIRS,
        all_stock(bank),
    ensures
        floor_of(bank, times) matches Ok(floor) ==> floor <= NUM_RESERVOIRS && stock_below(
            bank,
            floor,
        ),
{
    lemma_first_empty_index(bank);
    if let Ok(floor) = floor_of(bank, times) {
        assert forall|i: int| 0 <= i < floor && i < bank.len() implies (#[trigger] bank[i]).contents
            is Some && bank[i].contents->Some_0.compound.name is Some by {
            assert(bank[i].contents is Some);
        }
    }
}

/// The plan of a mixture over a bank of stock spares the stock: whatever the number
/// of batches, no action names a reservoir below the floor but as the source of a
/// transfer, and the capacity report gives those reservoirs the classes that they
/// start with. The bank that a recipe starts from is such a bank, also after it was
/// multiplied for the batches.
pub proof fn lemma_plan_over_stock_spares_it(tree: TreeView, times: u32)
    requires
        tree.initial_state.len() <= NUM_RESERVOIRS,
        all_stock(tree.initial_state),
        tree.root.token.compound.name is None,
    ensures
        plan(tree, times) matches Ok(r) ==> ({
            let floor = floor_of(padded(tree.initial_state), times)->Ok_0;
            &&& floor_of(padded(tree.initial_state), times) is Ok
            &&& floor <= NUM_RESERVOIRS
            &&& all_spare(r.0, floor)
            &&& r.1.len() == NUM_RESERVOIRS
            &&& forall|i: int|
                0 <= i < floor ==> #[trigger] r.1[i] == class_units(padded(tree.initial_state))[i]
        }),
{
    let bank = padded(tree.initial_state);
    assert forall|i: int| 0 <= i < bank.len() && (#[trigger] bank[i]).contents
        is Some implies bank[i].contents->Some_0.compound.name is Some by {
        if i < tree.initial_state.len() {
            assert(tree.initial_state[i].contents is Some);
        }
    }
    if plan(tree, times) is Ok {
        lemma_stock_up_to_floor(bank, times);
        lemma_plan_spares_stock(tree, times);
    }
}

} // verus!
