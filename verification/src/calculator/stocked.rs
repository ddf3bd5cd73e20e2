//! The stock covers the recipe: every base reagent that a recipe names has its
//! reservoir in the bank that the recipe starts from, so that the leaves of the
//! recipe's tree take no step to make.

use crate::calculator::reservoir::{find_compound, lemma_find_compound};
use crate::calculator::stock::{
    counted, counted_one, counted_parts, find_total, initial_bank, stocked, total_of, TotalView,
};
use crate::calculator::tree::{
    concretized_all, deconstructed, deconstructed_parts, leaves_of, tree_of, BranchView,
};
use crate::chemicals::{resolve_parts, resolve_token, CompoundView, PlanError, TokenView};
use crate::seqs::lemma_first_index;
use vstd::prelude::*;

verus! {

/// The compounds of the named tokens in `t`, the token itself before its parts.
pub open spec fn reagents(t: TokenView) -> Seq<CompoundView>
    decreases t,
{
    if t.compound.name is Some {
        seq![t.compound] + reagents_of(t.compound.parts)
    } else {
        reagents_of(t.compound.parts)
    }
}

/// The compounds of the named tokens in `parts`.
pub open spec fn reagents_of(parts: Seq<TokenView>) -> Seq<CompoundView>
    decreases parts,
{
    if parts.len() == 0 {
        Seq::empty()
    } else {
        reagents_of(parts.drop_last()) + reagents(parts.last())
    }
}

/// The totals hold one for compound `c`.
pub open spec fn listed(totals: Seq<TotalView>, c: CompoundView) -> bool {
    exists|i: int| 0 <= i < totals.len() && (#[trigger] totals[i]).compound.same(c)
}

/// `after` has a total wherever `before` has one, for the same compound.
pub open spec fn extends(before: Seq<TotalView>, after: Seq<TotalView>) -> bool {
    &&& after.len() >= before.len()
    &&& forall|i: int| 0 <= i < before.len() ==> (#[trigger] after[i]).compound == before[i].compound
}

/// The children of every node of the tree are the nodes of the parts of its token.
pub open spec fn mirrors(b: BranchView) -> bool
    decreases b,
{
    &&& b.children.len() == b.token.compound.parts.len()
    &&& forall|i: int|
        0 <= i < b.children.len() ==> (#[trigger] b.children[i]).token == b.token.compound.parts[i]
            && mirrors(b.children[i])
}

/// A compound that is listed stays listed when the totals are extended.
pub proof fn lemma_listed_extends(before: Seq<TotalView>, after: Seq<TotalView>, c: CompoundView)
    requires
        extends(before, after),
        listed(before, c),
    ensures
        listed(after, c),
{
    let i = choose|i: int| 0 <= i < before.len() && (#[trigger] before[i]).compound.same(c);
    assert(after[i].compound.same(c));
}

/// Counting a compound lists it, and keeps what was listed.
pub proof fn lemma_counted_one(totals: Seq<TotalView>, c: CompoundView, amount: Option<u32>)
    ensures
        counted_one(totals, c, amount) matches Ok(r) ==> extends(totals, r) && listed(r, c),
{
    if let Ok(r) = counted_one(totals, c, amount) {
        lemma_first_index(totals, total_of(c));
        match find_total(totals, c) {
            None => {
                assert(r[totals.len() as int].compound.same(c));
            },
            Some(i) => {
                assert(r[i].compound.same(c));
            },
        }
    }
}

/// Counting a token lists every compound that it names, and keeps what was listed.
pub proof fn lemma_counted(t: TokenView, totals: Seq<TotalView>)
    ensures
        counted(t, totals) matches Ok(r) ==> extends(totals, r) && forall|j: int|
            0 <= j < reagents(t).len() ==> listed(r, #[trigger] reagents(t)[j]),
    decreases t,
{
    if let Ok(r) = counted(t, totals) {
        let with_self = if t.compound.name is Some {
            counted_one(totals, t.compound, t.concrete)->Ok_0
        } else {
            totals
        };
        if t.compound.name is Some {
            lemma_counted_one(totals, t.compound, t.concrete);
        }
        lemma_counted_parts(t.compound.parts, with_self);
        assert forall|j: int| 0 <= j < reagents(t).len() implies listed(
            r,
            #[trigger] reagents(t)[j],
        ) by {
            let below = reagents_of(t.compound.parts);
            if t.compound.name is Some {
                if j == 0 {
                    assert(reagents(t)[0] == t.compound);
                    lemma_listed_extends(with_self, r, t.compound);
                } else {
                    assert(reagents(t)[j] == below[j - 1]);
                    assert(listed(r, below[j - 1]));
                }
            } else {
                assert(reagents(t)[j] == below[j]);
                assert(listed(r, below[j]));
            }
        }
    }
}

/// Counting tokens lists every compound that they name, and keeps what was listed.
pub proof fn lemma_counted_parts(parts: Seq<TokenView>, totals: Seq<TotalView>)
    ensures
        counted_parts(parts, totals) matches Ok(r) ==> extends(totals, r) && forall|j: int|
            0 <= j < reagents_of(parts).len() ==> listed(r, #[trigger] reagents_of(parts)[j]),
    decreases parts,
{
    if let Ok(r) = counted_parts(parts, totals) {
        if parts.len() > 0 {
            let head = counted_parts(parts.drop_last(), totals)->Ok_0;
            lemma_counted_parts(parts.drop_last(), totals);
            lemma_counted(parts.last(), head);
            let before = reagents_of(parts.drop_last());
            assert forall|j: int| 0 <= j < reagents_of(parts).len() implies listed(
                r,
                #[trigger] reagents_of(parts)[j],
            ) by {
                if j < before.len() {
                    assert(reagents_of(parts)[j] == before[j]);
                    lemma_listed_extends(head, r, before[j]);
                } else {
                    assert(reagents_of(parts)[j] == reagents(parts.last())[j - before.len()]);
                }
            }
        }
    }
}

/// Every total has its reservoir, at its position.
pub proof fn lemma_stocked_holds(totals: Seq<TotalView>)
    ensures
        stocked(totals) matches Ok(bank) ==> bank.len() == totals.len() && forall|i: int|
            0 <= i < totals.len() ==> (#[trigger] bank[i]).holds(totals[i].compound),
    decreases totals.len(),
{
    if totals.len() > 0 {
        lemma_stocked_holds(totals.drop_last());
        if let Ok(bank) = stocked(totals) {
            let head = stocked(totals.drop_last())->Ok_0;
            assert forall|i: int| 0 <= i < totals.len() implies (#[trigger] bank[i]).holds(
                totals[i].compound,
            ) by {
                if i < head.len() {
                    assert(head[i].holds(totals.drop_last()[i].compound));
                }
            }
        }
    }
}

/// The bank that a recipe starts from has a reservoir for every compound that the
/// recipe names.
pub proof fn lemma_initial_bank_covers(t: TokenView, j: int)
    requires
        initial_bank(t) is Ok,
        0 <= j < reagents(t).len(),
    ensures
        find_compound(initial_bank(t)->Ok_0, reagents(t)[j]) is Some,
{
    let c = reagents(t)[j];
    let totals = counted(t, Seq::empty())->Ok_0;
    let stock = stocked(totals)->Ok_0;
    let bank = initial_bank(t)->Ok_0;
    lemma_counted(t, Seq::empty());
    lemma_stocked_holds(totals);
    assert(listed(totals, c));
    let i = choose|i: int| 0 <= i < totals.len() && (#[trigger] totals[i]).compound.same(c);
    assert(stock[i].holds(totals[i].compound));
    assert(bank[i] == stock[i]);
    assert(bank[i].holds(c));
    lemma_find_compound(bank, c);
}

/// In the trees of tokens the children mirror the parts.
pub proof fn lemma_deconstructed_mirrors(t: TokenView, start: u32)
    ensures
        mirrors(deconstructed(t, start).0),
        deconstructed(t, start).0.token == t,
    decreases t,
{
    lemma_deconstructed_parts_mirror(t.compound.parts, start);
}

/// The trees of parts are as many as the parts, each of its part, and mirror them.
pub proof fn lemma_deconstructed_parts_mirror(parts: Seq<TokenView>, start: u32)
    ensures
        deconstructed_parts(parts, start).0.len() == parts.len(),
        forall|i: int|
            0 <= i < parts.len() ==> (#[trigger] deconstructed_parts(parts, start).0[i]).token
                == parts[i] && mirrors(deconstructed_parts(parts, start).0[i]),
    decreases parts,
{
    if parts.len() > 0 {
        let (head, next) = deconstructed_parts(parts.drop_last(), start);
        lemma_deconstructed_parts_mirror(parts.drop_last(), start);
        lemma_deconstructed_mirrors(parts.last(), next);
        let all = deconstructed_parts(parts, start).0;
        assert forall|i: int| 0 <= i < parts.len() implies (#[trigger] all[i]).token == parts[i]
            && mirrors(all[i]) by {
            if i < head.len() {
                assert(all[i] == head[i]);
                assert(parts.drop_last()[i] == parts[i]);
            }
        }
    }
}

/// Resolved parts are as many as the parts, each resolved against the parent.
pub proof fn lemma_resolve_parts_index(parts: Seq<TokenView>, parent: u32)
    ensures
        resolve_parts(parts, parent) matches Ok(r) ==> r.len() == parts.len() && forall|i: int|
            0 <= i < parts.len() ==> resolve_token(parts[i], Some(parent)) == Ok::<
                TokenView,
                PlanError,
            >(#[trigger] r[i]),
    decreases parts,
{
    if let Ok(r) = resolve_parts(parts, parent) {
        if parts.len() > 0 {
            let head = resolve_parts(parts.drop_last(), parent)->Ok_0;
            lemma_resolve_parts_index(parts.drop_last(), parent);
            assert forall|i: int| 0 <= i < parts.len() implies resolve_token(
                parts[i],
                Some(parent),
            ) == Ok::<TokenView, PlanError>(#[trigger] r[i]) by {
                if i < head.len() {
                    assert(r[i] == head[i]);
                    assert(parts.drop_last()[i] == parts[i]);
                }
            }
        }
    }
}

/// Resolving the quantities of a tree keeps the children mirroring the parts.
pub proof fn lemma_concretized_mirrors(b: BranchView, parent: Option<u32>)
    requires
        mirrors(b),
    ensures
        b.concretized(parent) matches Ok(r) ==> mirrors(r) && resolve_token(b.token, parent)
            == Ok::<TokenView, PlanError>(r.token),
    decreases b,
{
    if let Ok(r) = b.concretized(parent) {
        let own = r.token.concrete->Some_0;
        lemma_resolve_parts_index(b.token.compound.parts, own);
        lemma_concretized_all_mirror(b.children, own);
        assert forall|i: int| 0 <= i < r.children.len() implies (#[trigger] r.children[i]).token
            == r.token.compound.parts[i] && mirrors(r.children[i]) by {
            assert(b.children[i].token == b.token.compound.parts[i]);
        }
    }
}

/// The same of the trees of a sequence.
pub proof fn lemma_concretized_all_mirror(s: Seq<BranchView>, parent: u32)
    requires
        forall|i: int| 0 <= i < s.len() ==> mirrors(#[trigger] s[i]),
    ensures
        concretized_all(s, parent) matches Ok(r) ==> r.len() == s.len() && forall|i: int|
            0 <= i < s.len() ==> mirrors(#[trigger] r[i]) && resolve_token(
                s[i].token,
                Some(parent),
            ) == Ok::<TokenView, PlanError>(r[i].token),
    decreases s,
{
    if let Ok(r) = concretized_all(s, parent) {
        if s.len() > 0 {
            let head = concretized_all(s.drop_last(), parent)->Ok_0;
            assert forall|i: int| 0 <= i < s.drop_last().len() implies mirrors(
                #[trigger] s.drop_last()[i],
            ) by {
                assert(mirrors(s[i]));
            }
            lemma_concretized_all_mirror(s.drop_last(), parent);
            assert(mirrors(s[s.len() - 1]));
            lemma_concretized_mirrors(s.last(), Some(parent));
            assert forall|i: int| 0 <= i < s.len() implies mirrors(#[trigger] r[i])
                && resolve_token(s[i].token, Some(parent)) == Ok::<
                TokenView,
                PlanError,
            >(r[i].token) by {
                if i < head.len() {
                    assert(r[i] == head[i]);
                    assert(s.drop_last()[i] == s[i]);
                }
            }
        }
    }
}

/// The compound of a named leaf of a tree that mirrors its token is one that the
/// token names.
pub proof fn lemma_leaf_is_reagent(b: BranchView, k: int) -> (j: int)
    requires
        mirrors(b),
        0 <= k < b.leaves().len(),
        b.leaves()[k].token.compound.name is Some,
    ensures
        0 <= j < reagents(b.token).len(),
        reagents(b.token)[j] == b.leaves()[k].token.compound,
    decreases b,
{
    if b.children.len() == 0 {
        0
    } else {
        let j = lemma_leaf_below_is_reagent(b.children, b.token.compound.parts, k);
        if b.token.compound.name is Some {
            j + 1
        } else {
            j
        }
    }
}

/// The same of a leaf below trees that mirror the tokens `parts`.
pub proof fn lemma_leaf_below_is_reagent(s: Seq<BranchView>, parts: Seq<TokenView>, k: int) -> (j:
    int)
    requires
        s.len() == parts.len(),
        forall|i: int| 0 <= i < s.len() ==> (#[trigger] s[i]).token == parts[i] && mirrors(s[i]),
        0 <= k < leaves_of(s).len(),
        leaves_of(s)[k].token.compound.name is Some,
    ensures
        0 <= j < reagents_of(parts).len(),
        reagents_of(parts)[j] == leaves_of(s)[k].token.compound,
    decreases s,
{
    let head = leaves_of(s.drop_last());
    let before = reagents_of(parts.drop_last());
    if k < head.len() {
        assert forall|i: int| 0 <= i < s.drop_last().len() implies (
        #[trigger] s.drop_last()[i]).token == parts.drop_last()[i] && mirrors(s.drop_last()[i]) by {
            assert(s[i].token == parts[i] && mirrors(s[i]));
        }
        let j = lemma_leaf_below_is_reagent(s.drop_last(), parts.drop_last(), k);
        assert(reagents_of(parts)[j] == before[j]);
        j
    } else {
        assert(s[s.len() - 1].token == parts[parts.len() - 1] && mirrors(s[s.len() - 1]));
        let j = lemma_leaf_is_reagent(s.last(), k - head.len());
        assert(reagents_of(parts)[before.len() + j] == reagents(parts.last())[j]);
        before.len() + j
    }
}

/// The stock covers the recipe: every named leaf of a recipe's tree has its reservoir
/// in the bank that the recipe starts from.
pub proof fn lemma_leaves_are_in_stock(t: TokenView, k: int)
    requires
        tree_of(t) is Ok,
        0 <= k < tree_of(t)->Ok_0.root.leaves().len(),
        tree_of(t)->Ok_0.root.leaves()[k].token.compound.name is Some,
    ensures
        find_compound(
            tree_of(t)->Ok_0.initial_state,
            tree_of(t)->Ok_0.root.leaves()[k].token.compound,
        ) is Some,
{
    let bare = deconstructed(t, 0).0;
    let root = bare.concretized(None)->Ok_0;
    lemma_deconstructed_mirrors(t, 0);
    lemma_concretized_mirrors(bare, None);
    let j = lemma_leaf_is_reagent(root, k);
    lemma_initial_bank_covers(root.token, j);
}

} // verus!
