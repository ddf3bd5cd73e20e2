//! The greedy planner: which leaf of the recipe tree is made next, from which
//! reservoirs, into which one, and the actions that make it.

use crate::calculator::action::Action;
use crate::calculator::reservoir::{
    class_units, find_compound, first_empty_index, padded, ChemState,
    ReservoirView, NUM_RESERVOIRS,
};
use crate::calculator::tree::{
    branch_views, lemma_branch_views, lemma_leaf_is_removable, lemma_leaves_are_leaves,
    lemma_leaves_nonempty, BranchView, ChemTree, ChemTreeBranch, TreeView,
};
use crate::chemicals::{
    lemma_token_views_index, lemma_token_views_len, token_views, ChemToken, PlanError, TokenView,
};
use crate::seqs::{first_index, lemma_first_index, lemma_first_index_is, lemma_first_index_none};
use vstd::prelude::*;

verus! {

/// The highest scheduling priority among the tokens of `ls` (0 where there are none).
pub open spec fn max_priority(ls: Seq<BranchView>) -> u32
    decreases ls.len(),
{
    if ls.len() == 0 {
        0
    } else {
        let rest = max_priority(ls.drop_last());
        if ls.last().token.priority > rest {
            ls.last().token.priority
        } else {
            rest
        }
    }
}

/// Taking what ingredient `ing` asks for would leave reservoir `r` with exactly nothing.
pub open spec fn drains(r: ReservoirView, ing: TokenView) -> bool {
    r.holds(ing.compound) && r.amount() is Some && r.amount() == ing.concrete
}

/// How many reservoirs of the bank ingredient `ing` would drain.
pub open spec fn drained_by(bank: Seq<ReservoirView>, ing: TokenView) -> nat
    decreases bank.len(),
{
    if bank.len() == 0 {
        0
    } else {
        drained_by(bank.drop_last(), ing) + if drains(bank.last(), ing) {
            1nat
        } else {
            0nat
        }
    }
}

/// How many pairs of an ingredient and a reservoir there are in which the ingredient
/// would drain the reservoir.
pub open spec fn emptied_count(parts: Seq<TokenView>, bank: Seq<ReservoirView>) -> nat
    decreases parts.len(),
{
    if parts.len() == 0 {
        0
    } else {
        emptied_count(parts.drop_last(), bank) + drained_by(bank, parts.last())
    }
}

/// `n`, or the largest `u32` where `n` is above it.
pub open spec fn capped(n: nat) -> u32 {
    if n > u32::MAX {
        u32::MAX
    } else {
        n as u32
    }
}

/// The score of a candidate: the reservoirs that making it would drain.
pub open spec fn score(b: BranchView, bank: Seq<ReservoirView>) -> u32 {
    capped(emptied_count(b.token.compound.parts, bank))
}

/// Among the first `n` of `ls`, the position of the first of priority `p` whose score
/// no other of priority `p` exceeds.
pub open spec fn picked_among(ls: Seq<BranchView>, bank: Seq<ReservoirView>, p: u32, n: int) -> Option<
    int,
>
    decreases n,
{
    if n <= 0 {
        None
    } else {
        let before = picked_among(ls, bank, p, n - 1);
        if ls[n - 1].token.priority != p {
            before
        } else {
            match before {
                None => Some(n - 1),
                Some(best) => if score(ls[n - 1], bank) > score(ls[best], bank) {
                    Some(n - 1)
                } else {
                    Some(best)
                },
            }
        }
    }
}

/// The position in `ls` of the leaf that is made next: of the leaves of highest
/// priority the first one with the highest score.
pub open spec fn picked_index(ls: Seq<BranchView>, bank: Seq<ReservoirView>) -> int {
    match picked_among(ls, bank, max_priority(ls), ls.len() as int) {
        Some(i) => i,
        None => 0,
    }
}

/// No priority is above `max_priority`, and where there are tokens, one has it.
pub proof fn lemma_max_priority(ls: Seq<BranchView>)
    ensures
        forall|i: int| 0 <= i < ls.len() ==> (#[trigger] ls[i]).token.priority <= max_priority(ls),
        ls.len() > 0 ==> exists|i: int|
            0 <= i < ls.len() && (#[trigger] ls[i]).token.priority == max_priority(ls),
    decreases ls.len(),
{
    if ls.len() > 0 {
        let head = ls.drop_last();
        lemma_max_priority(head);
        assert forall|i: int| 0 <= i < ls.len() implies (#[trigger] ls[i]).token.priority
            <= max_priority(ls) by {
            if i < head.len() {
                assert(head[i] == ls[i]);
            }
        }
        if ls.last().token.priority > max_priority(head) || head.len() == 0 {
            assert(ls[ls.len() - 1].token.priority == max_priority(ls));
        } else {
            let i = choose|i: int|
                0 <= i < head.len() && (#[trigger] head[i]).token.priority == max_priority(head);
            assert(ls[i] == head[i]);
        }
    }
}

/// What `picked_among` finds has priority `p`, scores highest among those of priority
/// `p`, and is the first to do so; it finds something where a token has priority `p`.
pub proof fn lemma_picked_among(ls: Seq<BranchView>, bank: Seq<ReservoirView>, p: u32, n: int)
    requires
        0 <= n <= ls.len(),
    ensures
        match picked_among(ls, bank, p, n) {
            Some(best) => {
                &&& 0 <= best < n
                &&& ls[best].token.priority == p
                &&& forall|j: int|
                    0 <= j < n && (#[trigger] ls[j]).token.priority == p ==> score(ls[j], bank)
                        <= score(ls[best], bank)
                &&& forall|j: int|
                    0 <= j < best && (#[trigger] ls[j]).token.priority == p ==> score(ls[j], bank)
                        < score(ls[best], bank)
            },
            None => forall|j: int| 0 <= j < n ==> (#[trigger] ls[j]).token.priority != p,
        },
    decreases n,
{
    if n > 0 {
        lemma_picked_among(ls, bank, p, n - 1);
    }
}

/// Of leaves that are there, one is picked: its priority is the highest, no leaf of
/// that priority scores higher, and none before it scores as high.
pub proof fn lemma_picked_index(ls: Seq<BranchView>, bank: Seq<ReservoirView>)
    requires
        ls.len() > 0,
    ensures
        0 <= picked_index(ls, bank) < ls.len(),
        picked_among(ls, bank, max_priority(ls), ls.len() as int) == Some(picked_index(ls, bank)),
        ls[picked_index(ls, bank)].token.priority == max_priority(ls),
        forall|j: int|
            0 <= j < ls.len() && (#[trigger] ls[j]).token.priority == max_priority(ls) ==> score(
                ls[j],
                bank,
            ) <= score(ls[picked_index(ls, bank)], bank),
        forall|j: int|
            0 <= j < picked_index(ls, bank) && (#[trigger] ls[j]).token.priority == max_priority(
                ls,
            ) ==> score(ls[j], bank) < score(ls[picked_index(ls, bank)], bank),
{
    lemma_max_priority(ls);
    lemma_picked_among(ls, bank, max_priority(ls), ls.len() as int);
}

/// The highest priority among `leaves`.
fn highest_priority(leaves: &Vec<ChemTreeBranch>) -> (p: u32)
    ensures
        p == max_priority(branch_views(leaves@)),
{
    let ghost ls = branch_views(leaves@);
    proof {
        lemma_branch_views(leaves@);
    }
    let mut p: u32 = 0;
    let mut i: usize = 0;
    assert(ls.take(0) =~= Seq::empty());
    while i < leaves.len()
        invariant
            i <= leaves.len(),
            ls == branch_views(leaves@),
            ls.len() == leaves@.len(),
            forall|j: int| 0 <= j < ls.len() ==> #[trigger] ls[j] == leaves@[j]@,
            p == max_priority(ls.take(i as int)),
        decreases leaves.len() - i,
    {
        proof {
            assert(ls.take(i + 1).drop_last() =~= ls.take(i as int));
            assert(ls.take(i + 1).last() == ls[i as int]);
            leaves@[i as int].lemma_view_children();
        }
        if leaves[i].chem.priority > p {
            p = leaves[i].chem.priority;
        }
        i += 1;
    }
    assert(ls.take(i as int) =~= ls);
    p
}

/// How many reservoirs the ingredient `ing` would drain, capped.
fn drained_reservoirs(state: &ChemState, ing: &ChemToken) -> (count: u32)
    ensures
        count == capped(drained_by(state@, ing@)),
{
    let ghost bank = state@;
    let mut count: u32 = 0;
    let mut i: usize = 0;
    assert(bank.take(0) =~= Seq::empty());
    while i < state.chems.len()
        invariant
            i <= state.chems.len(),
            bank == state@,
            count == capped(drained_by(bank.take(i as int), ing@)),
        decreases state.chems.len() - i,
    {
        proof {
            assert(bank.take(i + 1).drop_last() =~= bank.take(i as int));
            assert(bank.take(i + 1).last() == state.chems@[i as int]@);
        }
        let hit = match &state.chems[i].contents {
            None => false,
            Some(held) => {
                held.chemical.same_as(&ing.chemical) && match (
                    held.concrete_quantity,
                    ing.concrete_quantity,
                ) {
                    (Some(have), Some(need)) => have == need,
                    _ => false,
                }
            },
        };
        if hit && count < u32::MAX {
            count += 1;
        }
        i += 1;
    }
    assert(bank.take(i as int) =~= bank);
    count
}

/// The score of token `chem` as a candidate: how many pairs of an ingredient of it and
/// a reservoir there are in which taking the ingredient would leave the reservoir
/// with exactly nothing (capped at the largest `u32`).
pub fn emptied_chemicals(
    chem: &ChemToken,
    state: &ChemState,
    allowed_mix_reservoirs_min_index: u32,
) -> (emptied: u32)
    ensures
        emptied == capped(emptied_count(chem@.compound.parts, state@)),
{
    let ghost parts = chem@.compound.parts;
    proof {
        chem.chemical.lemma_view_parts();
    }
    let mut count: u32 = 0;
    let mut i: usize = 0;
    assert(parts.take(0) =~= Seq::empty());
    while i < chem.chemical.chemicals.len()
        invariant
            i <= chem.chemical.chemicals.len(),
            parts == chem@.compound.parts,
            parts.len() == chem.chemical.chemicals@.len(),
            forall|j: int|
                0 <= j < parts.len() ==> #[trigger] parts[j] == chem.chemical.chemicals@[j]@,
            count == capped(emptied_count(parts.take(i as int), state@)),
        decreases chem.chemical.chemicals.len() - i,
    {
        proof {
            assert(parts.take(i + 1).drop_last() =~= parts.take(i as int));
            assert(parts.take(i + 1).last() == parts[i as int]);
        }
        let more = drained_reservoirs(state, &chem.chemical.chemicals[i]);
        count = if more > u32::MAX - count {
            u32::MAX
        } else {
            count + more
        };
        i += 1;
    }
    assert(parts.take(i as int) =~= parts);
    count
}

/// The position among `leaves` of the leaf that is made next.
fn pick_leaf(leaves: &Vec<ChemTreeBranch>, state: &ChemState, floor: u32) -> (best: usize)
    requires
        leaves@.len() > 0,
    ensures
        best == picked_index(branch_views(leaves@), state@),
        best < leaves@.len(),
{
    let ghost ls = branch_views(leaves@);
    let ghost bank = state@;
    proof {
        lemma_branch_views(leaves@);
        lemma_picked_index(ls, bank);
    }
    let p = highest_priority(leaves);
    let mut best: Option<usize> = None;
    let mut best_score: u32 = 0;
    let mut i: usize = 0;
    while i < leaves.len()
        invariant
            i <= leaves.len(),
            ls == branch_views(leaves@),
            bank == state@,
            ls.len() == leaves@.len(),
            forall|j: int| 0 <= j < ls.len() ==> #[trigger] ls[j] == leaves@[j]@,
            match best {
                Some(b) => picked_among(ls, bank, p, i as int) == Some(b as int) && b < i
                    && best_score == score(ls[b as int], bank),
                None => picked_among(ls, bank, p, i as int) is None,
            },
        decreases leaves.len() - i,
    {
        proof {
            leaves@[i as int].lemma_view_children();
        }
        if leaves[i].chem.priority == p {
            let trial = emptied_chemicals(&leaves[i].chem, state, floor);
            match best {
                None => {
                    best = Some(i);
                    best_score = trial;
                },
                Some(_) => {
                    if trial > best_score {
                        best = Some(i);
                        best_score = trial;
                    }
                },
            }
        }
        i += 1;
    }
    match best {
        Some(b) => b,
        None => 0,
    }
}

/// Having a priority below `priority`, as a predicate on tokens.
pub open spec fn below(priority: u32) -> spec_fn(TokenView) -> bool {
    |t: TokenView| t.priority < priority
}

/// Where a token of priority `priority` goes into `sorted`: before the first token
/// of lower priority, or at the end.
pub open spec fn insertion_point(sorted: Seq<TokenView>, priority: u32) -> int {
    match first_index(sorted, below(priority)) {
        Some(i) => i,
        None => sorted.len() as int,
    }
}

/// The tokens of `s` from highest to lowest priority; tokens of one priority keep
/// their order.
pub open spec fn by_priority(s: Seq<TokenView>) -> Seq<TokenView>
    decreases s.len(),
{
    if s.len() == 0 {
        s
    } else {
        let head = by_priority(s.drop_last());
        head.insert(insertion_point(head, s.last().priority), s.last())
    }
}

/// `by_priority` keeps the length.
pub proof fn lemma_by_priority_len(s: Seq<TokenView>)
    ensures
        by_priority(s).len() == s.len(),
    decreases s.len(),
{
    if s.len() > 0 {
        let head = by_priority(s.drop_last());
        lemma_by_priority_len(s.drop_last());
        lemma_first_index(head, below(s.last().priority));
    }
}

/// Copies of `parts` from highest to lowest priority; tokens of one priority keep
/// their order.
fn sorted_by_priority(parts: &Vec<ChemToken>) -> (sorted: Vec<ChemToken>)
    ensures
        token_views(sorted@) == by_priority(token_views(parts@)),
{
    let ghost src = token_views(parts@);
    proof {
        lemma_token_views_len(parts@);
    }
    let mut sorted: Vec<ChemToken> = Vec::new();
    let mut i: usize = 0;
    proof {
        lemma_token_views_len(sorted@);
        assert(src.take(0) =~= Seq::empty());
        assert(token_views(sorted@) =~= Seq::empty());
    }
    while i < parts.len()
        invariant
            i <= parts.len(),
            src == token_views(parts@),
            src.len() == parts@.len(),
            token_views(sorted@) == by_priority(src.take(i as int)),
        decreases parts.len() - i,
    {
        let ghost head = token_views(sorted@);
        proof {
            lemma_token_views_len(sorted@);
            lemma_token_views_index(parts@, i as int);
            assert(src.take(i + 1).drop_last() =~= src.take(i as int));
            assert(src.take(i + 1).last() == parts@[i as int]@);
        }
        let priority = parts[i].priority;
        let ghost lower = below(priority);
        let mut at: usize = 0;
        while at < sorted.len() && sorted[at].priority >= priority
            invariant
                at <= sorted.len(),
                head == token_views(sorted@),
                head.len() == sorted@.len(),
                lower == below(priority),
                forall|j: int| 0 <= j < at ==> !lower(#[trigger] head[j]),
            decreases sorted.len() - at,
        {
            proof {
                lemma_token_views_index(sorted@, at as int);
            }
            at += 1;
        }
        proof {
            if at < sorted.len() {
                lemma_token_views_index(sorted@, at as int);
                assert(lower(head[at as int]));
                lemma_first_index_is(head, lower, at as int);
            } else {
                lemma_first_index_none(head, lower);
            }
            assert(insertion_point(head, priority) == at);
        }
        let part = parts[i].clone();
        proof {
            let after = sorted@.insert(at as int, part);
            lemma_token_views_len(after);
            assert forall|j: int| 0 <= j < after.len() implies token_views(after)[j]
                == head.insert(at as int, part@)[j] by {
                lemma_token_views_index(after, j);
                if j < at {
                    lemma_token_views_index(sorted@, j);
                } else if j > at {
                    lemma_token_views_index(sorted@, j - 1);
                }
            }
            assert(token_views(after) =~= head.insert(at as int, part@));
        }
        sorted.insert(at, part);
        i += 1;
    }
    assert(src.take(i as int) =~= src);
    sorted
}

/// The bank after what ingredient `ing` asks for was taken out of the first reservoir
/// that holds its compound.
pub open spec fn taken(bank: Seq<ReservoirView>, ing: TokenView) -> Result<
    Seq<ReservoirView>,
    PlanError,
> {
    match find_compound(bank, ing.compound) {
        None => Err(PlanError::MissingReservoir),
        Some(i) => match ing.concrete {
            None => Err(PlanError::UnresolvedQuantity),
            Some(amount) => match bank[i].reduced(amount) {
                Err(e) => Err(e),
                Ok(r) => Ok(bank.update(i, r)),
            },
        },
    }
}

/// The bank after the first `n` ingredients were taken out of it, one after the other.
pub open spec fn taken_all(bank: Seq<ReservoirView>, ings: Seq<TokenView>, n: int) -> Result<
    Seq<ReservoirView>,
    PlanError,
>
    decreases n,
{
    if n <= 0 {
        Ok(bank)
    } else {
        match taken_all(bank, ings, n - 1) {
            Err(e) => Err(e),
            Ok(b) => taken(b, ings[n - 1]),
        }
    }
}

/// Ingredient `ing` was taken from a reservoir at or above `floor` that now holds
/// exactly nothing.
pub open spec fn left_empty(bank: Seq<ReservoirView>, ing: TokenView, floor: u32) -> bool {
    match find_compound(bank, ing.compound) {
        None => false,
        Some(i) => bank[i].amount() == Some(0u32) && i >= floor,
    }
}

/// The first of the first `n` ingredients whose reservoir may be mixed in.
pub open spec fn first_left_empty(
    bank: Seq<ReservoirView>,
    ings: Seq<TokenView>,
    floor: u32,
    n: int,
) -> Option<int>
    decreases n,
{
    if n <= 0 {
        None
    } else {
        match first_left_empty(bank, ings, floor, n - 1) {
            Some(k) => Some(k),
            None => if left_empty(bank, ings[n - 1], floor) {
                Some(n - 1)
            } else {
                None
            },
        }
    }
}

/// The reservoir that the ingredients are combined in, and the purge that prepares
/// it: the reservoir of the first ingredient that was left with exactly nothing, at
/// or above `floor`, purged down to what the ingredient asks for; else the first
/// reservoir that holds nothing, with no purge.
pub open spec fn destination(bank: Seq<ReservoirView>, ings: Seq<TokenView>, floor: u32) -> Result<
    (int, Seq<Action>),
    PlanError,
> {
    match first_left_empty(bank, ings, floor, ings.len() as int) {
        Some(k) => match ings[k].concrete {
            None => Err(PlanError::UnresolvedQuantity),
            Some(amount) => {
                let i = find_compound(bank, ings[k].compound)->Some_0;
                Ok((i, seq![Action::EjectDownTo { target: (i + 1) as u32, amount }]))
            },
        },
        None => match first_empty_index(bank) {
            None => Err(PlanError::NoEmptyReservoir),
            Some(i) => Ok((i, Seq::empty())),
        },
    }
}

/// The bank and the actions after ingredient `ing` was moved to reservoir `dest`: no
/// action where it is there already; else a transfer of what the ingredient asks
/// for, and where that leaves a source at or above `floor` with exactly nothing, an
/// eject, with the source cleared. A source below `floor` is stock: it is neither
/// ejected nor cleared.
pub open spec fn moved(bank: Seq<ReservoirView>, ing: TokenView, dest: int, floor: u32) -> Result<
    (Seq<ReservoirView>, Seq<Action>),
    PlanError,
> {
    match find_compound(bank, ing.compound) {
        None => Err(PlanError::MissingReservoir),
        Some(i) => if i == dest {
            Ok((bank, Seq::empty()))
        } else {
            match ing.concrete {
                None => Err(PlanError::UnresolvedQuantity),
                Some(amount) => {
                    let transfer = Action::Transfer {
                        amount,
                        source: (i + 1) as u32,
                        target: (dest + 1) as u32,
                    };
                    if bank[i].amount() == Some(0u32) && i >= floor {
                        Ok(
                            (
                                bank.update(i, bank[i].cleared()),
                                seq![transfer, Action::Eject { target: (i + 1) as u32 }],
                            ),
                        )
                    } else {
                        Ok((bank, seq![transfer]))
                    }
                },
            }
        },
    }
}

/// The bank and the actions after the first `n` ingredients were moved to reservoir
/// `dest`, one after the other.
pub open spec fn moved_all(
    bank: Seq<ReservoirView>,
    ings: Seq<TokenView>,
    dest: int,
    floor: u32,
    n: int,
) -> Result<
    (Seq<ReservoirView>, Seq<Action>),
    PlanError,
>
    decreases n,
{
    if n <= 0 {
        Ok((bank, Seq::empty()))
    } else {
        match moved_all(bank, ings, dest, floor, n - 1) {
            Err(e) => Err(e),
            Ok((b, log)) => match moved(b, ings[n - 1], dest, floor) {
                Err(e) => Err(e),
                Ok((after, actions)) => Ok((after, log + actions)),
            },
        }
    }
}

/// Once the first `n` ingredients cannot be taken, neither can all.
pub proof fn lemma_taken_all_err(bank: Seq<ReservoirView>, ings: Seq<TokenView>, n: int, m: int)
    requires
        0 <= n <= m,
        taken_all(bank, ings, n) is Err,
    ensures
        taken_all(bank, ings, m) == taken_all(bank, ings, n),
    decreases m - n,
{
    if n < m {
        lemma_taken_all_err(bank, ings, n, m - 1);
    }
}

/// Once the first `n` ingredients cannot be moved, neither can all.
pub proof fn lemma_moved_all_err(
    bank: Seq<ReservoirView>,
    ings: Seq<TokenView>,
    dest: int,
    floor: u32,
    n: int,
    m: int,
)
    requires
        0 <= n <= m,
        moved_all(bank, ings, dest, floor, n) is Err,
    ensures
        moved_all(bank, ings, dest, floor, m) == moved_all(bank, ings, dest, floor, n),
    decreases m - n,
{
    if n < m {
        lemma_moved_all_err(bank, ings, dest, floor, n, m - 1);
    }
}

/// Taking and moving keep the number of reservoirs.
pub proof fn lemma_taken_all_len(bank: Seq<ReservoirView>, ings: Seq<TokenView>, n: int)
    ensures
        taken_all(bank, ings, n) matches Ok(b) ==> b.len() == bank.len(),
    decreases n,
{
    if n > 0 {
        lemma_taken_all_len(bank, ings, n - 1);
        if let Ok(b) = taken_all(bank, ings, n - 1) {
            crate::calculator::reservoir::lemma_find_compound(b, ings[n - 1].compound);
        }
    }
}

/// Taking and moving keep the number of reservoirs.
pub proof fn lemma_moved_all_len(
    bank: Seq<ReservoirView>,
    ings: Seq<TokenView>,
    dest: int,
    floor: u32,
    n: int,
)
    ensures
        moved_all(bank, ings, dest, floor, n) matches Ok(r) ==> r.0.len() == bank.len(),
    decreases n,
{
    if n > 0 {
        lemma_moved_all_len(bank, ings, dest, floor, n - 1);
        if let Ok(r) = moved_all(bank, ings, dest, floor, n - 1) {
            crate::calculator::reservoir::lemma_find_compound(r.0, ings[n - 1].compound);
        }
    }
}

/// Takes every ingredient out of the first reservoir that holds its compound. On
/// failure the bank is of no more use.
fn take_ingredients(state: &mut ChemState, ings: &Vec<ChemToken>) -> (r: Result<(), PlanError>)
    ensures
        match taken_all(old(state)@, token_views(ings@), ings@.len() as int) {
            Ok(b) => r is Ok && final(state)@ == b,
            Err(e) => r == Err::<(), PlanError>(e),
        },
{
    let ghost bank = state@;
    let ghost views = token_views(ings@);
    proof {
        lemma_token_views_len(ings@);
    }
    let mut i: usize = 0;
    while i < ings.len()
        invariant
            i <= ings.len(),
            views == token_views(ings@),
            views.len() == ings@.len(),
            bank == old(state)@,
            taken_all(bank, views, i as int) == Ok::<Seq<ReservoirView>, PlanError>(state@),
        decreases ings.len() - i,
    {
        proof {
            lemma_token_views_index(ings@, i as int);
        }
        let ing = &ings[i];
        let outcome = match state.find_chem(&ing.chemical) {
            None => Err(PlanError::MissingReservoir),
            Some(at) => match ing.concrete_quantity {
                None => Err(PlanError::UnresolvedQuantity),
                Some(amount) => state.reduce(at, amount),
            },
        };
        match outcome {
            Ok(()) => {},
            Err(e) => {
                proof {
                    assert(taken_all(bank, views, i + 1) == Err::<Seq<ReservoirView>, PlanError>(
                        e,
                    ));
                    lemma_taken_all_err(bank, views, i + 1, ings@.len() as int);
                }
                return Err(e);
            },
        }
        i += 1;
    }
    Ok(())
}

/// Picks the reservoir that the ingredients are combined in, and logs the purge that
/// prepares it.
fn choose_destination(
    state: &ChemState,
    ings: &Vec<ChemToken>,
    floor: u32,
    log: &mut Vec<Action>,
) -> (r: Result<usize, PlanError>)
    requires
        state@.len() == NUM_RESERVOIRS,
    ensures
        match destination(state@, token_views(ings@), floor) {
            Ok((dest, purge)) => r == Ok::<usize, PlanError>(dest as usize) && 0 <= dest
                < state@.len() && final(log)@ == old(log)@ + purge,
            Err(e) => r == Err::<usize, PlanError>(e),
        },
{
    let ghost bank = state@;
    let ghost views = token_views(ings@);
    proof {
        lemma_token_views_len(ings@);
    }
    let mut i: usize = 0;
    while i < ings.len()
        invariant
            i <= ings.len(),
            bank == state@,
            bank.len() == NUM_RESERVOIRS,
            views == token_views(ings@),
            views.len() == ings@.len(),
            first_left_empty(bank, views, floor, i as int) is None,
            log@ == old(log)@,
        decreases ings.len() - i,
    {
        proof {
            lemma_token_views_index(ings@, i as int);
        }
        let ing = &ings[i];
        match state.find_chem(&ing.chemical) {
            None => {},
            Some(at) => {
                let drained = match &state.chems[at].contents {
                    Some(held) => match held.concrete_quantity {
                        Some(have) => have == 0,
                        None => false,
                    },
                    None => false,
                };
                if drained && at >= floor as usize {
                    proof {
                        assert(left_empty(bank, views[i as int], floor));
                        assert(first_left_empty(bank, views, floor, i + 1) == Some(i as int));
                        lemma_first_left_empty_found(bank, views, floor, i + 1, ings@.len() as int);
                    }
                    match ing.concrete_quantity {
                        None => { return Err(PlanError::UnresolvedQuantity); },
                        Some(amount) => {
                            let purge = Action::EjectDownTo { target: at as u32 + 1, amount };
                            proof {
                                assert(old(log)@ + seq![purge] =~= old(log)@.push(purge));
                            }
                            log.push(purge);
                            return Ok(at);
                        },
                    }
                }
                assert(!left_empty(bank, views[i as int], floor));
            },
        }
        i += 1;
    }
    proof {
        assert(old(log)@ + Seq::<Action>::empty() =~= old(log)@);
    }
    state.first_empty()
}

/// Once one of the first `n` ingredients is found, it stays the one that is found.
pub proof fn lemma_first_left_empty_found(
    bank: Seq<ReservoirView>,
    ings: Seq<TokenView>,
    floor: u32,
    n: int,
    m: int,
)
    requires
        0 <= n <= m,
        first_left_empty(bank, ings, floor, n) is Some,
    ensures
        first_left_empty(bank, ings, floor, m) == first_left_empty(bank, ings, floor, n),
    decreases m - n,
{
    if n < m {
        lemma_first_left_empty_found(bank, ings, floor, n, m - 1);
    }
}

/// Moves every ingredient that is not in reservoir `dest` there, and logs the
/// actions. Sources at or above `floor` that are left with nothing are ejected and
/// cleared. On failure the bank and the log are of no more use.
fn transfer_ingredients(
    state: &mut ChemState,
    ings: &Vec<ChemToken>,
    dest: usize,
    floor: u32,
    log: &mut Vec<Action>,
) -> (r: Result<(), PlanError>)
    requires
        old(state)@.len() == NUM_RESERVOIRS,
        dest < NUM_RESERVOIRS,
    ensures
        match moved_all(
            old(state)@,
            token_views(ings@),
            dest as int,
            floor,
            ings@.len() as int,
        ) {
            Ok((b, actions)) => r is Ok && final(state)@ == b && final(log)@ == old(log)@
                + actions,
            Err(e) => r == Err::<(), PlanError>(e),
        },
{
    let ghost bank = state@;
    let ghost views = token_views(ings@);
    let ghost mut done: Seq<Action> = Seq::empty();
    proof {
        lemma_token_views_len(ings@);
        assert(old(log)@ + done =~= old(log)@);
    }
    let mut i: usize = 0;
    while i < ings.len()
        invariant
            i <= ings.len(),
            views == token_views(ings@),
            views.len() == ings@.len(),
            state@.len() == NUM_RESERVOIRS,
            dest < NUM_RESERVOIRS,
            bank == old(state)@,
            moved_all(bank, views, dest as int, floor, i as int) == Ok::<
                (Seq<ReservoirView>, Seq<Action>),
                PlanError,
            >((state@, done)),
            log@ == old(log)@ + done,
        decreases ings.len() - i,
    {
        proof {
            lemma_token_views_index(ings@, i as int);
        }
        let ing = &ings[i];
        match state.find_chem(&ing.chemical) {
            None => {
                proof {
                    assert(moved_all(bank, views, dest as int, floor, i + 1) is Err);
                    lemma_moved_all_err(
                        bank,
                        views,
                        dest as int,
                        floor,
                        i + 1,
                        ings@.len() as int,
                    );
                }
                return Err(PlanError::MissingReservoir);
            },
            Some(at) => {
                if at != dest {
                    let amount = match ing.concrete_quantity {
                        Some(amount) => amount,
                        None => {
                            proof {
                                assert(moved_all(bank, views, dest as int, floor, i + 1) is Err);
                                lemma_moved_all_err(
                                    bank,
                                    views,
                                    dest as int,
                                    floor,
                                    i + 1,
                                    ings@.len() as int,
                                );
                            }
                            return Err(PlanError::UnresolvedQuantity);
                        },
                    };
                    let transfer = Action::Transfer {
                        amount,
                        target: dest as u32 + 1,
                        source: at as u32 + 1,
                    };
                    log.push(transfer);
                    let drained = match &state.chems[at].contents {
                        Some(held) => match held.concrete_quantity {
                            Some(have) => have == 0,
                            None => false,
                        },
                        None => false,
                    };
                    if drained && at >= floor as usize {
                        let eject = Action::Eject { target: at as u32 + 1 };
                        log.push(eject);
                        state.clear(at);
                        proof {
                            assert(log@ =~= old(log)@ + (done + seq![transfer, eject]));
                            done = done + seq![transfer, eject];
                        }
                    } else {
                        proof {
                            assert(log@ =~= old(log)@ + (done + seq![transfer]));
                            done = done + seq![transfer];
                        }
                    }
                } else {
                    proof {
                        assert(done + Seq::<Action>::empty() =~= done);
                    }
                }
            },
        }
        i += 1;
    }
    Ok(())
}

/// What one step of planning leaves behind: the bank, the tree, the actions of the
/// step, and the number (from 1) of the reservoir that holds what was made.
pub struct StepView {
    pub bank: Seq<ReservoirView>,
    pub tree: BranchView,
    pub actions: Seq<Action>,
    pub target: u32,
}

/// The heat action for what `leaf` makes in reservoir `dest`, where it asks for a
/// temperature.
pub open spec fn heating(leaf: BranchView, dest: int) -> Seq<Action> {
    match leaf.token.compound.temp {
        Some(temp) => seq![Action::Heat { temp, target: (dest + 1) as u32 }],
        None => Seq::empty(),
    }
}

/// One step of planning. The leaf to make is picked: of the leaves of highest
/// priority the first that drains the most reservoirs. Its ingredients, from highest
/// to lowest priority, are taken out of their reservoirs; the reservoir to combine
/// them in is chosen and purged; the other ingredients are transferred there, and
/// sources at or above `floor` that are left with nothing are ejected and cleared
/// (below `floor` lies stock, which is only ever a source); what was made is heated where
/// it asks for a temperature, and takes the place of what the destination held.
/// The leaf leaves the tree.
pub open spec fn step(bank: Seq<ReservoirView>, tree: BranchView, floor: u32) -> Result<
    StepView,
    PlanError,
> {
    let ls = tree.leaves();
    let leaf = ls[picked_index(ls, bank)];
    let ings = by_priority(leaf.token.compound.parts);
    match taken_all(bank, ings, ings.len() as int) {
        Err(e) => Err(e),
        Ok(reduced) => match destination(reduced, ings, floor) {
            Err(e) => Err(e),
            Ok((dest, purge)) => match moved_all(
                reduced,
                ings,
                dest,
                floor,
                ings.len() as int,
            ) {
                Err(e) => Err(e),
                Ok((moved, transfers)) => match moved[dest].replaced(leaf.token) {
                    Err(e) => Err(e),
                    Ok(r) => Ok(
                        StepView {
                            bank: moved.update(dest, r),
                            tree: tree.removed(leaf.id).0,
                            actions: purge + transfers + heating(leaf, dest),
                            target: (dest + 1) as u32,
                        },
                    ),
                },
            },
        },
    }
}

/// The reservoir that `destination` chooses is one of the bank.
pub proof fn lemma_destination(bank: Seq<ReservoirView>, ings: Seq<TokenView>, floor: u32)
    ensures
        destination(bank, ings, floor) matches Ok(d) ==> 0 <= d.0 < bank.len(),
{
    lemma_first_left_empty(bank, ings, floor, ings.len() as int);
    match first_left_empty(bank, ings, floor, ings.len() as int) {
        Some(k) => {
            crate::calculator::reservoir::lemma_find_compound(bank, ings[k].compound);
        },
        None => {
            crate::calculator::reservoir::lemma_first_empty_index(bank);
        },
    }
}

/// What `first_left_empty` finds is an ingredient that was left empty, and the first.
pub proof fn lemma_first_left_empty(
    bank: Seq<ReservoirView>,
    ings: Seq<TokenView>,
    floor: u32,
    n: int,
)
    ensures
        match first_left_empty(bank, ings, floor, n) {
            Some(k) => 0 <= k < n && left_empty(bank, ings[k], floor) && forall|j: int|
                0 <= j < k ==> !left_empty(bank, #[trigger] ings[j], floor),
            None => forall|j: int| 0 <= j < n ==> !left_empty(bank, #[trigger] ings[j], floor),
        },
    decreases n,
{
    if n > 0 {
        lemma_first_left_empty(bank, ings, floor, n - 1);
    }
}

/// A step keeps the number of reservoirs, and takes a node from a tree that is more
/// than its root.
pub proof fn lemma_step(bank: Seq<ReservoirView>, tree: BranchView, floor: u32)
    ensures
        step(bank, tree, floor) matches Ok(s) ==> s.bank.len() == bank.len() && (
        tree.children.len() > 0 ==> s.tree.node_count() < tree.node_count()) && (
        tree.children.len() == 0 ==> s.tree == tree),
{
    let ls = tree.leaves();
    lemma_leaves_nonempty(tree);
    lemma_picked_index(ls, bank);
    let at = picked_index(ls, bank);
    let leaf = ls[at];
    let ings = by_priority(leaf.token.compound.parts);
    lemma_taken_all_len(bank, ings, ings.len() as int);
    if let Ok(reduced) = taken_all(bank, ings, ings.len() as int) {
        lemma_destination(reduced, ings, floor);
        if let Ok((dest, purge)) = destination(reduced, ings, floor) {
            lemma_moved_all_len(reduced, ings, dest, floor, ings.len() as int);
        }
    }
    if tree.children.len() > 0 {
        lemma_leaf_is_removable(tree, at);
    } else {
        crate::calculator::tree::lemma_removed(tree, leaf.id);
        assert(crate::calculator::tree::without_id(tree.children, leaf.id) =~= tree.children);
        assert(!tree.removed(leaf.id).1);
    }
}

/// Plans one step: picks the leaf to make, takes its ingredients, combines them in
/// one reservoir and logs the actions. Returns the number (from 1) of the reservoir
/// that holds what was made. Reservoirs below `allowed_mix_reservoirs_min_index`
/// (counted from 0) are meant for stock: the step takes from them, and a drained one
/// among them is neither chosen to mix in nor ejected or cleared. On failure bank,
/// tree and log are left as they were.
pub fn compute_step(
    state: &mut ChemState,
    tree: &mut ChemTreeBranch,
    actions: &mut Vec<Action>,
    allowed_mix_reservoirs_min_index: u32,
) -> (r: Result<u32, PlanError>)
    requires
        old(state)@.len() == NUM_RESERVOIRS,
    ensures
        final(state)@.len() == NUM_RESERVOIRS,
        match step(old(state)@, old(tree)@, allowed_mix_reservoirs_min_index) {
            Ok(s) => {
                &&& r == Ok::<u32, PlanError>(s.target)
                &&& final(state)@ == s.bank
                &&& final(tree)@ == s.tree
                &&& final(actions)@ == old(actions)@ + s.actions
            },
            Err(e) => {
                &&& r == Err::<u32, PlanError>(e)
                &&& final(state)@ == old(state)@
                &&& final(tree)@ == old(tree)@
                &&& final(actions)@ == old(actions)@
            },
        },
{
    let floor = allowed_mix_reservoirs_min_index;
    let ghost bank0 = state@;
    let ghost tree0 = tree@;
    let ghost ls = tree0.leaves();
    let leaves = tree.get_leaves();
    proof {
        lemma_leaves_nonempty(tree0);
        lemma_branch_views(leaves@);
        lemma_step(bank0, tree0, floor);
    }
    let at = pick_leaf(&leaves, state, floor);
    let picked = &leaves[at];
    let ghost leaf = ls[at as int];
    proof {
        picked.lemma_view_children();
        picked.chem.chemical.lemma_view_parts();
        lemma_leaves_are_leaves(tree0, at as int);
        assert(picked@ == leaf);
    }
    let ings = sorted_by_priority(&picked.chem.chemical.chemicals);
    let ghost parts = by_priority(leaf.token.compound.parts);
    proof {
        lemma_by_priority_len(leaf.token.compound.parts);
        lemma_token_views_len(ings@);
        assert(token_views(ings@) == parts);
    }
    let mut bank = state.clone();
    let mut log: Vec<Action> = Vec::new();
    match take_ingredients(&mut bank, &ings) {
        Ok(()) => {},
        Err(e) => { return Err(e); },
    }
    let ghost reduced = bank@;
    proof {
        lemma_taken_all_len(bank0, parts, parts.len() as int);
    }
    let dest = match choose_destination(&bank, &ings, floor, &mut log) {
        Ok(dest) => dest,
        Err(e) => { return Err(e); },
    };
    let ghost purge = log@;
    proof {
        assert(Seq::<Action>::empty() + destination(reduced, parts, floor)->Ok_0.1 =~= purge);
    }
    match transfer_ingredients(&mut bank, &ings, dest, floor, &mut log) {
        Ok(()) => {},
        Err(e) => { return Err(e); },
    }
    proof {
        lemma_moved_all_len(reduced, parts, dest as int, floor, parts.len() as int);
    }
    let ghost transfers = moved_all(
        reduced,
        parts,
        dest as int,
        floor,
        parts.len() as int,
    )->Ok_0.1;
    match picked.chem.chemical.temp {
        Some(temp) => {
            log.push(Action::Heat { temp, target: dest as u32 + 1 });
        },
        None => {},
    }
    proof {
        assert(log@ =~= purge + transfers + heating(leaf, dest as int));
    }
    match bank.replace(dest, &picked.chem) {
        Ok(()) => {},
        Err(e) => { return Err(e); },
    }
    tree.remove_leaf(picked);
    *state = bank;
    actions.append(&mut log);
    Ok(dest as u32 + 1)
}

/// The tree after the first `n` of `ls` were removed from it, one after the other.
pub open spec fn trimmed_by(tree: BranchView, ls: Seq<BranchView>, n: int) -> BranchView
    decreases n,
{
    if n <= 0 {
        tree
    } else {
        trimmed_by(tree, ls, n - 1).removed(ls[n - 1].id).0
    }
}

/// The tree without its leaves. In the tree of a recipe the leaves are the base
/// reagents: the bank holds them from the start, and no step has to make them.
pub open spec fn trimmed(tree: BranchView) -> BranchView {
    trimmed_by(tree, tree.leaves(), tree.leaves().len() as int)
}

/// Removes the leaves of the tree: the base reagents, which are in stock.
pub fn trim_basics(tree: &mut ChemTreeBranch)
    ensures
        final(tree)@ == trimmed(old(tree)@),
{
    let ghost ls = tree@.leaves();
    let leaves = tree.get_leaves();
    proof {
        lemma_branch_views(leaves@);
    }
    let mut i: usize = 0;
    while i < leaves.len()
        invariant
            i <= leaves.len(),
            ls == old(tree)@.leaves(),
            ls == branch_views(leaves@),
            ls.len() == leaves@.len(),
            forall|j: int| 0 <= j < ls.len() ==> #[trigger] ls[j] == leaves@[j]@,
            tree@ == trimmed_by(old(tree)@, ls, i as int),
        decreases leaves.len() - i,
    {
        proof {
            lemma_leaves_are_leaves(old(tree)@, i as int);
        }
        tree.remove_leaf(&leaves[i]);
        i += 1;
    }
}

/// A result with `done` put before its actions.
pub open spec fn after(
    done: Seq<Action>,
    r: Result<(Seq<ReservoirView>, BranchView, Seq<Action>), PlanError>,
) -> Result<(Seq<ReservoirView>, BranchView, Seq<Action>), PlanError> {
    match r {
        Err(e) => Err(e),
        Ok((bank, tree, log)) => Ok((bank, tree, done + log)),
    }
}

/// Step after step until the tree is down to its root: the bank, the tree and the
/// actions that this leaves.
pub open spec fn run_steps(bank: Seq<ReservoirView>, tree: BranchView, floor: u32) -> Result<
    (Seq<ReservoirView>, BranchView, Seq<Action>),
    PlanError,
>
    decreases tree.node_count(),
{
    if tree.children.len() == 0 {
        Ok((bank, tree, Seq::empty()))
    } else {
        match step(bank, tree, floor) {
            Err(e) => Err(e),
            Ok(s) => {
                proof {
                    lemma_step(bank, tree, floor);
                }
                after(s.actions, run_steps(s.bank, s.tree, floor))
            },
        }
    }
}

/// The bank with every reservoir from `floor` on cleared.
pub open spec fn cleared_from(bank: Seq<ReservoirView>, floor: int) -> Seq<ReservoirView> {
    Seq::new(
        bank.len(),
        |i: int|
            if i >= floor {
                bank[i].cleared()
            } else {
                bank[i]
            },
    )
}

/// The amount that a bottle is reported with.
pub const BOTTLE_AMOUNT: u32 = 100;

/// One batch: the tree without its leaves is planned step by step down to its root,
/// the root is made, and what was made is bottled. Its reservoir and every reservoir
/// from `floor` on are cleared for the next batch.
pub open spec fn batch(bank: Seq<ReservoirView>, root: BranchView, floor: u32) -> Result<
    (Seq<ReservoirView>, Seq<Action>),
    PlanError,
> {
    match run_steps(bank, trimmed(root), floor) {
        Err(e) => Err(e),
        Ok((mixed, rest, log)) => match step(mixed, rest, floor) {
            Err(e) => Err(e),
            Ok(last) => match find_compound(last.bank, root.token.compound) {
                None => Err(PlanError::MissingReservoir),
                Some(out) => Ok(
                    (
                        cleared_from(last.bank.update(out, last.bank[out].cleared()), floor as int),
                        log + last.actions + seq![
                            Action::CreateBottle { target: (out + 1) as u32, amount: BOTTLE_AMOUNT },
                        ],
                    ),
                ),
            },
        },
    }
}

/// `n` batches, one after the other.
pub open spec fn batches(bank: Seq<ReservoirView>, root: BranchView, floor: u32, n: nat) -> Result<
    (Seq<ReservoirView>, Seq<Action>),
    PlanError,
>
    decreases n,
{
    if n == 0 {
        Ok((bank, Seq::empty()))
    } else {
        match batches(bank, root, floor, (n - 1) as nat) {
            Err(e) => Err(e),
            Ok((b, log)) => match batch(b, root, floor) {
                Err(e) => Err(e),
                Ok((next, more)) => Ok((next, log + more)),
            },
        }
    }
}

/// The first reservoir that planning may mix in: with more than one batch the first
/// that holds nothing at the start, so that the stock below it is left alone; with
/// one batch or none the first of the bank.
pub open spec fn floor_of(bank: Seq<ReservoirView>, times: u32) -> Result<u32, PlanError> {
    if times > 1 {
        match first_empty_index(bank) {
            None => Err(PlanError::NoEmptyReservoir),
            Some(i) => Ok(i as u32),
        }
    } else {
        Ok(0)
    }
}

/// The plan of `times` batches of a recipe tree: the log of actions, and the units
/// of the capacity class that each reservoir needs. A bank of more reservoirs than
/// the machine has fails the plan at once.
pub open spec fn plan(tree: TreeView, times: u32) -> Result<(Seq<Action>, Seq<u32>), PlanError> {
    let bank = padded(tree.initial_state);
    if bank.len() > NUM_RESERVOIRS {
        Err(PlanError::TooManyReagents { count: bank.len() as usize })
    } else {
        match floor_of(bank, times) {
            Err(e) => Err(e),
            Ok(floor) => match batches(bank, tree.root, floor, times as nat) {
                Err(e) => Err(e),
                Ok((after, log)) => Ok((log, class_units(after))),
            },
        }
    }
}

/// Once some batches fail, so do more of them.
pub proof fn lemma_batches_err(
    bank: Seq<ReservoirView>,
    root: BranchView,
    floor: u32,
    n: nat,
    m: nat,
)
    requires
        n <= m,
        batches(bank, root, floor, n) is Err,
    ensures
        batches(bank, root, floor, m) == batches(bank, root, floor, n),
    decreases m - n,
{
    if n < m {
        lemma_batches_err(bank, root, floor, n, (m - 1) as nat);
    }
}

/// The first reservoir of the bank that holds nothing.
pub fn find_intially_empty(initial_state: &ChemState) -> (r: Result<u32, PlanError>)
    requires
        initial_state@.len() <= NUM_RESERVOIRS,
    ensures
        match r {
            Ok(i) => first_empty_index(initial_state@) == Some(i as int),
            Err(e) => first_empty_index(initial_state@) is None && e
                == PlanError::NoEmptyReservoir,
        },
{
    match initial_state.first_empty() {
        Ok(i) => Ok(i as u32),
        Err(e) => Err(e),
    }
}

/// Packing the bank more tightly is no operation of this planner: bank and tree stay
/// as they are.
pub fn compress_state(state: &mut ChemState, tree: &mut ChemTree)
    ensures
        *final(state) == *old(state),
        *final(tree) == *old(tree),
{
}

/// Plans one batch on the bank and logs its actions. On failure the bank and the log
/// are of no more use.
fn run_batch(state: &mut ChemState, root: &ChemTreeBranch, actions: &mut Vec<Action>, floor: u32) -> (r:
    Result<(), PlanError>)
    requires
        old(state)@.len() == NUM_RESERVOIRS,
    ensures
        match batch(old(state)@, root@, floor) {
            Ok((bank, log)) => r is Ok && final(state)@ == bank && final(actions)@ == old(
                actions,
            )@ + log && bank.len() == NUM_RESERVOIRS,
            Err(e) => r == Err::<(), PlanError>(e),
        },
{
    let ghost bank0 = state@;
    let ghost log0 = actions@;
    let mut mut_tree = root.clone();
    trim_basics(&mut mut_tree);
    let ghost tree0 = mut_tree@;
    let ghost mut done: Seq<Action> = Seq::empty();
    proof {
        mut_tree.lemma_view_children();
        assert(log0 + done =~= log0);
        assert(after(done, run_steps(bank0, tree0, floor)) == run_steps(bank0, tree0, floor)) by {
            if let Ok((b, t, log)) = run_steps(bank0, tree0, floor) {
                assert(done + log =~= log);
            }
        }
    }
    while !mut_tree.children.is_empty()
        invariant
            state@.len() == NUM_RESERVOIRS,
            mut_tree@.children.len() == mut_tree.children@.len(),
            bank0 == old(state)@,
            tree0 == trimmed(root@),
            run_steps(bank0, tree0, floor) == after(done, run_steps(state@, mut_tree@, floor)),
            actions@ == log0 + done,
        decreases mut_tree@.node_count(),
    {
        let ghost bank = state@;
        let ghost tree = mut_tree@;
        proof {
            lemma_step(bank, tree, floor);
        }
        match compute_step(state, &mut mut_tree, actions, floor) {
            Ok(_) => {
                proof {
                    let s = step(bank, tree, floor)->Ok_0;
                    let rest = run_steps(s.bank, s.tree, floor);
                    assert(run_steps(bank, tree, floor) == after(s.actions, rest));
                    assert(after(done, after(s.actions, rest)) == after(done + s.actions, rest)) by {
                        if let Ok((b, t, log)) = rest {
                            assert(done + (s.actions + log) =~= (done + s.actions) + log);
                        }
                    }
                    assert(actions@ =~= log0 + (done + s.actions));
                    done = done + s.actions;
                    mut_tree.lemma_view_children();
                }
            },
            Err(e) => {
                return Err(e);
            },
        }
    }
    proof {
        assert(run_steps(state@, mut_tree@, floor) == Ok::<
            (Seq<ReservoirView>, BranchView, Seq<Action>),
            PlanError,
        >((state@, mut_tree@, Seq::empty())));
        assert(done + Seq::<Action>::empty() =~= done);
        lemma_step(state@, mut_tree@, floor);
    }
    let ghost mixed = state@;
    let ghost rest = mut_tree@;
    match compute_step(state, &mut mut_tree, actions, floor) {
        Ok(_) => {},
        Err(e) => { return Err(e); },
    }
    let ghost last = step(mixed, rest, floor)->Ok_0;
    proof {
        root.lemma_view_children();
    }
    let out = match state.find_chem(&root.chem.chemical) {
        Some(out) => out,
        None => { return Err(PlanError::MissingReservoir); },
    };
    let bottle = Action::CreateBottle { target: out as u32 + 1, amount: BOTTLE_AMOUNT };
    actions.push(bottle);
    proof {
        assert(actions@ =~= log0 + (done + last.actions + seq![bottle]));
    }
    state.clear(out);
    let ghost bottled = state@;
    let mut i: usize = floor as usize;
    while i < NUM_RESERVOIRS
        invariant
            floor <= i,
            state@.len() == NUM_RESERVOIRS,
            bottled.len() == NUM_RESERVOIRS,
            forall|j: int|
                0 <= j < NUM_RESERVOIRS ==> #[trigger] state@[j] == if floor <= j < i {
                    bottled[j].cleared()
                } else {
                    bottled[j]
                },
        decreases NUM_RESERVOIRS - i,
    {
        state.clear(i);
        i += 1;
    }
    proof {
        assert(state@ =~= cleared_from(bottled, floor as int));
    }
    Ok(())
}

/// Plans `times_produced` batches of the recipe tree. Returns the log of actions and,
/// for each reservoir, the units of the capacity class that it needs.
pub fn compute_actions(tree: &ChemTree, times_produced: u32) -> (r: Result<
    (Vec<Action>, Vec<u32>),
    PlanError,
>)
    ensures
        match plan(tree@, times_produced) {
            Ok((log, sizes)) => r is Ok && r->Ok_0.0@ == log && r->Ok_0.1@ == sizes,
            Err(e) => r is Err && r->Err_0 == e,
        },
{
    let mut state = ChemState::new(&tree.initial_state.chems);
    if state.chems.len() > NUM_RESERVOIRS {
        return Err(PlanError::TooManyReagents { count: state.chems.len() });
    }
    let ghost bank0 = state@;
    let floor = if times_produced > 1 {
        match find_intially_empty(&state) {
            Ok(floor) => floor,
            Err(e) => { return Err(e); },
        }
    } else {
        0
    };
    let mut actions: Vec<Action> = Vec::new();
    let mut made: u32 = 0;
    while made < times_produced
        invariant
            made <= times_produced,
            state@.len() == NUM_RESERVOIRS,
            bank0.len() == NUM_RESERVOIRS,
            bank0 == padded(tree@.initial_state),
            floor_of(bank0, times_produced) == Ok::<u32, PlanError>(floor),
            batches(bank0, tree@.root, floor, made as nat) == Ok::<
                (Seq<ReservoirView>, Seq<Action>),
                PlanError,
            >((state@, actions@)),
        decreases times_produced - made,
    {
        match run_batch(&mut state, &tree.root, &mut actions, floor) {
            Ok(()) => {},
            Err(e) => {
                proof {
                    assert(batches(bank0, tree@.root, floor, (made + 1) as nat) is Err);
                    lemma_batches_err(
                        bank0,
                        tree@.root,
                        floor,
                        (made + 1) as nat,
                        times_produced as nat,
                    );
                }
                return Err(e);
            },
        }
        made += 1;
    }
    Ok((actions, state.get_sizes()))
}

} // verus!
