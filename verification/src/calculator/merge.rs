//! An experimental pass over a recipe tree, for those who ask for it: where one
//! compound is asked for in several places and one of them is a leaf, the others are
//! merged into that leaf. Planning does not run it.

use crate::calculator::planner::{trim_basics, trimmed, trimmed_by};
use crate::calculator::tree::{
    branch_views, lemma_branch_views, lemma_leaf_is_removable, lemma_leaves_nonempty,
    lemma_removed, BranchView, ChemTreeBranch,
};
use crate::chemicals::{
    combined, lemma_token_views_index, lemma_token_views_len, token_views, ChemToken, Chemical,
    CompoundView, PlanError, TokenView,
};
use crate::seqs::{first_index, lemma_first_index_is, lemma_first_index_none};
use vstd::prelude::*;

verus! {

/// Being of compound `c`, as a predicate on tokens.
pub open spec fn of_compound(c: CompoundView) -> spec_fn(TokenView) -> bool {
    |t: TokenView| t.compound.same(c)
}

/// Having no children, as a predicate on nodes.
pub open spec fn childless() -> spec_fn(BranchView) -> bool {
    |b: BranchView| b.children.len() == 0
}

/// The buckets after token `t` was counted: added to the bucket of its compound
/// where there is one, else a new bucket behind the others.
pub open spec fn bucketed_one(buckets: Seq<TokenView>, t: TokenView) -> Result<
    Seq<TokenView>,
    PlanError,
> {
    match first_index(buckets, of_compound(t.compound)) {
        None => Ok(buckets.push(t)),
        Some(i) => match combined(buckets[i], t) {
            Err(e) => Err(e),
            Ok(sum) => Ok(buckets.update(i, sum)),
        },
    }
}

/// The buckets after every node of the tree was counted, the root before what is
/// below it: one token for each compound, with the sum of the quantities.
pub open spec fn bucketed(b: BranchView, buckets: Seq<TokenView>) -> Result<
    Seq<TokenView>,
    PlanError,
>
    decreases b,
{
    match bucketed_one(buckets, b.token) {
        Err(e) => Err(e),
        Ok(with_self) => bucketed_in(b.children, with_self),
    }
}

/// The buckets after every node of the trees of `s` was counted.
pub open spec fn bucketed_in(s: Seq<BranchView>, buckets: Seq<TokenView>) -> Result<
    Seq<TokenView>,
    PlanError,
>
    decreases s,
{
    if s.len() == 0 {
        Ok(buckets)
    } else {
        match bucketed_in(s.drop_last(), buckets) {
            Err(e) => Err(e),
            Ok(head) => bucketed(s.last(), head),
        }
    }
}

/// The first of the first `n` buckets of whose compound the tree has a leaf.
pub open spec fn mergeable(tree: BranchView, pending: Seq<TokenView>, n: int) -> Option<int>
    decreases n,
{
    if n <= 0 {
        None
    } else {
        match mergeable(tree, pending, n - 1) {
            Some(k) => Some(k),
            None => if first_index(tree.holding(pending[n - 1].compound), childless()) is Some {
                Some(n - 1)
            } else {
                None
            },
        }
    }
}

/// Token `t` with the tokens of the first `n` of `branches` merged into it, but for
/// the node named `keep`.
pub open spec fn merged_into(t: TokenView, branches: Seq<BranchView>, keep: u32, n: int) -> Result<
    TokenView,
    PlanError,
>
    decreases n,
{
    if n <= 0 {
        Ok(t)
    } else {
        match merged_into(t, branches, keep, n - 1) {
            Err(e) => Err(e),
            Ok(sum) => if branches[n - 1].id == keep {
                Ok(sum)
            } else {
                combined(sum, branches[n - 1].token)
            },
        }
    }
}

/// The tree with the first `n` of `branches` dissolved, but for the node named `keep`.
pub open spec fn dissolved_all(tree: BranchView, branches: Seq<BranchView>, keep: u32, n: int) -> BranchView
    decreases n,
{
    if n <= 0 {
        tree
    } else {
        let before = dissolved_all(tree, branches, keep, n - 1);
        if branches[n - 1].id == keep {
            before
        } else {
            before.dissolved(branches[n - 1].id).0
        }
    }
}

/// What `mergeable` finds is one of the buckets.
pub proof fn lemma_mergeable(tree: BranchView, pending: Seq<TokenView>, n: int)
    ensures
        mergeable(tree, pending, n) matches Some(k) ==> 0 <= k < n && first_index(
            tree.holding(pending[k].compound),
            childless(),
        ) is Some,
    decreases n,
{
    if n > 0 {
        lemma_mergeable(tree, pending, n - 1);
    }
}

/// Once one of the first `n` buckets is found, it stays the one that is found.
pub proof fn lemma_mergeable_found(tree: BranchView, pending: Seq<TokenView>, n: int, m: int)
    requires
        0 <= n <= m,
        mergeable(tree, pending, n) is Some,
    ensures
        mergeable(tree, pending, m) == mergeable(tree, pending, n),
    decreases m - n,
{
    if n < m {
        lemma_mergeable_found(tree, pending, n, m - 1);
    }
}

/// Once the first `n` branches cannot be merged, neither can all.
pub proof fn lemma_merged_into_err(
    t: TokenView,
    branches: Seq<BranchView>,
    keep: u32,
    n: int,
    m: int,
)
    requires
        0 <= n <= m,
        merged_into(t, branches, keep, n) is Err,
    ensures
        merged_into(t, branches, keep, m) == merged_into(t, branches, keep, n),
    decreases m - n,
{
    if n < m {
        lemma_merged_into_err(t, branches, keep, n, m - 1);
    }
}

/// Removing leaves one after the other never adds nodes.
pub proof fn lemma_trimmed_by_count(tree: BranchView, ls: Seq<BranchView>, n: int)
    ensures
        trimmed_by(tree, ls, n).node_count() <= tree.node_count(),
    decreases n,
{
    if n > 0 {
        lemma_trimmed_by_count(tree, ls, n - 1);
        lemma_removed(trimmed_by(tree, ls, n - 1), ls[n - 1].id);
    }
}

/// A tree that is more than its root loses nodes when its leaves are removed.
pub proof fn lemma_trimmed_shrinks(tree: BranchView)
    requires
        tree.children.len() > 0,
    ensures
        trimmed(tree).node_count() < tree.node_count(),
{
    let ls = tree.leaves();
    lemma_leaves_nonempty(tree);
    lemma_leaf_is_removable(tree, 0);
    lemma_trimmed_from_first(tree, ls, ls.len() as int);
}

/// After the first leaf is gone, the further removals add no nodes.
pub proof fn lemma_trimmed_from_first(tree: BranchView, ls: Seq<BranchView>, n: int)
    requires
        n >= 1,
    ensures
        trimmed_by(tree, ls, n).node_count() <= tree.removed(ls[0].id).0.node_count(),
    decreases n,
{
    if n > 1 {
        lemma_trimmed_from_first(tree, ls, n - 1);
        lemma_removed(trimmed_by(tree, ls, n - 1), ls[n - 1].id);
    } else {
        assert(trimmed_by(tree, ls, 0) == tree);
    }
}

/// The rounds of the pass. `shadow` is a copy of the tree that loses its leaves
/// whenever nothing can be merged, and so bounds the rounds. In each round the first
/// bucket of whose compound the tree has a leaf is merged: the tokens of the other
/// nodes of the compound are added to the first such leaf, those nodes are
/// dissolved, and the bucket is done with.
pub open spec fn merge_rounds(tree: BranchView, shadow: BranchView, pending: Seq<TokenView>) -> Result<
    BranchView,
    PlanError,
>
    decreases pending.len(), shadow.node_count(),
{
    if shadow.children.len() == 0 {
        Ok(tree)
    } else {
        match mergeable(tree, pending, pending.len() as int) {
            Some(k) => {
                let branches = tree.holding(pending[k].compound);
                let leaf = branches[first_index(branches, childless())->Some_0];
                match merged_into(leaf.token, branches, leaf.id, branches.len() as int) {
                    Err(e) => Err(e),
                    Ok(token) => {
                        let merged = dissolved_all(tree, branches, leaf.id, branches.len() as int);
                        let (replaced, found) = merged.with_token(token, leaf.id);
                        if !found {
                            Err(PlanError::MissingNode { id: leaf.id })
                        } else {
                            proof {
                                lemma_mergeable(tree, pending, pending.len() as int);
                            }
                            merge_rounds(
                                replaced,
                                dissolved_all(shadow, branches, leaf.id, branches.len() as int),
                                pending.remove(k),
                            )
                        }
                    },
                }
            },
            None => {
                proof {
                    lemma_trimmed_shrinks(shadow);
                }
                merge_rounds(tree, trimmed(shadow), pending)
            },
        }
    }
}

/// The tree after the pass.
pub open spec fn simplified(tree: BranchView) -> Result<BranchView, PlanError> {
    match bucketed(tree, Seq::empty()) {
        Err(e) => Err(e),
        Ok(pending) => merge_rounds(tree, trimmed(tree), pending),
    }
}

/// Once a prefix of the trees fails to be counted, so does the whole.
pub proof fn lemma_bucketed_in_prefix_err(s: Seq<BranchView>, buckets: Seq<TokenView>, n: int)
    requires
        0 <= n <= s.len(),
        bucketed_in(s.take(n), buckets) is Err,
    ensures
        bucketed_in(s, buckets) == bucketed_in(s.take(n), buckets),
    decreases s.len() - n,
{
    if n < s.len() {
        assert(s.take(n + 1).drop_last() =~= s.take(n));
        lemma_bucketed_in_prefix_err(s, buckets, n + 1);
    } else {
        assert(s.take(n) =~= s);
    }
}

/// The position among `buckets` of the bucket of a compound structurally equal to `chem`.
fn bucket_position(buckets: &Vec<ChemToken>, chem: &Chemical) -> (r: Option<usize>)
    ensures
        match r {
            Some(i) => first_index(token_views(buckets@), of_compound(chem@)) == Some(i as int)
                && i < buckets@.len(),
            None => first_index(token_views(buckets@), of_compound(chem@)) is None,
        },
{
    let ghost p = of_compound(chem@);
    let ghost views = token_views(buckets@);
    proof {
        lemma_token_views_len(buckets@);
    }
    let mut i: usize = 0;
    while i < buckets.len()
        invariant
            i <= buckets.len(),
            views == token_views(buckets@),
            views.len() == buckets@.len(),
            p == of_compound(chem@),
            forall|j: int| 0 <= j < i ==> !p(#[trigger] views[j]),
        decreases buckets.len() - i,
    {
        proof {
            lemma_token_views_index(buckets@, i as int);
        }
        if buckets[i].chemical.same_as(chem) {
            proof {
                assert(p(views[i as int]));
                lemma_first_index_is(views, p, i as int);
            }
            return Some(i);
        }
        assert(!p(views[i as int]));
        i += 1;
    }
    proof {
        lemma_first_index_none(views, p);
    }
    None
}

/// Views of tokens after one was put behind them, replaced, or taken out.
proof fn lemma_token_views_change(s: Seq<ChemToken>, i: int, t: ChemToken)
    ensures
        token_views(s.push(t)) == token_views(s).push(t@),
        0 <= i < s.len() ==> token_views(s.update(i, t)) == token_views(s).update(i, t@),
        0 <= i < s.len() ==> token_views(s.remove(i)) == token_views(s).remove(i),
{
    lemma_token_views_len(s);
    lemma_token_views_len(s.push(t));
    assert forall|j: int| 0 <= j < s.len() + 1 implies token_views(s.push(t))[j] == token_views(
        s,
    ).push(t@)[j] by {
        lemma_token_views_index(s.push(t), j);
        if j < s.len() {
            lemma_token_views_index(s, j);
        }
    }
    assert(token_views(s.push(t)) =~= token_views(s).push(t@));
    if 0 <= i < s.len() {
        lemma_token_views_len(s.update(i, t));
        assert forall|j: int| 0 <= j < s.len() implies token_views(s.update(i, t))[j]
            == token_views(s).update(i, t@)[j] by {
            lemma_token_views_index(s.update(i, t), j);
            lemma_token_views_index(s, j);
        }
        assert(token_views(s.update(i, t)) =~= token_views(s).update(i, t@));
        lemma_token_views_len(s.remove(i));
        assert forall|j: int| 0 <= j < s.len() - 1 implies token_views(s.remove(i))[j]
            == token_views(s).remove(i)[j] by {
            lemma_token_views_index(s.remove(i), j);
            if j < i {
                lemma_token_views_index(s, j);
            } else {
                lemma_token_views_index(s, j + 1);
            }
        }
        assert(token_views(s.remove(i)) =~= token_views(s).remove(i));
    }
}

impl ChemTreeBranch {
    /// One token for each compound of the tree, in the order in which the compounds
    /// first appear, with the sum of the quantities that the tree asks for.
    pub fn bucket_chems(&self) -> (r: Result<Vec<ChemToken>, PlanError>)
        ensures
            match bucketed(self@, Seq::empty()) {
                Ok(v) => r is Ok && token_views(r->Ok_0@) == v,
                Err(e) => r is Err && r->Err_0 == e,
            },
    {
        let buckets: Vec<ChemToken> = Vec::new();
        proof {
            lemma_token_views_len(buckets@);
            assert(token_views(buckets@) =~= Seq::empty());
        }
        self.bucket_chems_recursive(buckets)
    }

    /// Counts every node of the tree into `buckets`, the root before what is below it.
    pub fn bucket_chems_recursive(&self, buckets: Vec<ChemToken>) -> (r: Result<
        Vec<ChemToken>,
        PlanError,
    >)
        ensures
            match bucketed(self@, token_views(buckets@)) {
                Ok(v) => r is Ok && token_views(r->Ok_0@) == v,
                Err(e) => r is Err && r->Err_0 == e,
            },
        decreases self,
    {
        let mut map = buckets;
        let ghost before = token_views(map@);
        proof {
            self.lemma_view_children();
        }
        match bucket_position(&map, &self.chem.chemical) {
            None => {
                let token = self.chem.clone();
                proof {
                    lemma_token_views_change(map@, 0, token);
                }
                map.push(token);
            },
            Some(i) => {
                let mut sum = map[i].clone();
                proof {
                    lemma_token_views_index(map@, i as int);
                }
                match sum.combine(&self.chem) {
                    Ok(()) => {},
                    Err(e) => { return Err(e); },
                }
                proof {
                    lemma_token_views_change(map@, i as int, sum);
                }
                map.set(i, sum);
            },
        }
        let ghost kids = self@.children;
        let ghost with_self = token_views(map@);
        let mut i: usize = 0;
        assert(kids.take(0) =~= Seq::empty());
        while i < self.children.len()
            invariant
                i <= self.children.len(),
                kids == self@.children,
                kids.len() == self.children@.len(),
                forall|j: int| 0 <= j < kids.len() ==> #[trigger] kids[j] == self.children@[j]@,
                before == token_views(buckets@),
                bucketed(self@, before) == bucketed_in(kids, with_self),
                bucketed_in(kids.take(i as int), with_self) == Ok::<Seq<TokenView>, PlanError>(
                    token_views(map@),
                ),
            decreases self.children.len() - i,
        {
            proof {
                assert(kids.take(i + 1).drop_last() =~= kids.take(i as int));
                assert(kids.take(i + 1).last() == kids[i as int]);
            }
            match self.children[i].bucket_chems_recursive(map) {
                Ok(next) => {
                    map = next;
                },
                Err(e) => {
                    proof {
                        assert(bucketed_in(kids.take(i + 1), with_self) == Err::<
                            Seq<TokenView>,
                            PlanError,
                        >(e));
                        lemma_bucketed_in_prefix_err(kids, with_self, i + 1);
                    }
                    return Err(e);
                },
            }
            i += 1;
        }
        assert(kids.take(i as int) =~= kids);
        Ok(map)
    }
}

/// The first bucket of whose compound the tree has a leaf, with copies of the nodes
/// of that compound and the position of the first leaf among them.
fn find_mergeable(work: &ChemTreeBranch, pending: &Vec<ChemToken>) -> (r: Option<
    (usize, Vec<ChemTreeBranch>, usize),
>)
    ensures
        match r {
            Some((k, branches, at)) => {
                &&& k < pending@.len()
                &&& at < branches@.len()
                &&& mergeable(work@, token_views(pending@), pending@.len() as int) == Some(
                    k as int,
                )
                &&& branch_views(branches@) == work@.holding(pending@[k as int]@.compound)
                &&& first_index(branch_views(branches@), childless()) == Some(at as int)
            },
            None => mergeable(work@, token_views(pending@), pending@.len() as int) is None,
        },
{
    let ghost views = token_views(pending@);
    proof {
        lemma_token_views_len(pending@);
    }
    let mut k: usize = 0;
    while k < pending.len()
        invariant
            k <= pending.len(),
            views == token_views(pending@),
            views.len() == pending@.len(),
            mergeable(work@, views, k as int) is None,
        decreases pending.len() - k,
    {
        proof {
            lemma_token_views_index(pending@, k as int);
        }
        let branches = work.get_branches_with_chem(&pending[k].chemical);
        let ghost nodes = branch_views(branches@);
        let ghost p = childless();
        proof {
            lemma_branch_views(branches@);
        }
        let mut at: usize = 0;
        while at < branches.len()
            invariant
                at <= branches.len(),
                nodes == branch_views(branches@),
                nodes.len() == branches@.len(),
                forall|j: int| 0 <= j < nodes.len() ==> #[trigger] nodes[j] == branches@[j]@,
                p == childless(),
                forall|j: int| 0 <= j < at ==> !p(#[trigger] nodes[j]),
                k < pending.len(),
                views == token_views(pending@),
                views.len() == pending@.len(),
                mergeable(work@, views, k as int) is None,
                nodes == work@.holding(views[k as int].compound),
                views[k as int] == pending@[k as int]@,
            decreases branches.len() - at,
        {
            if branches[at].is_leaf() {
                proof {
                    assert(p(nodes[at as int]));
                    lemma_first_index_is(nodes, p, at as int);
                    assert(mergeable(work@, views, k + 1) == Some(k as int));
                    lemma_mergeable_found(work@, views, k + 1, pending@.len() as int);
                }
                return Some((k, branches, at));
            }
            assert(!p(nodes[at as int]));
            at += 1;
        }
        proof {
            lemma_first_index_none(nodes, p);
        }
        k += 1;
    }
    None
}

impl ChemTreeBranch {
    /// The experimental pass: merges, compound by compound, what the tree asks for in
    /// several places into the first leaf of the compound. On failure the tree is
    /// left as it was.
    pub fn simplify(&mut self) -> (r: Result<(), PlanError>)
        ensures
            match simplified(old(self)@) {
                Ok(t) => r is Ok && final(self)@ == t,
                Err(e) => r == Err::<(), PlanError>(e) && final(self)@ == old(self)@,
            },
    {
        let mut pending = match self.bucket_chems() {
            Ok(pending) => pending,
            Err(e) => { return Err(e); },
        };
        let mut work = self.clone();
        let mut shadow = self.clone();
        trim_basics(&mut shadow);
        let ghost goal = simplified(self@);
        proof {
            shadow.lemma_view_children();
        }
        while !shadow.children.is_empty()
            invariant
                shadow@.children.len() == shadow.children@.len(),
                goal == simplified(old(self)@),
                self@ == old(self)@,
                merge_rounds(work@, shadow@, token_views(pending@)) == goal,
            decreases pending@.len(), shadow@.node_count(),
        {
            let ghost tree0 = work@;
            let ghost shadow0 = shadow@;
            let ghost pending0 = token_views(pending@);
            proof {
                lemma_token_views_len(pending@);
            }
            match find_mergeable(&work, &pending) {
                Some((k, branches, at)) => {
                    let ghost nodes = branch_views(branches@);
                    let ghost leaf = nodes[at as int];
                    proof {
                        lemma_branch_views(branches@);
                        lemma_token_views_index(pending@, k as int);
                        branches@[at as int].lemma_view_children();
                    }
                    let keep = branches[at].id;
                    let mut token = branches[at].chem.clone();
                    let mut i: usize = 0;
                    while i < branches.len()
                        invariant
                            i <= branches.len(),
                            nodes == branch_views(branches@),
                            nodes.len() == branches@.len(),
                            forall|j: int|
                                0 <= j < nodes.len() ==> #[trigger] nodes[j] == branches@[j]@,
                            leaf == nodes[at as int],
                            keep == leaf.id,
                            goal == simplified(old(self)@),
                            self@ == old(self)@,
                            merge_rounds(tree0, shadow0, pending0) == goal,
                            shadow0.children.len() > 0,
                            mergeable(tree0, pending0, pending0.len() as int) == Some(k as int),
                            nodes == tree0.holding(pending0[k as int].compound),
                            first_index(nodes, childless()) == Some(at as int),
                            merged_into(leaf.token, nodes, keep, i as int) == Ok::<
                                TokenView,
                                PlanError,
                            >(token@),
                            work@ == dissolved_all(tree0, nodes, keep, i as int),
                            shadow@ == dissolved_all(shadow0, nodes, keep, i as int),
                        decreases branches.len() - i,
                    {
                        proof {
                            branches@[i as int].lemma_view_children();
                        }
                        if branches[i].id != keep {
                            match token.combine(&branches[i].chem) {
                                Ok(()) => {},
                                Err(e) => {
                                    proof {
                                        assert(merged_into(leaf.token, nodes, keep, i + 1) == Err::<
                                            TokenView,
                                            PlanError,
                                        >(e));
                                        lemma_merged_into_err(
                                            leaf.token,
                                            nodes,
                                            keep,
                                            i + 1,
                                            nodes.len() as int,
                                        );
                                    }
                                    return Err(e);
                                },
                            }
                            work.dissolve_branch(&branches[i]);
                            shadow.dissolve_branch(&branches[i]);
                        }
                        i += 1;
                    }
                    let found = work.replace_chem_in_branch(&token, keep);
                    if !found {
                        return Err(PlanError::MissingNode { id: keep });
                    }
                    proof {
                        lemma_token_views_change(pending@, k as int, token);
                        shadow.lemma_view_children();
                    }
                    pending.remove(k);
                },
                None => {
                    proof {
                        lemma_trimmed_shrinks(shadow0);
                    }
                    trim_basics(&mut shadow);
                    proof {
                        shadow.lemma_view_children();
                    }
                },
            }
        }
        *self = work;
        Ok(())
    }
}

} // verus!
