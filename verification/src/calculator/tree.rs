//! The recipe tree that planning consumes: nodes are found by their identifiers,
//! since whole subtrees are copied while a plan is made.

use crate::calculator::reservoir::{ChemState, ReservoirView};
use crate::calculator::stock::{compute_initial_state, initial_bank};
use crate::chemicals::{ChemToken, Chemical, CompoundView, PlanError, TokenView};
use vstd::prelude::*;

verus! {

/// A node of the recipe tree: a token, the nodes of the token's parts that are still
/// to be made, and an identifier.
#[derive(Debug)]
pub struct ChemTreeBranch {
    pub chem: ChemToken,
    pub children: Vec<ChemTreeBranch>,
    pub id: u32,
}

/// The mathematical value of a [`ChemTreeBranch`].
pub struct BranchView {
    pub token: TokenView,
    pub children: Seq<BranchView>,
    pub id: u32,
}

/// The views of a sequence of nodes.
pub open spec fn branch_views(s: Seq<ChemTreeBranch>) -> Seq<BranchView>
    decreases s,
{
    Seq::new(
        s.len(),
        |i: int|
            if 0 <= i < s.len() {
                s[i].view()
            } else {
                arbitrary()
            },
    )
}

impl View for ChemTreeBranch {
    type V = BranchView;

    open spec fn view(&self) -> BranchView
        decreases self,
    {
        BranchView { token: self.chem@, children: branch_views(self.children@), id: self.id }
    }
}

/// `branch_views` takes the view position by position.
pub proof fn lemma_branch_views(s: Seq<ChemTreeBranch>)
    ensures
        branch_views(s).len() == s.len(),
        forall|i: int| 0 <= i < s.len() ==> #[trigger] branch_views(s)[i] == s[i]@,
{
}

/// The leaves below the nodes of `s`, from left to right.
pub open spec fn leaves_of(s: Seq<BranchView>) -> Seq<BranchView>
    decreases s,
{
    if s.len() == 0 {
        Seq::empty()
    } else {
        leaves_of(s.drop_last()) + s.last().leaves()
    }
}

/// The number of nodes in the trees of `s`.
pub open spec fn count_of(s: Seq<BranchView>) -> nat
    decreases s,
{
    if s.len() == 0 {
        0
    } else {
        count_of(s.drop_last()) + s.last().node_count()
    }
}

impl BranchView {
    /// The leaves of the tree, from left to right. A tree of one node is its own leaf.
    pub open spec fn leaves(self) -> Seq<BranchView>
        decreases self,
    {
        if self.children.len() == 0 {
            seq![self]
        } else {
            leaves_of(self.children)
        }
    }

    /// The number of nodes of the tree.
    pub open spec fn node_count(self) -> nat
        decreases self,
    {
        1 + count_of(self.children)
    }
}

/// The leaves below a longer sequence are those below the shorter one and then those
/// of the next node.
pub proof fn lemma_leaves_of_step(s: Seq<BranchView>, n: int)
    requires
        0 <= n < s.len(),
    ensures
        leaves_of(s.take(n + 1)) == leaves_of(s.take(n)) + s[n].leaves(),
{
    assert(s.take(n + 1).drop_last() =~= s.take(n));
}

/// A tree has at least one leaf.
pub proof fn lemma_leaves_nonempty(b: BranchView)
    ensures
        b.leaves().len() > 0,
    decreases b,
{
    if b.children.len() > 0 {
        lemma_leaves_of_nonempty(b.children);
    }
}

/// The trees of a sequence that is not empty have at least one leaf.
pub proof fn lemma_leaves_of_nonempty(s: Seq<BranchView>)
    requires
        s.len() > 0,
    ensures
        leaves_of(s).len() > 0,
    decreases s,
{
    lemma_leaves_nonempty(s.last());
}

impl Clone for ChemTreeBranch {
    fn clone(&self) -> (r: Self)
        ensures
            r@ == self@,
        decreases self,
    {
        let mut children: Vec<ChemTreeBranch> = Vec::new();
        let mut i: usize = 0;
        while i < self.children.len()
            invariant
                i <= self.children.len(),
                children@.len() == i,
                forall|j: int| 0 <= j < i ==> (#[trigger] children@[j])@ == self.children@[j]@,
            decreases self.children.len() - i,
        {
            let child = self.children[i].clone();
            children.push(child);
            i += 1;
        }
        proof {
            lemma_branch_views(children@);
            lemma_branch_views(self.children@);
            assert(branch_views(children@) =~= branch_views(self.children@));
        }
        ChemTreeBranch { chem: self.chem.clone(), children, id: self.id }
    }
}

impl ChemTreeBranch {
    /// The children of the view are the views of the children.
    pub proof fn lemma_view_children(&self)
        ensures
            self@.children.len() == self.children@.len(),
            forall|i: int|
                0 <= i < self.children@.len() ==> #[trigger] self@.children[i]
                    == self.children@[i]@,
            self@.token == self.chem@,
            self@.id == self.id,
    {
        lemma_branch_views(self.children@);
    }

    /// Whether the node has no children left.
    pub fn is_leaf(&self) -> (r: bool)
        ensures
            r == (self@.children.len() == 0),
    {
        proof {
            self.lemma_view_children();
        }
        self.children.is_empty()
    }

    /// Copies of the leaves of the tree, from left to right.
    pub fn get_leaves(&self) -> (leaves: Vec<ChemTreeBranch>)
        ensures
            branch_views(leaves@) == self@.leaves(),
    {
        proof {
            self.lemma_view_children();
        }
        let mut leaves: Vec<ChemTreeBranch> = Vec::new();
        if self.children.is_empty() {
            let leaf = self.clone();
            leaves.push(leaf);
            proof {
                lemma_branch_views(leaves@);
                assert(branch_views(leaves@) =~= seq![self@]);
            }
            return leaves;
        }
        proof {
            lemma_branch_views(leaves@);
            assert(branch_views(leaves@) + leaves_of(self@.children) =~= leaves_of(
                self@.children,
            ));
        }
        self.get_leaves_rec(&mut leaves);
        leaves
    }

    /// Appends copies of the leaves below the node's children to `leaves`.
    pub fn get_leaves_rec(&self, leaves: &mut Vec<ChemTreeBranch>)
        ensures
            branch_views(final(leaves)@) == branch_views(old(leaves)@) + leaves_of(
                self@.children,
            ),
        decreases self,
    {
        proof {
            self.lemma_view_children();
        }
        let ghost kids = self@.children;
        let mut i: usize = 0;
        assert(kids.take(0) =~= Seq::empty());
        assert(branch_views(leaves@) + leaves_of(kids.take(0)) =~= branch_views(leaves@));
        while i < self.children.len()
            invariant
                i <= self.children.len(),
                kids == self@.children,
                kids.len() == self.children@.len(),
                forall|j: int| 0 <= j < kids.len() ==> #[trigger] kids[j] == self.children@[j]@,
                branch_views(leaves@) == branch_views(old(leaves)@) + leaves_of(
                    kids.take(i as int),
                ),
            decreases self.children.len() - i,
        {
            proof {
                lemma_leaves_of_step(kids, i as int);
                self.children@[i as int].lemma_view_children();
            }
            let child = &self.children[i];
            if child.children.is_empty() {
                let leaf = child.clone();
                proof {
                    lemma_branch_views(leaves@);
                    lemma_branch_views(leaves@.push(leaf));
                    assert(branch_views(leaves@.push(leaf)) =~= branch_views(leaves@) + seq![
                        leaf@,
                    ]);
                }
                leaves.push(leaf);
            } else {
                child.get_leaves_rec(leaves);
            }
            assert(branch_views(leaves@) =~= branch_views(old(leaves)@) + leaves_of(
                kids.take(i + 1),
            ));
            i += 1;
        }
        assert(kids.take(i as int) =~= kids);
    }
}

/// The nodes of `s` whose identifier is not `id`, in their order.
pub open spec fn without_id(s: Seq<BranchView>, id: u32) -> Seq<BranchView>
    decreases s.len(),
{
    if s.len() == 0 {
        s
    } else if s.last().id == id {
        without_id(s.drop_last(), id)
    } else {
        without_id(s.drop_last(), id).push(s.last())
    }
}

/// The trees of `s` after the removal of `id` from the first of them, from position
/// `k` on, in which it can be removed; and whether there was one.
pub open spec fn removed_from(s: Seq<BranchView>, id: u32, k: int) -> (Seq<BranchView>, bool)
    decreases s, s.len() - k,
{
    if k < 0 || k >= s.len() {
        (s, false)
    } else {
        let (child, found) = s[k].removed(id);
        if found {
            (s.update(k, child), true)
        } else {
            removed_from(s, id, k + 1)
        }
    }
}

impl BranchView {
    /// The tree after the removal of the nodes named `id`, and whether there were any.
    /// Where children of the root carry the identifier, they all go, and nothing
    /// below is looked at; else the first child's tree in which the removal succeeds
    /// is the only one to change. The root itself is never removed.
    pub open spec fn removed(self, id: u32) -> (BranchView, bool)
        decreases self,
    {
        let kept = without_id(self.children, id);
        if kept.len() != self.children.len() {
            (BranchView { token: self.token, children: kept, id: self.id }, true)
        } else {
            let (children, found) = removed_from(self.children, id, 0);
            (BranchView { token: self.token, children, id: self.id }, found)
        }
    }
}

/// `without_id` drops a node or keeps the sequence as it is.
pub proof fn lemma_without_id(s: Seq<BranchView>, id: u32)
    ensures
        without_id(s, id).len() <= s.len(),
        without_id(s, id).len() == s.len() ==> without_id(s, id) == s,
        count_of(without_id(s, id)) <= count_of(s),
        without_id(s, id).len() < s.len() ==> count_of(without_id(s, id)) < count_of(s),
        without_id(s, id).len() == s.len() <==> forall|j: int|
            0 <= j < s.len() ==> (#[trigger] s[j]).id != id,
    decreases s.len(),
{
    if s.len() > 0 {
        let head = s.drop_last();
        lemma_without_id(head, id);
        assert(s.last().node_count() >= 1);
        assert forall|j: int| 0 <= j < head.len() implies head[j] == s[j] by {}
        if s.last().id == id {
            assert(s[s.len() - 1].id == id);
        } else {
            assert(without_id(s, id).drop_last() =~= without_id(head, id));
            if without_id(s, id).len() == s.len() {
                assert(without_id(s, id) =~= s);
                assert forall|j: int| 0 <= j < s.len() implies (#[trigger] s[j]).id != id by {
                    if j < head.len() {
                        assert(head[j].id != id);
                    }
                }
            }
            if forall|j: int| 0 <= j < s.len() ==> (#[trigger] s[j]).id != id {
                assert forall|j: int| 0 <= j < head.len() implies (#[trigger] head[j]).id
                    != id by {
                    assert(s[j].id != id);
                }
            }
        }
    }
}

/// Where the removal finds nothing in the trees between `k` and `i`, it goes on from `i`.
pub proof fn lemma_removed_from_skip(s: Seq<BranchView>, id: u32, k: int, i: int)
    requires
        0 <= k <= i <= s.len(),
        forall|j: int| k <= j < i ==> !(#[trigger] s[j]).removed(id).1,
    ensures
        removed_from(s, id, k) == removed_from(s, id, i),
    decreases i - k,
{
    if k < i {
        assert(!s[k].removed(id).1);
        lemma_removed_from_skip(s, id, k + 1, i);
    }
}

/// A removal that finds nothing changes nothing; one that finds something leaves
/// fewer nodes.
pub proof fn lemma_removed(b: BranchView, id: u32)
    ensures
        !b.removed(id).1 ==> b.removed(id).0 == b,
        b.removed(id).1 ==> b.removed(id).0.node_count() < b.node_count(),
    decreases b, 0int,
{
    lemma_without_id(b.children, id);
    if without_id(b.children, id).len() == b.children.len() {
        lemma_removed_from(b.children, id, 0);
    }
}

/// The same of a removal in a sequence of trees.
pub proof fn lemma_removed_from(s: Seq<BranchView>, id: u32, k: int)
    requires
        0 <= k <= s.len(),
    ensures
        !removed_from(s, id, k).1 ==> removed_from(s, id, k).0 == s,
        removed_from(s, id, k).1 ==> count_of(removed_from(s, id, k).0) < count_of(s),
    decreases s, s.len() - k,
{
    if k < s.len() {
        lemma_removed(s[k], id);
        if s[k].removed(id).1 {
            lemma_count_of_update(s, k, s[k].removed(id).0);
        } else {
            lemma_removed_from(s, id, k + 1);
        }
    }
}

/// Putting a smaller tree in place of one of `s` leaves fewer nodes.
pub proof fn lemma_count_of_update(s: Seq<BranchView>, k: int, b: BranchView)
    requires
        0 <= k < s.len(),
    ensures
        count_of(s.update(k, b)) == count_of(s) - s[k].node_count() + b.node_count(),
    decreases s.len(),
{
    let t = s.update(k, b);
    if k == s.len() - 1 {
        assert(t.drop_last() =~= s.drop_last());
    } else {
        assert(t.drop_last() =~= s.drop_last().update(k, b));
        lemma_count_of_update(s.drop_last(), k, b);
    }
}

impl ChemTreeBranch {
    /// Removes the leaf that is named as `branch` is. Where children of this node
    /// carry that name, they all go; else the removal is tried on the children's
    /// trees in order, until it succeeds in one. Returns whether anything was removed.
    pub fn remove_leaf(&mut self, branch: &ChemTreeBranch) -> (r: bool)
        requires
            branch@.children.len() == 0,
        ensures
            final(self)@ == old(self)@.removed(branch@.id).0,
            r == old(self)@.removed(branch@.id).1,
        decreases *old(self),
    {
        let id = branch.id;
        let ghost orig = self@.children;
        proof {
            self.lemma_view_children();
            branch.lemma_view_children();
            lemma_without_id(orig, id);
        }
        let n = self.children.len();
        drop_named(&mut self.children, id);
        proof {
            lemma_branch_views(self.children@);
            self.lemma_view_children();
        }
        if self.children.len() != n {
            return true;
        }
        let mut i: usize = 0;
        while i < self.children.len()
            invariant
                i <= self.children.len(),
                self.chem == old(self).chem,
                self.id == old(self).id,
                branch@.id == id,
                branch@.children.len() == 0,
                orig == old(self)@.children,
                without_id(orig, id).len() == orig.len(),
                branch_views(self.children@) == orig,
                forall|j: int| 0 <= j < i ==> !(#[trigger] orig[j]).removed(id).1,
                self.children@.len() == old(self).children@.len(),
                forall|j: int|
                    i <= j < self.children@.len() ==> #[trigger] self.children@[j] == old(
                        self,
                    ).children@[j],
            decreases self.children.len() - i,
        {
            let ghost before = self.children@;
            proof {
                lemma_branch_views(before);
            }
            let found = self.children[i].remove_leaf(branch);
            proof {
                lemma_branch_views(self.children@);
                lemma_removed(orig[i as int], id);
                assert(self.children@ =~= before.update(i as int, self.children@[i as int]));
                assert(branch_views(self.children@) =~= orig.update(
                    i as int,
                    orig[i as int].removed(id).0,
                ));
            }
            if found {
                proof {
                    lemma_removed_from_skip(orig, id, 0, i as int);
                    self.lemma_view_children();
                }
                return true;
            }
            proof {
                assert(orig.update(i as int, orig[i as int]) =~= orig);
            }
            i += 1;
        }
        proof {
            lemma_branch_views(self.children@);
            lemma_removed_from_skip(orig, id, 0, orig.len() as int);
            self.lemma_view_children();
        }
        false
    }
}

/// The identifier that follows `id`; after the last one the count starts again.
pub open spec fn next_id(id: u32) -> u32 {
    if id == u32::MAX {
        0
    } else {
        (id + 1) as u32
    }
}

/// The tree of a token, and the first identifier that it leaves unused. A node's
/// children mirror the token's parts; identifiers are handed out from `start` on, to
/// the children's trees from left to right and then to the node itself.
pub open spec fn deconstructed(t: TokenView, start: u32) -> (BranchView, u32)
    decreases t,
{
    let (children, id) = deconstructed_parts(t.compound.parts, start);
    (BranchView { token: t, children, id }, next_id(id))
}

/// The trees of the tokens of `parts`, and the first identifier that they leave unused.
pub open spec fn deconstructed_parts(parts: Seq<TokenView>, start: u32) -> (Seq<BranchView>, u32)
    decreases parts,
{
    if parts.len() == 0 {
        (Seq::empty(), start)
    } else {
        let (head, next) = deconstructed_parts(parts.drop_last(), start);
        let (last, after) = deconstructed(parts.last(), next);
        (head.push(last), after)
    }
}

/// The children of `s`, each concretized under a parent of amount `parent`; the first
/// that cannot be fails the whole.
pub open spec fn concretized_all(s: Seq<BranchView>, parent: u32) -> Result<
    Seq<BranchView>,
    PlanError,
>
    decreases s,
{
    if s.len() == 0 {
        Ok(Seq::empty())
    } else {
        match concretized_all(s.drop_last(), parent) {
            Err(e) => Err(e),
            Ok(head) => match s.last().concretized(Some(parent)) {
                Err(e) => Err(e),
                Ok(last) => Ok(head.push(last)),
            },
        }
    }
}

impl BranchView {
    /// The tree with each node's token resolved against the concrete quantity of the
    /// node above it, the root's against `parent`.
    pub open spec fn concretized(self, parent: Option<u32>) -> Result<BranchView, PlanError>
        decreases self,
    {
        match crate::chemicals::resolve_token(self.token, parent) {
            Err(e) => Err(e),
            Ok(token) => match token.concrete {
                None => Err(PlanError::UnresolvedQuantity),
                Some(own) => match concretized_all(self.children, own) {
                    Err(e) => Err(e),
                    Ok(children) => Ok(BranchView { token, children, id: self.id }),
                },
            },
        }
    }
}

/// Once a prefix of the children fails, so does the whole, with the same error.
pub proof fn lemma_concretized_all_prefix_err(s: Seq<BranchView>, parent: u32, n: int)
    requires
        0 <= n <= s.len(),
        concretized_all(s.take(n), parent) is Err,
    ensures
        concretized_all(s, parent) == concretized_all(s.take(n), parent),
    decreases s.len() - n,
{
    if n < s.len() {
        assert(s.take(n + 1).drop_last() =~= s.take(n));
        lemma_concretized_all_prefix_err(s, parent, n + 1);
    } else {
        assert(s.take(n) =~= s);
    }
}

impl ChemTreeBranch {
    /// The tree of `token`, with identifiers from `*id_counter` on.
    pub fn deconstruct(token: &ChemToken, id_counter: &mut u32) -> (r: ChemTreeBranch)
        ensures
            r@ == deconstructed(token@, *old(id_counter)).0,
            *final(id_counter) == deconstructed(token@, *old(id_counter)).1,
        decreases token,
    {
        let ghost start = *id_counter;
        let ghost parts = token@.compound.parts;
        proof {
            token.chemical.lemma_view_parts();
        }
        let mut children: Vec<ChemTreeBranch> = Vec::new();
        let mut i: usize = 0;
        proof {
            lemma_branch_views(children@);
            assert(parts.take(0) =~= Seq::empty());
            assert(branch_views(children@) =~= Seq::empty());
        }
        while i < token.chemical.chemicals.len()
            invariant
                i <= token.chemical.chemicals.len(),
                parts == token@.compound.parts,
                parts.len() == token.chemical.chemicals@.len(),
                forall|j: int|
                    0 <= j < parts.len() ==> #[trigger] parts[j] == token.chemical.chemicals@[j]@,
                branch_views(children@) == deconstructed_parts(parts.take(i as int), start).0,
                *id_counter == deconstructed_parts(parts.take(i as int), start).1,
            decreases token.chemical.chemicals.len() - i,
        {
            proof {
                assert(parts.take(i + 1).drop_last() =~= parts.take(i as int));
                assert(parts.take(i + 1).last() == parts[i as int]);
            }
            let child = ChemTreeBranch::deconstruct(&token.chemical.chemicals[i], id_counter);
            proof {
                lemma_branch_views(children@);
                lemma_branch_views(children@.push(child));
                assert(branch_views(children@.push(child)) =~= branch_views(children@).push(
                    child@,
                ));
            }
            children.push(child);
            i += 1;
        }
        assert(parts.take(i as int) =~= parts);
        let id = *id_counter;
        *id_counter = if id == u32::MAX {
            0
        } else {
            id + 1
        };
        ChemTreeBranch { chem: token.clone(), children, id }
    }

    /// A copy of the tree with each node's token resolved against the concrete
    /// quantity of the node above it.
    pub fn concretized(&self, parent: Option<u32>) -> (r: Result<ChemTreeBranch, PlanError>)
        ensures
            match self@.concretized(parent) {
                Ok(v) => r is Ok && r->Ok_0@ == v,
                Err(e) => r == Err::<ChemTreeBranch, PlanError>(e),
            },
        decreases self,
    {
        proof {
            self.lemma_view_children();
        }
        let chem = match self.chem.resolved(parent) {
            Ok(chem) => chem,
            Err(e) => { return Err(e); },
        };
        let own = match chem.concrete_quantity {
            Some(own) => own,
            None => { return Err(PlanError::UnresolvedQuantity); },
        };
        let ghost kids = self@.children;
        let mut children: Vec<ChemTreeBranch> = Vec::new();
        let mut i: usize = 0;
        proof {
            lemma_branch_views(children@);
            assert(kids.take(0) =~= Seq::empty());
            assert(branch_views(children@) =~= Seq::empty());
        }
        while i < self.children.len()
            invariant
                i <= self.children.len(),
                kids == self@.children,
                kids.len() == self.children@.len(),
                forall|j: int| 0 <= j < kids.len() ==> #[trigger] kids[j] == self.children@[j]@,
                crate::chemicals::resolve_token(self@.token, parent) == Ok::<TokenView, PlanError>(
                    chem@,
                ),
                chem@.concrete == Some(own),
                concretized_all(kids.take(i as int), own) == Ok::<Seq<BranchView>, PlanError>(
                    branch_views(children@),
                ),
            decreases self.children.len() - i,
        {
            proof {
                assert(kids.take(i + 1).drop_last() =~= kids.take(i as int));
                assert(kids.take(i + 1).last() == kids[i as int]);
            }
            match self.children[i].concretized(Some(own)) {
                Ok(child) => {
                    proof {
                        lemma_branch_views(children@);
                        lemma_branch_views(children@.push(child));
                        assert(branch_views(children@.push(child)) =~= branch_views(
                            children@,
                        ).push(child@));
                    }
                    children.push(child);
                },
                Err(e) => {
                    proof {
                        assert(concretized_all(kids.take(i + 1), own) == Err::<
                            Seq<BranchView>,
                            PlanError,
                        >(e));
                        lemma_concretized_all_prefix_err(kids, own, i + 1);
                    }
                    return Err(e);
                },
            }
            i += 1;
        }
        assert(kids.take(i as int) =~= kids);
        Ok(ChemTreeBranch { chem, children, id: self.id })
    }

    /// Resolves the token of every node, from the root down. The root's quantity has
    /// to be absolute. On failure the tree is left as it was.
    pub fn concretize_quantites(&mut self) -> (r: Result<(), PlanError>)
        ensures
            match old(self)@.concretized(None) {
                Ok(v) => r is Ok && final(self)@ == v,
                Err(e) => r == Err::<(), PlanError>(e) && final(self)@ == old(self)@,
            },
    {
        match self.concretized(None) {
            Ok(tree) => {
                *self = tree;
                Ok(())
            },
            Err(e) => Err(e),
        }
    }
}

/// A leaf of a tree has no children.
pub proof fn lemma_leaves_are_leaves(b: BranchView, k: int)
    requires
        0 <= k < b.leaves().len(),
    ensures
        b.leaves()[k].children.len() == 0,
    decreases b,
{
    if b.children.len() > 0 {
        lemma_leaves_of_are_leaves(b.children, k);
    }
}

/// The leaves below a sequence of trees have no children.
pub proof fn lemma_leaves_of_are_leaves(s: Seq<BranchView>, k: int)
    requires
        0 <= k < leaves_of(s).len(),
    ensures
        leaves_of(s)[k].children.len() == 0,
    decreases s,
{
    let head = leaves_of(s.drop_last());
    if k < head.len() {
        lemma_leaves_of_are_leaves(s.drop_last(), k);
    } else {
        lemma_leaves_are_leaves(s.last(), k - head.len());
    }
}

/// A leaf of a tree that is more than its root can be removed from the tree.
pub proof fn lemma_leaf_is_removable(b: BranchView, k: int)
    requires
        b.children.len() > 0,
        0 <= k < b.leaves().len(),
    ensures
        b.removed(b.leaves()[k].id).1,
        b.removed(b.leaves()[k].id).0.node_count() < b.node_count(),
    decreases b,
{
    let id = b.leaves()[k].id;
    let j = lemma_leaf_below(b.children, k);
    lemma_without_id(b.children, id);
    lemma_removed(b, id);
    if without_id(b.children, id).len() == b.children.len() {
        lemma_removed_from_finds(b.children, id, j);
    }
}

/// A leaf below a sequence of trees is one of them, or can be removed from one of them.
pub proof fn lemma_leaf_below(s: Seq<BranchView>, k: int) -> (j: int)
    requires
        0 <= k < leaves_of(s).len(),
    ensures
        0 <= j < s.len(),
        s[j].id == leaves_of(s)[k].id || s[j].removed(leaves_of(s)[k].id).1,
    decreases s,
{
    let head = leaves_of(s.drop_last());
    if k < head.len() {
        let j = lemma_leaf_below(s.drop_last(), k);
        assert(s.drop_last()[j] == s[j]);
        j
    } else {
        let last = s.last();
        if last.children.len() > 0 {
            lemma_leaf_is_removable(last, k - head.len());
        }
        s.len() - 1
    }
}

/// Where the removal succeeds in one of the trees, it succeeds in the sequence.
pub proof fn lemma_removed_from_finds(s: Seq<BranchView>, id: u32, j: int)
    requires
        0 <= j < s.len(),
        s[j].removed(id).1,
    ensures
        removed_from(s, id, 0).1,
{
    lemma_removed_from_finds_after(s, id, j, 0);
}

/// The same, from position `k` on.
pub proof fn lemma_removed_from_finds_after(s: Seq<BranchView>, id: u32, j: int, k: int)
    requires
        0 <= k <= j < s.len(),
        s[j].removed(id).1,
    ensures
        removed_from(s, id, k).1,
    decreases j - k,
{
    if k < j && !s[k].removed(id).1 {
        lemma_removed_from_finds_after(s, id, j, k + 1);
    }
}

/// A recipe tree with the bank that its recipe starts from.
#[derive(Debug)]
pub struct ChemTree {
    pub initial_state: ChemState,
    pub root: ChemTreeBranch,
}

/// The mathematical value of a [`ChemTree`].
pub struct TreeView {
    pub initial_state: Seq<ReservoirView>,
    pub root: BranchView,
}

impl View for ChemTree {
    type V = TreeView;

    open spec fn view(&self) -> TreeView {
        TreeView { initial_state: self.initial_state@, root: self.root@ }
    }
}

impl Clone for ChemTree {
    fn clone(&self) -> (r: Self)
        ensures
            r@ == self@,
    {
        ChemTree { initial_state: self.initial_state.clone(), root: self.root.clone() }
    }
}

/// The recipe tree of token `t`: the token's tree with identifiers from 0 on, every
/// quantity resolved, and the bank of its base reagents.
pub open spec fn tree_of(t: TokenView) -> Result<TreeView, PlanError> {
    match deconstructed(t, 0).0.concretized(None) {
        Err(e) => Err(e),
        Ok(root) => match initial_bank(root.token) {
            Err(e) => Err(e),
            Ok(bank) => Ok(TreeView { initial_state: bank, root }),
        },
    }
}

impl ChemTree {
    /// Builds the recipe tree of `token`, resolves its quantities and computes the
    /// bank that the recipe starts from.
    pub fn deconstruct(token: &ChemToken) -> (r: Result<ChemTree, PlanError>)
        ensures
            match tree_of(token@) {
                Ok(v) => r is Ok && r->Ok_0@ == v,
                Err(e) => r is Err && r->Err_0 == e,
            },
    {
        let mut id_counter: u32 = 0;
        let bare = ChemTreeBranch::deconstruct(token, &mut id_counter);
        let root = match bare.concretized(None) {
            Ok(root) => root,
            Err(e) => { return Err(e); },
        };
        proof {
            root.lemma_view_children();
        }
        match compute_initial_state(&root.chem) {
            Ok(initial_state) => Ok(ChemTree { initial_state, root }),
            Err(e) => Err(e),
        }
    }
}

/// The trees of `s` with the token of the first node named `id` replaced, looking
/// from position `k` on; and whether there was such a node.
pub open spec fn with_token_from(s: Seq<BranchView>, t: TokenView, id: u32, k: int) -> (
    Seq<BranchView>,
    bool,
)
    decreases s, s.len() - k,
{
    if k < 0 || k >= s.len() {
        (s, false)
    } else {
        let (child, found) = s[k].with_token(t, id);
        if found {
            (s.update(k, child), true)
        } else {
            with_token_from(s, t, id, k + 1)
        }
    }
}

/// The nodes below the trees of `s` that hold compound `c`, each tree from its root
/// down, the trees from left to right.
pub open spec fn holding_in(s: Seq<BranchView>, c: CompoundView) -> Seq<BranchView>
    decreases s,
{
    if s.len() == 0 {
        Seq::empty()
    } else {
        holding_in(s.drop_last(), c) + s.last().holding(c)
    }
}

/// The position of the last node of `s` that is named `id`.
pub open spec fn last_with_id(s: Seq<BranchView>, id: u32) -> Option<int>
    decreases s.len(),
{
    if s.len() == 0 {
        None
    } else if s.last().id == id {
        Some(s.len() - 1)
    } else {
        last_with_id(s.drop_last(), id)
    }
}

/// The trees of `s` after the node named `id` was dissolved in the first of them,
/// from position `k` on, that has such a node below its root.
pub open spec fn dissolved_from(s: Seq<BranchView>, id: u32, k: int) -> (Seq<BranchView>, bool)
    decreases s, s.len() - k,
{
    if k < 0 || k >= s.len() {
        (s, false)
    } else {
        let (child, found) = s[k].dissolved(id);
        if found {
            (s.update(k, child), true)
        } else {
            dissolved_from(s, id, k + 1)
        }
    }
}

impl BranchView {
    /// The tree with `t` as the token of the first node named `id`, the root before
    /// what is below it and the children from left to right; and whether there is
    /// such a node.
    pub open spec fn with_token(self, t: TokenView, id: u32) -> (BranchView, bool)
        decreases self,
    {
        if self.id == id {
            (BranchView { token: t, children: self.children, id: self.id }, true)
        } else {
            let (children, found) = with_token_from(self.children, t, id, 0);
            (BranchView { token: self.token, children, id: self.id }, found)
        }
    }

    /// The nodes of the tree that hold compound `c`, the root before what is below it.
    pub open spec fn holding(self, c: CompoundView) -> Seq<BranchView>
        decreases self,
    {
        if self.token.compound.same(c) {
            seq![self] + holding_in(self.children, c)
        } else {
            holding_in(self.children, c)
        }
    }

    /// The tree after the node named `id` was dissolved: where children of the root
    /// carry the name, the children of the last of them become children of the
    /// root, behind the others, and every child of that name goes; else the first
    /// child's tree in which this succeeds is the only one to change.
    pub open spec fn dissolved(self, id: u32) -> (BranchView, bool)
        decreases self,
    {
        match last_with_id(self.children, id) {
            Some(j) => (
                BranchView {
                    token: self.token,
                    children: without_id(self.children + self.children[j].children, id),
                    id: self.id,
                },
                true,
            ),
            None => {
                let (children, found) = dissolved_from(self.children, id, 0);
                (BranchView { token: self.token, children, id: self.id }, found)
            },
        }
    }
}

/// A replacement that finds nothing changes nothing.
pub proof fn lemma_with_token(b: BranchView, t: TokenView, id: u32)
    ensures
        !b.with_token(t, id).1 ==> b.with_token(t, id).0 == b,
    decreases b, 0int,
{
    if b.id != id {
        lemma_with_token_from(b.children, t, id, 0);
    }
}

/// The same of a replacement in a sequence of trees.
pub proof fn lemma_with_token_from(s: Seq<BranchView>, t: TokenView, id: u32, k: int)
    requires
        0 <= k <= s.len(),
    ensures
        !with_token_from(s, t, id, k).1 ==> with_token_from(s, t, id, k).0 == s,
    decreases s, s.len() - k,
{
    if k < s.len() {
        lemma_with_token(s[k], t, id);
        if !s[k].with_token(t, id).1 {
            lemma_with_token_from(s, t, id, k + 1);
        }
    }
}

/// Where the replacement finds nothing in the trees between `k` and `i`, it goes on
/// from `i`.
pub proof fn lemma_with_token_from_skip(s: Seq<BranchView>, t: TokenView, id: u32, k: int, i: int)
    requires
        0 <= k <= i <= s.len(),
        forall|j: int| k <= j < i ==> !(#[trigger] s[j]).with_token(t, id).1,
    ensures
        with_token_from(s, t, id, k) == with_token_from(s, t, id, i),
    decreases i - k,
{
    if k < i {
        assert(!s[k].with_token(t, id).1);
        lemma_with_token_from_skip(s, t, id, k + 1, i);
    }
}

/// Dissolving that finds nothing changes nothing.
pub proof fn lemma_dissolved(b: BranchView, id: u32)
    ensures
        !b.dissolved(id).1 ==> b.dissolved(id).0 == b,
    decreases b, 0int,
{
    if last_with_id(b.children, id) is None {
        lemma_dissolved_from(b.children, id, 0);
    }
}

/// The same of dissolving in a sequence of trees.
pub proof fn lemma_dissolved_from(s: Seq<BranchView>, id: u32, k: int)
    requires
        0 <= k <= s.len(),
    ensures
        !dissolved_from(s, id, k).1 ==> dissolved_from(s, id, k).0 == s,
    decreases s, s.len() - k,
{
    if k < s.len() {
        lemma_dissolved(s[k], id);
        if !s[k].dissolved(id).1 {
            lemma_dissolved_from(s, id, k + 1);
        }
    }
}

/// Where dissolving finds nothing in the trees between `k` and `i`, it goes on from `i`.
pub proof fn lemma_dissolved_from_skip(s: Seq<BranchView>, id: u32, k: int, i: int)
    requires
        0 <= k <= i <= s.len(),
        forall|j: int| k <= j < i ==> !(#[trigger] s[j]).dissolved(id).1,
    ensures
        dissolved_from(s, id, k) == dissolved_from(s, id, i),
    decreases i - k,
{
    if k < i {
        assert(!s[k].dissolved(id).1);
        lemma_dissolved_from_skip(s, id, k + 1, i);
    }
}

/// The nodes below a longer sequence that hold a compound are those below the
/// shorter one and then those of the next tree.
pub proof fn lemma_holding_in_step(s: Seq<BranchView>, c: CompoundView, n: int)
    requires
        0 <= n < s.len(),
    ensures
        holding_in(s.take(n + 1), c) == holding_in(s.take(n), c) + s[n].holding(c),
{
    assert(s.take(n + 1).drop_last() =~= s.take(n));
}

/// Drops from `children` every node named `id`.
fn drop_named(children: &mut Vec<ChemTreeBranch>, id: u32)
    ensures
        branch_views(final(children)@) == without_id(branch_views(old(children)@), id),
        final(children)@.len() == old(children)@.len() ==> final(children)@ == old(children)@,
{
    let ghost orig = branch_views(children@);
    let mut i: usize = 0;
    let ghost mut k: int = 0;
    proof {
        lemma_branch_views(children@);
        assert(orig.take(0) =~= Seq::empty());
        assert(branch_views(children@) =~= without_id(orig.take(0), id) + orig.skip(0));
    }
    while i < children.len()
        invariant
            0 <= k <= orig.len(),
            i <= children.len(),
            orig == branch_views(old(children)@),
            branch_views(children@) == without_id(orig.take(k), id) + orig.skip(k),
            i == without_id(orig.take(k), id).len(),
            i <= k,
            i == k ==> children@ == old(children)@,
            i < k ==> children@.len() < old(children)@.len(),
        decreases orig.len() - k,
    {
        let ghost before = children@;
        proof {
            lemma_branch_views(before);
            lemma_branch_views(old(children)@);
            assert(orig.take(k + 1).drop_last() =~= orig.take(k));
            assert(orig.take(k + 1).last() == orig[k]);
            assert(branch_views(before)[i as int] == orig.skip(k)[0]);
            assert(before[i as int]@ == orig[k]);
            children@[i as int].lemma_view_children();
        }
        if children[i].id == id {
            children.remove(i);
            proof {
                lemma_branch_views(children@);
                let target = without_id(orig.take(k + 1), id) + orig.skip(k + 1);
                assert forall|j: int| 0 <= j < target.len() implies branch_views(children@)[j]
                    == target[j] by {
                    if j < i {
                        assert(branch_views(before)[j] == before[j]@);
                    } else {
                        assert(branch_views(before)[j + 1] == before[j + 1]@);
                    }
                }
                assert(branch_views(children@) =~= target);
            }
        } else {
            proof {
                assert(branch_views(children@) =~= without_id(orig.take(k + 1), id) + orig.skip(
                    k + 1,
                ));
            }
            i += 1;
        }
        proof {
            k = k + 1;
        }
    }
    proof {
        lemma_branch_views(children@);
        assert(k == orig.len());
        assert(orig.take(k) =~= orig);
        assert(branch_views(children@) =~= without_id(orig, id));
    }
}

impl ChemTreeBranch {
    /// Copies of the nodes that hold a compound structurally equal to `chem`, the
    /// root before what is below it.
    pub fn get_branches_with_chem(&self, chem: &Chemical) -> (branches: Vec<ChemTreeBranch>)
        ensures
            branch_views(branches@) == self@.holding(chem@),
    {
        let mut branches: Vec<ChemTreeBranch> = Vec::new();
        proof {
            lemma_branch_views(branches@);
            assert(branch_views(branches@) + self@.holding(chem@) =~= self@.holding(chem@));
        }
        self.get_branches_with_chem_rec(chem, &mut branches);
        branches
    }

    /// Appends copies of the nodes that hold a compound structurally equal to `chem`.
    pub fn get_branches_with_chem_rec(&self, chem: &Chemical, branches: &mut Vec<ChemTreeBranch>)
        ensures
            branch_views(final(branches)@) == branch_views(old(branches)@) + self@.holding(chem@),
        decreases self,
    {
        proof {
            self.lemma_view_children();
        }
        let ghost kids = self@.children;
        let ghost mut own: Seq<BranchView> = Seq::empty();
        if self.chem.chemical.same_as(chem) {
            let copy = self.clone();
            proof {
                lemma_branch_views(branches@);
                lemma_branch_views(branches@.push(copy));
                assert(branch_views(branches@.push(copy)) =~= branch_views(branches@) + seq![
                    self@,
                ]);
                own = seq![self@];
            }
            branches.push(copy);
        }
        let mut i: usize = 0;
        proof {
            assert(kids.take(0) =~= Seq::empty());
            assert(branch_views(branches@) =~= branch_views(old(branches)@) + own + holding_in(
                kids.take(0),
                chem@,
            ));
        }
        while i < self.children.len()
            invariant
                i <= self.children.len(),
                kids == self@.children,
                kids.len() == self.children@.len(),
                forall|j: int| 0 <= j < kids.len() ==> #[trigger] kids[j] == self.children@[j]@,
                branch_views(branches@) == branch_views(old(branches)@) + own + holding_in(
                    kids.take(i as int),
                    chem@,
                ),
            decreases self.children.len() - i,
        {
            proof {
                lemma_holding_in_step(kids, chem@, i as int);
            }
            self.children[i].get_branches_with_chem_rec(chem, branches);
            assert(branch_views(branches@) =~= branch_views(old(branches)@) + own + holding_in(
                kids.take(i + 1),
                chem@,
            ));
            i += 1;
        }
        proof {
            assert(kids.take(i as int) =~= kids);
            assert(branch_views(old(branches)@) + own + holding_in(kids, chem@) =~= branch_views(
                old(branches)@,
            ) + self@.holding(chem@));
        }
    }

    /// Puts `chem` in place of the token of the first node named `branch_id`, the
    /// root before what is below it. Returns whether there is such a node.
    pub fn replace_chem_in_branch(&mut self, chem: &ChemToken, branch_id: u32) -> (r: bool)
        ensures
            final(self)@ == old(self)@.with_token(chem@, branch_id).0,
            r == old(self)@.with_token(chem@, branch_id).1,
        decreases *old(self),
    {
        proof {
            self.lemma_view_children();
        }
        if self.id == branch_id {
            self.chem = chem.clone();
            proof {
                self.lemma_view_children();
                assert(self@.children =~= old(self)@.children);
            }
            return true;
        }
        let ghost orig = self@.children;
        let mut i: usize = 0;
        while i < self.children.len()
            invariant
                i <= self.children.len(),
                self.chem == old(self).chem,
                self.id == old(self).id,
                self.id != branch_id,
                orig == old(self)@.children,
                branch_views(self.children@) == orig,
                forall|j: int|
                    0 <= j < i ==> !(#[trigger] orig[j]).with_token(chem@, branch_id).1,
                self.children@.len() == old(self).children@.len(),
                forall|j: int|
                    i <= j < self.children@.len() ==> #[trigger] self.children@[j] == old(
                        self,
                    ).children@[j],
            decreases self.children.len() - i,
        {
            let ghost before = self.children@;
            proof {
                lemma_branch_views(before);
            }
            let found = self.children[i].replace_chem_in_branch(chem, branch_id);
            proof {
                lemma_branch_views(self.children@);
                lemma_with_token(orig[i as int], chem@, branch_id);
                assert(self.children@ =~= before.update(i as int, self.children@[i as int]));
                assert(branch_views(self.children@) =~= orig.update(
                    i as int,
                    orig[i as int].with_token(chem@, branch_id).0,
                ));
            }
            if found {
                proof {
                    lemma_with_token_from_skip(orig, chem@, branch_id, 0, i as int);
                    self.lemma_view_children();
                }
                return true;
            }
            proof {
                assert(orig.update(i as int, orig[i as int]) =~= orig);
            }
            i += 1;
        }
        proof {
            lemma_branch_views(self.children@);
            lemma_with_token_from_skip(orig, chem@, branch_id, 0, orig.len() as int);
            self.lemma_view_children();
        }
        false
    }

    /// Dissolves the node that is named as `branch` is: its children take its place
    /// among the children of the node above it. Returns whether there is such a node
    /// below the root.
    pub fn dissolve_branch(&mut self, branch: &ChemTreeBranch) -> (r: bool)
        ensures
            final(self)@ == old(self)@.dissolved(branch@.id).0,
            r == old(self)@.dissolved(branch@.id).1,
        decreases *old(self),
    {
        let id = branch.id;
        let ghost orig = self@.children;
        proof {
            self.lemma_view_children();
            branch.lemma_view_children();
            assert(orig.take(0) =~= Seq::empty());
        }
        let mut found_at: Option<usize> = None;
        let mut i: usize = 0;
        while i < self.children.len()
            invariant
                i <= self.children.len(),
                orig == self@.children,
                orig.len() == self.children@.len(),
                forall|j: int| 0 <= j < orig.len() ==> #[trigger] orig[j] == self.children@[j]@,
                match found_at {
                    Some(j) => last_with_id(orig.take(i as int), id) == Some(j as int) && j < i,
                    None => last_with_id(orig.take(i as int), id) is None,
                },
            decreases self.children.len() - i,
        {
            proof {
                assert(orig.take(i + 1).drop_last() =~= orig.take(i as int));
                assert(orig.take(i + 1).last() == orig[i as int]);
                self.children@[i as int].lemma_view_children();
            }
            if self.children[i].id == id {
                found_at = Some(i);
            }
            i += 1;
        }
        proof {
            assert(orig.take(i as int) =~= orig);
        }
        match found_at {
            Some(j) => {
                let child = self.children[j].clone();
                proof {
                    child.lemma_view_children();
                }
                let ghost moved_up = child@.children;
                let mut k: usize = 0;
                proof {
                    lemma_branch_views(self.children@);
                    assert(moved_up.take(0) =~= Seq::empty());
                    assert(branch_views(self.children@) =~= orig + moved_up.take(0));
                }
                while k < child.children.len()
                    invariant
                        k <= child.children.len(),
                        self.chem == old(self).chem,
                        self.id == old(self).id,
                        moved_up == child@.children,
                        moved_up.len() == child.children@.len(),
                        forall|j: int|
                            0 <= j < moved_up.len() ==> #[trigger] moved_up[j]
                                == child.children@[j]@,
                        branch_views(self.children@) == orig + moved_up.take(k as int),
                    decreases child.children.len() - k,
                {
                    let copy = child.children[k].clone();
                    proof {
                        lemma_branch_views(self.children@);
                        lemma_branch_views(self.children@.push(copy));
                        assert(copy@ == moved_up[k as int]);
                        assert(moved_up.take(k + 1) =~= moved_up.take(k as int).push(
                            moved_up[k as int],
                        ));
                        assert(branch_views(self.children@.push(copy)) =~= branch_views(
                            self.children@,
                        ).push(copy@));
                        assert(branch_views(self.children@.push(copy)) =~= orig + moved_up.take(
                            k + 1,
                        ));
                    }
                    self.children.push(copy);
                    k += 1;
                }
                proof {
                    assert(moved_up.take(k as int) =~= moved_up);
                }
                drop_named(&mut self.children, id);
                proof {
                    self.lemma_view_children();
                }
                true
            },
            None => {
                let mut i: usize = 0;
                while i < self.children.len()
                    invariant
                        i <= self.children.len(),
                        self.chem == old(self).chem,
                        self.id == old(self).id,
                        branch@.id == id,
                        orig == old(self)@.children,
                        last_with_id(orig, id) is None,
                        branch_views(self.children@) == orig,
                        forall|j: int| 0 <= j < i ==> !(#[trigger] orig[j]).dissolved(id).1,
                        self.children@.len() == old(self).children@.len(),
                        forall|j: int|
                            i <= j < self.children@.len() ==> #[trigger] self.children@[j] == old(
                                self,
                            ).children@[j],
                    decreases self.children.len() - i,
                {
                    let ghost before = self.children@;
                    proof {
                        lemma_branch_views(before);
                    }
                    let found = self.children[i].dissolve_branch(branch);
                    proof {
                        lemma_branch_views(self.children@);
                        lemma_dissolved(orig[i as int], id);
                        assert(self.children@ =~= before.update(
                            i as int,
                            self.children@[i as int],
                        ));
                        assert(branch_views(self.children@) =~= orig.update(
                            i as int,
                            orig[i as int].dissolved(id).0,
                        ));
                    }
                    if found {
                        proof {
                            lemma_dissolved_from_skip(orig, id, 0, i as int);
                            self.lemma_view_children();
                        }
                        return true;
                    }
                    proof {
                        assert(orig.update(i as int, orig[i as int]) =~= orig);
                    }
                    i += 1;
                }
                proof {
                    lemma_branch_views(self.children@);
                    lemma_dissolved_from_skip(orig, id, 0, orig.len() as int);
                    self.lemma_view_children();
                }
                false
            },
        }
    }
}

impl Default for ChemTreeBranch {
    /// A single node with the default token and the identifier 0.
    fn default() -> (r: Self)
        ensures
            r@.children.len() == 0,
            r@.id == 0,
            r@.token == crate::chemicals::empty_token(),
    {
        let r = ChemTreeBranch { chem: ChemToken::default(), children: Vec::new(), id: 0 };
        proof {
            r.lemma_view_children();
        }
        r
    }
}

impl Default for ChemTree {
    /// The tree of the default token over a bank of empty reservoirs.
    fn default() -> (r: Self)
        ensures
            r@.initial_state == crate::calculator::reservoir::padded(Seq::empty()),
            r@.root.children.len() == 0,
            r@.root.id == 0,
            r@.root.token == crate::chemicals::empty_token(),
    {
        ChemTree { initial_state: ChemState::default(), root: ChemTreeBranch::default() }
    }
}

/// Resolving the quantities of a tree again, under the same parent, changes nothing.
pub proof fn lemma_concretized_idempotent(b: BranchView, parent: Option<u32>)
    ensures
        b.concretized(parent) matches Ok(once) ==> once.concretized(parent) == Ok::<
            BranchView,
            PlanError,
        >(once),
    decreases b,
{
    if let Ok(once) = b.concretized(parent) {
        crate::chemicals::lemma_resolve_idempotent(b.token, parent);
        let own = once.token.concrete->Some_0;
        lemma_concretized_all_idempotent(b.children, own);
    }
}

/// Resolving the quantities of trees again, under the same parent, changes nothing.
pub proof fn lemma_concretized_all_idempotent(s: Seq<BranchView>, parent: u32)
    ensures
        concretized_all(s, parent) matches Ok(once) ==> once.len() == s.len() && concretized_all(
            once,
            parent,
        ) == Ok::<Seq<BranchView>, PlanError>(once),
    decreases s,
{
    if let Ok(once) = concretized_all(s, parent) {
        if s.len() > 0 {
            let head = concretized_all(s.drop_last(), parent)->Ok_0;
            let last = s.last().concretized(Some(parent))->Ok_0;
            lemma_concretized_all_idempotent(s.drop_last(), parent);
            lemma_concretized_idempotent(s.last(), Some(parent));
            assert(once.drop_last() =~= head);
            assert(once.last() == last);
        } else {
            assert(once =~= Seq::empty());
        }
    }
}

impl BranchView {
    /// Equality of trees: the same identifier, tokens equal in structure, and as many
    /// children, equal position by position.
    pub open spec fn same(self, other: BranchView) -> bool
        decreases self,
    {
        &&& self.id == other.id
        &&& self.token.same(other.token)
        &&& self.children.len() == other.children.len()
        &&& forall|i: int|
            0 <= i < self.children.len() ==> (#[trigger] self.children[i]).same(other.children[i])
    }
}

impl TreeView {
    /// Equality of recipe trees: equal banks and equal roots.
    pub open spec fn same(self, other: TreeView) -> bool {
        crate::calculator::reservoir::same_bank(self.initial_state, other.initial_state)
            && self.root.same(other.root)
    }
}

impl ChemTreeBranch {
    /// Whether the trees are equal: node by node the same identifier and tokens equal
    /// in structure.
    pub fn same_as(&self, other: &ChemTreeBranch) -> (r: bool)
        ensures
            r == self@.same(other@),
        decreases self,
    {
        proof {
            self.lemma_view_children();
            other.lemma_view_children();
        }
        if self.id != other.id || !self.chem.same_as(&other.chem) || self.children.len()
            != other.children.len() {
            return false;
        }
        let mut i: usize = 0;
        while i < self.children.len()
            invariant
                i <= self.children.len(),
                self.children.len() == other.children.len(),
                forall|j: int|
                    0 <= j < i ==> (#[trigger] self.children@[j])@.same(other.children@[j]@),
            decreases self.children.len() - i,
        {
            if !self.children[i].same_as(&other.children[i]) {
                proof {
                    self.lemma_view_children();
                    other.lemma_view_children();
                    assert(!self@.children[i as int].same(other@.children[i as int]));
                }
                return false;
            }
            i += 1;
        }
        proof {
            assert forall|j: int| 0 <= j < self@.children.len() implies (
            #[trigger] self@.children[j]).same(other@.children[j]) by {
                assert(self.children@[j]@.same(other.children@[j]@));
            }
        }
        true
    }
}

impl ChemTree {
    /// Whether the recipe trees have equal banks and equal roots.
    pub fn same_as(&self, other: &ChemTree) -> (r: bool)
        ensures
            r == self@.same(other@),
    {
        self.initial_state.same_as(&other.initial_state) && self.root.same_as(&other.root)
    }
}

impl PartialEq for ChemTreeBranch {
    fn eq(&self, other: &Self) -> (r: bool) {
        self.same_as(other)
    }
}

impl vstd::std_specs::cmp::PartialEqSpecImpl for ChemTreeBranch {
    open spec fn obeys_eq_spec() -> bool {
        true
    }

    open spec fn eq_spec(&self, other: &Self) -> bool {
        self@.same(other@)
    }
}

impl Eq for ChemTreeBranch {

}

impl PartialEq for ChemTree {
    fn eq(&self, other: &Self) -> (r: bool) {
        self.same_as(other)
    }
}

impl vstd::std_specs::cmp::PartialEqSpecImpl for ChemTree {
    open spec fn obeys_eq_spec() -> bool {
        true
    }

    open spec fn eq_spec(&self, other: &Self) -> bool {
        self@.same(other@)
    }
}

impl Eq for ChemTree {

}

} // verus!
