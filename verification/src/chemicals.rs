//! Quantities, compounds and tokens, and the resolver that turns every
//! relative quantity of a recipe into a concrete amount.

use crate::text::{decimal, push_decimal};
use vstd::prelude::*;
use vstd::string::StringExecFns;

verus! {

/// Why resolving, planning or merging was abandoned. Nothing partial is handed out with it.
#[derive(Clone, Copy, Debug, PartialEq, Eq, Structural)]
pub enum PlanError {
    /// An amount does not fit: `needed` units were asked for (saturated at `u64::MAX`).
    CapacityExceeded { needed: u64 },
    /// The bank would need `count` reservoirs.
    TooManyReagents { count: usize },
    /// Every reservoir is occupied where an empty one is needed.
    NoEmptyReservoir,
    /// An absolute quantity met a relative one, or two relative ones differ in
    /// denominator: `left` and `right` cannot be added.
    IncompatibleQuantityUnits { left: NumberToken, right: NumberToken },
    /// A relative quantity has no resolved parent, or a concrete quantity is missing.
    UnresolvedQuantity,
    /// A relative quantity divides by zero.
    ZeroDenominator,
    /// No reservoir holds the compound that a step needs.
    MissingReservoir,
    /// A reservoir holds `have` units where `need` are to be taken from it.
    InsufficientStock { have: u32, need: u32 },
    /// Two tokens of different compounds were to be merged.
    CompoundMismatch,
    /// A tree holds no node of identifier `id`, which a merge goes by.
    MissingNode { id: u32 },
}

/// A fraction of the parent's concrete quantity.
#[derive(Clone, Copy, Debug, PartialEq, Eq, Hash, Structural)]
pub struct NumberOperator {
    pub numerator: u32,
    pub denominator: u32,
}

/// Either a fixed amount or a fraction of the parent's amount.
#[derive(Clone, Copy, Debug, PartialEq, Eq, Hash, Structural)]
pub enum NumberToken {
    Constant(u32),
    Calculated(NumberOperator),
}

/// A quantity of a compound inside a recipe.
#[derive(Debug)]
pub struct ChemToken {
    pub quantity: NumberToken,
    pub chemical: Chemical,
    pub priority: u32,
    pub concrete_quantity: Option<u32>,
}

/// A named base reagent, or an unnamed mixture of tokens.
#[derive(Debug)]
pub struct Chemical {
    pub name: Option<String>,
    pub chemicals: Vec<ChemToken>,
    pub temp: Option<u32>,
}

/// The mathematical value of a [`ChemToken`].
pub struct TokenView {
    pub quantity: NumberToken,
    pub compound: CompoundView,
    pub priority: u32,
    pub concrete: Option<u32>,
}

/// The mathematical value of a [`Chemical`].
pub struct CompoundView {
    pub name: Option<Seq<char>>,
    pub parts: Seq<TokenView>,
    pub temp: Option<u32>,
}

/// Ceiling of `a / b` over the mathematical integers (for `b > 0`).
pub open spec fn ceil_div(a: int, b: int) -> int {
    (a + b - 1) / b
}

/// The views of a sequence of tokens.
pub open spec fn token_views(s: Seq<ChemToken>) -> Seq<TokenView>
    decreases s,
{
    Seq::new(
        s.len(),
        |i: int|
            if 0 <= i < s.len() {
                s[i].view()
            } else {
                arbitrary()
            },
    )
}

impl View for ChemToken {
    type V = TokenView;

    open spec fn view(&self) -> TokenView
        decreases self,
    {
        TokenView {
            quantity: self.quantity,
            compound: self.chemical.view(),
            priority: self.priority,
            concrete: self.concrete_quantity,
        }
    }
}

impl View for Chemical {
    type V = CompoundView;

    open spec fn view(&self) -> CompoundView
        decreases self,
    {
        CompoundView {
            name: match self.name {
                Some(s) => Some(s@),
                None => None,
            },
            parts: token_views(self.chemicals@),
            temp: self.temp,
        }
    }
}

impl CompoundView {
    /// What identifies a compound: its name and its parts, each by quantity and compound.
    /// Temperatures, priorities and concrete quantities are left out.
    pub open spec fn shape(self) -> CompoundView
        decreases self,
    {
        CompoundView {
            name: self.name,
            parts: Seq::new(
                self.parts.len(),
                |i: int|
                    if 0 <= i < self.parts.len() {
                        self.parts[i].shape()
                    } else {
                        arbitrary()
                    },
            ),
            temp: None,
        }
    }

    /// Structural equality of compounds.
    pub open spec fn same(self, other: CompoundView) -> bool {
        self.shape() == other.shape()
    }
}

impl TokenView {
    /// The token with everything left out that does not identify it.
    pub open spec fn shape(self) -> TokenView
        decreases self,
    {
        TokenView {
            quantity: self.quantity,
            compound: self.compound.shape(),
            priority: 0,
            concrete: None,
        }
    }

    /// Structural equality of tokens: same quantity of the same compound.
    pub open spec fn same(self, other: TokenView) -> bool {
        self.shape() == other.shape()
    }
}

/// `token_views` keeps the length.
pub proof fn lemma_token_views_len(s: Seq<ChemToken>)
    ensures
        token_views(s).len() == s.len(),
{
}

/// `token_views` takes the view position by position.
pub proof fn lemma_token_views_index(s: Seq<ChemToken>, i: int)
    requires
        0 <= i < s.len(),
    ensures
        token_views(s)[i] == s[i]@,
{
}

/// Two sequences of tokens agree in shape exactly if they agree position by position.
pub proof fn lemma_same_parts(a: CompoundView, b: CompoundView)
    ensures
        a.same(b) <==> (a.name == b.name && a.parts.len() == b.parts.len() && forall|i: int|
            0 <= i < a.parts.len() ==> (#[trigger] a.parts[i]).same(b.parts[i])),
{
    let sa = a.shape();
    let sb = b.shape();
    if a.name == b.name && a.parts.len() == b.parts.len() && forall|i: int|
        0 <= i < a.parts.len() ==> (#[trigger] a.parts[i]).same(b.parts[i]) {
        assert(sa.parts =~= sb.parts);
    }
    if a.same(b) {
        assert(sa.parts.len() == sb.parts.len());
        assert forall|i: int| 0 <= i < a.parts.len() implies (#[trigger] a.parts[i]).same(
            b.parts[i],
        ) by {
            assert(sa.parts[i] == sb.parts[i]);
        }
    }
}

impl Clone for ChemToken {
    fn clone(&self) -> (r: Self)
        ensures
            r@ == self@,
        decreases self,
    {
        ChemToken {
            quantity: self.quantity,
            chemical: self.chemical.clone(),
            priority: self.priority,
            concrete_quantity: self.concrete_quantity,
        }
    }
}

impl Clone for Chemical {
    fn clone(&self) -> (r: Self)
        ensures
            r@ == self@,
        decreases self,
    {
        let mut parts: Vec<ChemToken> = Vec::new();
        let mut i: usize = 0;
        while i < self.chemicals.len()
            invariant
                i <= self.chemicals.len(),
                parts@.len() == i,
                forall|j: int| 0 <= j < i ==> (#[trigger] parts@[j])@ == self.chemicals@[j]@,
            decreases self.chemicals.len() - i,
        {
            let part = self.chemicals[i].clone();
            parts.push(part);
            i += 1;
        }
        let name = match &self.name {
            Some(s) => Some(s.clone()),
            None => None,
        };
        assert(token_views(parts@) =~= token_views(self.chemicals@));
        Chemical { name, chemicals: parts, temp: self.temp }
    }
}

impl Chemical {
    /// The parts of the view are the views of the parts.
    pub proof fn lemma_view_parts(&self)
        ensures
            self@.parts.len() == self.chemicals@.len(),
            forall|i: int|
                0 <= i < self.chemicals@.len() ==> #[trigger] self@.parts[i]
                    == self.chemicals@[i]@,
    {
        assert(self@.parts == token_views(self.chemicals@));
        lemma_token_views_len(self.chemicals@);
        assert(token_views(self.chemicals@).len() == self.chemicals@.len());
        assert forall|i: int| 0 <= i < self.chemicals@.len() implies #[trigger] self@.parts[i]
            == self.chemicals@[i]@ by {
            lemma_token_views_index(self.chemicals@, i);
        }
    }

    /// Structural equality: the same name and the same parts. The temperature does not count.
    pub fn same_as(&self, other: &Chemical) -> (r: bool)
        ensures
            r == self@.same(other@),
        decreases self,
    {
        proof {
            lemma_same_parts(self@, other@);
            self.lemma_view_parts();
            other.lemma_view_parts();
        }
        let names = match (&self.name, &other.name) {
            (Some(a), Some(b)) => *a == *b,
            (None, None) => true,
            _ => false,
        };
        if !names || self.chemicals.len() != other.chemicals.len() {
            return false;
        }
        let mut i: usize = 0;
        while i < self.chemicals.len()
            invariant
                i <= self.chemicals.len(),
                self.chemicals.len() == other.chemicals.len(),
                forall|j: int|
                    0 <= j < i ==> (#[trigger] self.chemicals@[j])@.same(other.chemicals@[j]@),
            decreases self.chemicals.len() - i,
        {
            if !self.chemicals[i].same_as(&other.chemicals[i]) {
                proof {
                    lemma_same_parts(self@, other@);
                    self.lemma_view_parts();
                    other.lemma_view_parts();
                    assert(!self@.parts[i as int].same(other@.parts[i as int]));
                }
                return false;
            }
            i += 1;
        }
        assert forall|j: int| 0 <= j < self@.parts.len() implies (#[trigger] self@.parts[j]).same(
            other@.parts[j],
        ) by {
            assert(self.chemicals@[j]@.same(other.chemicals@[j]@));
        }
        true
    }
}

impl ChemToken {
    /// Structural equality: the same quantity of the same compound. Priority and
    /// concrete quantity do not count.
    pub fn same_as(&self, other: &ChemToken) -> (r: bool)
        ensures
            r == self@.same(other@),
        decreases self,
    {
        let q = self.quantity == other.quantity;
        let c = self.chemical.same_as(&other.chemical);
        q && c
    }
}

impl NumberOperator {
    pub fn new(numerator: u32, denominator: u32) -> (op: NumberOperator)
        ensures
            op == (NumberOperator { numerator, denominator }),
    {
        NumberOperator { numerator, denominator }
    }
}

/// `ceil_div(a, b)` is the least integer whose product with `b` reaches `a`.
pub proof fn lemma_ceil_div_is_ceiling(a: int, b: int)
    requires
        a >= 0,
        b > 0,
    ensures
        ceil_div(a, b) * b >= a,
        (ceil_div(a, b) - 1) * b < a,
        0 <= ceil_div(a, b) <= a,
{
    let q = ceil_div(a, b);
    assert(q * b >= a && (q - 1) * b < a && 0 <= q <= a) by (nonlinear_arith)
        requires
            a >= 0,
            b > 0,
            q == (a + b - 1) / b,
    ;
}

/// Divides rounding up.
pub fn div_up(a: u32, b: u32) -> (q: u32)
    requires
        b > 0,
    ensures
        q == ceil_div(a as int, b as int),
{
    proof {
        lemma_ceil_div_is_ceiling(a as int, b as int);
    }
    let wide: u64 = (a as u64 + (b as u64 - 1)) / (b as u64);
    wide as u32
}

/// The concrete amount that a quantity stands for under a parent's concrete amount.
pub open spec fn resolve_quantity(q: NumberToken, parent: Option<u32>) -> Result<u32, PlanError> {
    match q {
        NumberToken::Constant(v) => Ok(v),
        NumberToken::Calculated(op) => match parent {
            None => Err(PlanError::UnresolvedQuantity),
            Some(p) => {
                let amount = ceil_div(p * op.numerator, op.denominator as int);
                if op.denominator == 0 {
                    Err(PlanError::ZeroDenominator)
                } else if amount > u32::MAX {
                    Err(PlanError::CapacityExceeded { needed: amount as u64 })
                } else {
                    Ok(amount as u32)
                }
            },
        },
    }
}

/// A quantity as it is written in a recipe: a fixed amount in decimal digits, a
/// fraction as `$`, the numerator, `/` and the denominator.
pub open spec fn quantity_text(q: NumberToken) -> Seq<char> {
    match q {
        NumberToken::Constant(v) => decimal(v as nat),
        NumberToken::Calculated(op) => seq!['$'] + decimal(op.numerator as nat) + seq!['/']
            + decimal(op.denominator as nat),
    }
}

impl NumberToken {
    /// Resolves the quantity against the parent's concrete amount: a constant is itself,
    /// a fraction `n/d` of parent `p` is `ceil(p * n / d)`.
    pub fn calculate(&self, parent_value: Option<u32>) -> (r: Result<u32, PlanError>)
        ensures
            r == resolve_quantity(*self, parent_value),
    {
        match self {
            NumberToken::Constant(val) => Ok(*val),
            NumberToken::Calculated(operator) => {
                match parent_value {
                    None => Err(PlanError::UnresolvedQuantity),
                    Some(p) => {
                        if operator.denominator == 0 {
                            return Err(PlanError::ZeroDenominator);
                        }
                        let n: u64 = operator.numerator as u64;
                        let d: u64 = operator.denominator as u64;
                        assert(p * n <= 0xffff_ffff * 0xffff_ffff) by (nonlinear_arith)
                            requires
                                0 <= p <= 0xffff_ffff,
                                0 <= n <= 0xffff_ffff,
                        ;
                        let product: u64 = p as u64 * n;
                        let amount: u64 = (product + (d - 1)) / d;
                        if amount > u32::MAX as u64 {
                            Err(PlanError::CapacityExceeded { needed: amount })
                        } else {
                            Ok(amount as u32)
                        }
                    },
                }
            },
        }
    }

    /// The quantity as it is written in a recipe.
    pub fn as_text(&self) -> (text: String)
        ensures
            text@ == quantity_text(*self),
    {
        let mut text = String::new();
        match self {
            NumberToken::Constant(val) => {
                push_decimal(&mut text, *val as u64);
            },
            NumberToken::Calculated(operator) => {
                proof {
                    reveal_strlit("$");
                    reveal_strlit("/");
                }
                text.append("$");
                push_decimal(&mut text, operator.numerator as u64);
                text.append("/");
                push_decimal(&mut text, operator.denominator as u64);
            },
        }
        assert(text@ =~= quantity_text(*self));
        text
    }

    pub fn is_constant(&self) -> (r: bool)
        ensures
            r == (*self is Constant),
    {
        match self {
            NumberToken::Constant(_) => true,
            _ => false,
        }
    }
}

impl Default for NumberToken {
    fn default() -> (r: Self)
        ensures
            r == NumberToken::Constant(0),
    {
        NumberToken::Constant(0)
    }
}

/// The token with every concrete quantity set from the top down: its own from its
/// quantity and `parent`, those of its parts from its own. The first quantity that
/// cannot be resolved fails the whole.
pub open spec fn resolve_token(t: TokenView, parent: Option<u32>) -> Result<TokenView, PlanError>
    decreases t,
{
    match resolve_quantity(t.quantity, parent) {
        Err(e) => Err(e),
        Ok(own) => match resolve_parts(t.compound.parts, own) {
            Err(e) => Err(e),
            Ok(parts) => Ok(
                TokenView {
                    quantity: t.quantity,
                    compound: CompoundView { name: t.compound.name, parts, temp: t.compound.temp },
                    priority: t.priority,
                    concrete: Some(own),
                },
            ),
        },
    }
}

/// Each of `parts` resolved against the concrete amount `parent`.
pub open spec fn resolve_parts(parts: Seq<TokenView>, parent: u32) -> Result<
    Seq<TokenView>,
    PlanError,
>
    decreases parts,
{
    if parts.len() == 0 {
        Ok(Seq::empty())
    } else {
        match resolve_parts(parts.drop_last(), parent) {
            Err(e) => Err(e),
            Ok(head) => match resolve_token(parts.last(), Some(parent)) {
                Err(e) => Err(e),
                Ok(t) => Ok(head.push(t)),
            },
        }
    }
}

/// The sum of the concrete quantities of `parts`, an unresolved one counting as 0.
pub open spec fn parts_total(parts: Seq<TokenView>) -> int
    decreases parts.len(),
{
    if parts.len() == 0 {
        0
    } else {
        parts_total(parts.drop_last()) + match parts.last().concrete {
            Some(c) => c as int,
            None => 0,
        }
    }
}

/// Every one of `parts` has its concrete quantity.
pub open spec fn parts_resolved(parts: Seq<TokenView>) -> bool {
    forall|i: int| 0 <= i < parts.len() ==> (#[trigger] parts[i]).concrete is Some
}

/// `n` as a `u64`, or `u64::MAX` where it does not fit.
pub open spec fn saturated(n: int) -> u64 {
    if n > u64::MAX {
        u64::MAX
    } else {
        n as u64
    }
}

impl TokenView {
    /// The units that the token takes up in a reservoir: its own concrete quantity where
    /// it has no parts, else the sum of the concrete quantities of its parts.
    pub open spec fn size(self) -> Result<u32, PlanError> {
        if self.compound.parts.len() == 0 {
            match self.concrete {
                Some(c) => Ok(c),
                None => Err(PlanError::UnresolvedQuantity),
            }
        } else if !parts_resolved(self.compound.parts) {
            Err(PlanError::UnresolvedQuantity)
        } else if parts_total(self.compound.parts) > u32::MAX {
            Err(PlanError::CapacityExceeded { needed: saturated(parts_total(self.compound.parts)) })
        } else {
            Ok(parts_total(self.compound.parts) as u32)
        }
    }

    /// The token with the concrete quantities of its parts cleared.
    pub open spec fn with_parts_abstract(self) -> TokenView {
        TokenView {
            quantity: self.quantity,
            compound: CompoundView {
                name: self.compound.name,
                parts: Seq::new(
                    self.compound.parts.len(),
                    |i: int|
                        TokenView {
                            quantity: self.compound.parts[i].quantity,
                            compound: self.compound.parts[i].compound,
                            priority: self.compound.parts[i].priority,
                            concrete: None,
                        },
                ),
                temp: self.compound.temp,
            },
            priority: self.priority,
            concrete: self.concrete,
        }
    }
}

/// The sum of two quantities of one kind.
pub open spec fn combined_quantity(a: NumberToken, b: NumberToken) -> Result<
    NumberToken,
    PlanError,
> {
    match (a, b) {
        (NumberToken::Constant(x), NumberToken::Constant(y)) => if x + y > u32::MAX {
            Err(PlanError::CapacityExceeded { needed: (x + y) as u64 })
        } else {
            Ok(NumberToken::Constant((x + y) as u32))
        },
        (NumberToken::Calculated(p), NumberToken::Calculated(q)) => if p.denominator
            != q.denominator {
            Err(PlanError::IncompatibleQuantityUnits { left: a, right: b })
        } else if p.numerator + q.numerator > u32::MAX {
            Err(PlanError::CapacityExceeded { needed: (p.numerator + q.numerator) as u64 })
        } else {
            Ok(
                NumberToken::Calculated(
                    NumberOperator {
                        numerator: (p.numerator + q.numerator) as u32,
                        denominator: p.denominator,
                    },
                ),
            )
        },
        _ => Err(PlanError::IncompatibleQuantityUnits { left: a, right: b }),
    }
}

/// Token `a` after token `b` of the same compound was merged into it. The merged
/// token has to be resolved anew.
pub open spec fn combined(a: TokenView, b: TokenView) -> Result<TokenView, PlanError> {
    if !a.compound.same(b.compound) {
        Err(PlanError::CompoundMismatch)
    } else {
        match combined_quantity(a.quantity, b.quantity) {
            Err(e) => Err(e),
            Ok(q) => Ok(
                TokenView { quantity: q, compound: a.compound, priority: a.priority, concrete: None },
            ),
        }
    }
}

impl ChemToken {
    /// A copy of the token with every concrete quantity resolved, top down.
    pub fn resolved(&self, parent: Option<u32>) -> (r: Result<ChemToken, PlanError>)
        ensures
            match resolve_token(self@, parent) {
                Ok(t) => r is Ok && r->Ok_0@ == t,
                Err(e) => r == Err::<ChemToken, PlanError>(e),
            },
        decreases self,
    {
        let own = match self.quantity.calculate(parent) {
            Ok(own) => own,
            Err(e) => { return Err(e); },
        };
        proof {
            self.chemical.lemma_view_parts();
        }
        let ghost src = self@.compound.parts;
        let mut parts: Vec<ChemToken> = Vec::new();
        let mut i: usize = 0;
        proof {
            lemma_token_views_len(parts@);
            assert(token_views(parts@) =~= Seq::empty());
        }
        while i < self.chemical.chemicals.len()
            invariant
                i <= self.chemical.chemicals.len(),
                src == self@.compound.parts,
                resolve_quantity(self@.quantity, parent) == Ok::<u32, PlanError>(own),
                src.len() == self.chemical.chemicals.len(),
                forall|j: int| 0 <= j < src.len() ==> #[trigger] src[j] == self.chemical.chemicals@[j]@,
                resolve_parts(src.take(i as int), own) == Ok::<Seq<TokenView>, PlanError>(
                    token_views(parts@),
                ),
            decreases self.chemical.chemicals.len() - i,
        {
            let ghost head = src.take(i as int);
            let ghost next = src.take(i + 1);
            proof {
                assert(next.drop_last() =~= head);
                assert(next.last() == src[i as int]);
            }
            match self.chemical.chemicals[i].resolved(Some(own)) {
                Ok(part) => {
                    proof {
                        lemma_token_views_len(parts@);
                        lemma_token_views_len(parts@.push(part));
                        assert forall|j: int| 0 <= j < parts@.len() + 1 implies token_views(
                            parts@.push(part),
                        )[j] == token_views(parts@).push(part@)[j] by {
                            lemma_token_views_index(parts@.push(part), j);
                            if j < parts@.len() {
                                lemma_token_views_index(parts@, j);
                            }
                        }
                        assert(token_views(parts@.push(part)) =~= token_views(parts@).push(part@));
                    }
                    parts.push(part);
                },
                Err(e) => {
                    proof {
                        assert(resolve_parts(next, own) == Err::<Seq<TokenView>, PlanError>(e));
                        lemma_resolve_parts_prefix_err(src, own, i + 1);
                    }
                    return Err(e);
                },
            }
            i += 1;
        }
        assert(src.take(i as int) =~= src);
        let name = match &self.chemical.name {
            Some(s) => Some(s.clone()),
            None => None,
        };
        Ok(
            ChemToken {
                quantity: self.quantity,
                chemical: Chemical { name, chemicals: parts, temp: self.chemical.temp },
                priority: self.priority,
                concrete_quantity: Some(own),
            },
        )
    }

    /// Sets the concrete quantity of the token and of everything below it, the token's own
    /// against `parent_quantity`. On failure the token is left as it was.
    pub fn set_concrete_quantity(&mut self, parent_quantity: u32) -> (r: Result<(), PlanError>)
        ensures
            match resolve_token(old(self)@, Some(parent_quantity)) {
                Ok(t) => r is Ok && final(self)@ == t,
                Err(e) => r == Err::<(), PlanError>(e) && final(self)@ == old(self)@,
            },
    {
        match self.resolved(Some(parent_quantity)) {
            Ok(t) => {
                *self = t;
                Ok(())
            },
            Err(e) => Err(e),
        }
    }
}

/// Once a prefix of the parts fails to resolve, so does the whole, with the same error.
pub proof fn lemma_resolve_parts_prefix_err(parts: Seq<TokenView>, parent: u32, n: int)
    requires
        0 <= n <= parts.len(),
        resolve_parts(parts.take(n), parent) is Err,
    ensures
        resolve_parts(parts, parent) == resolve_parts(parts.take(n), parent),
    decreases parts.len() - n,
{
    if n < parts.len() {
        assert(parts.take(n + 1).drop_last() =~= parts.take(n));
        lemma_resolve_parts_prefix_err(parts, parent, n + 1);
    } else {
        assert(parts.take(n) =~= parts);
    }
}

/// A sum of concrete quantities is never negative and grows with the sequence.
pub proof fn lemma_parts_total_step(parts: Seq<TokenView>, n: int)
    requires
        0 <= n < parts.len(),
    ensures
        parts_total(parts.take(n)) >= 0,
        parts_total(parts.take(n + 1)) == parts_total(parts.take(n)) + match parts[n].concrete {
            Some(c) => c as int,
            None => 0,
        },
    decreases n,
{
    assert(parts.take(n + 1).drop_last() =~= parts.take(n));
    if n > 0 {
        lemma_parts_total_step(parts, n - 1);
    }
}

impl ChemToken {
    /// The units that the token takes up in a reservoir.
    pub fn size(&self) -> (r: Result<u32, PlanError>)
        ensures
            r == self@.size(),
    {
        proof {
            self.chemical.lemma_view_parts();
        }
        let n = self.chemical.chemicals.len();
        if n == 0 {
            return match self.concrete_quantity {
                Some(c) => Ok(c),
                None => Err(PlanError::UnresolvedQuantity),
            };
        }
        let ghost parts = self@.compound.parts;
        let mut i: usize = 0;
        while i < n
            invariant
                i <= n,
                n == self.chemical.chemicals.len(),
                parts == self@.compound.parts,
                parts.len() == n,
                forall|j: int| 0 <= j < n ==> #[trigger] parts[j] == self.chemical.chemicals@[j]@,
                forall|j: int| 0 <= j < i ==> (#[trigger] parts[j]).concrete is Some,
            decreases n - i,
        {
            if self.chemical.chemicals[i].concrete_quantity.is_none() {
                assert(parts[i as int].concrete is None);
                return Err(PlanError::UnresolvedQuantity);
            }
            i += 1;
        }
        let mut total: u64 = 0;
        i = 0;
        while i < n
            invariant
                i <= n,
                n == self.chemical.chemicals.len(),
                parts.len() == n,
                forall|j: int| 0 <= j < n ==> #[trigger] parts[j] == self.chemical.chemicals@[j]@,
                parts_total(parts.take(i as int)) >= 0,
                total == saturated(parts_total(parts.take(i as int))),
            decreases n - i,
        {
            proof {
                lemma_parts_total_step(parts, i as int);
                if i + 1 < n {
                    lemma_parts_total_step(parts, i + 1);
                }
            }
            let c: u64 = match self.chemical.chemicals[i].concrete_quantity {
                Some(c) => c as u64,
                None => 0,
            };
            if total > u64::MAX - c {
                total = u64::MAX;
            } else {
                total = total + c;
            }
            i += 1;
        }
        assert(parts.take(n as int) =~= parts);
        if total > u32::MAX as u64 {
            Err(PlanError::CapacityExceeded { needed: total })
        } else {
            Ok(total as u32)
        }
    }

    /// Whether `other` may be merged into this token as far as compound and kind of
    /// quantity go.
    pub fn combinable(&self, other: &ChemToken) -> (r: bool)
        ensures
            r == (self@.compound.same(other@.compound) && (self@.quantity is Constant
                <==> other@.quantity is Constant)),
    {
        self.chemical.same_as(&other.chemical) && self.quantity.is_constant()
            == other.quantity.is_constant()
    }

    /// Merges `other` into this token: absolute quantities add up, and so do the
    /// numerators of fractions with one denominator. On failure the token is left as it was.
    pub fn combine(&mut self, other: &ChemToken) -> (r: Result<(), PlanError>)
        ensures
            match combined(old(self)@, other@) {
                Ok(t) => r is Ok && final(self)@ == t,
                Err(e) => r == Err::<(), PlanError>(e) && final(self)@ == old(self)@,
            },
    {
        if !self.chemical.same_as(&other.chemical) {
            return Err(PlanError::CompoundMismatch);
        }
        let quantity = match (self.quantity, other.quantity) {
            (NumberToken::Constant(x), NumberToken::Constant(y)) => {
                let sum: u64 = x as u64 + y as u64;
                if sum > u32::MAX as u64 {
                    return Err(PlanError::CapacityExceeded { needed: sum });
                }
                NumberToken::Constant(sum as u32)
            },
            (NumberToken::Calculated(p), NumberToken::Calculated(q)) => {
                if p.denominator != q.denominator {
                    return Err(
                        PlanError::IncompatibleQuantityUnits {
                            left: self.quantity,
                            right: other.quantity,
                        },
                    );
                }
                let sum: u64 = p.numerator as u64 + q.numerator as u64;
                if sum > u32::MAX as u64 {
                    return Err(PlanError::CapacityExceeded { needed: sum });
                }
                NumberToken::Calculated(
                    NumberOperator { numerator: sum as u32, denominator: p.denominator },
                )
            },
            _ => {
                return Err(
                    PlanError::IncompatibleQuantityUnits {
                        left: self.quantity,
                        right: other.quantity,
                    },
                );
            },
        };
        self.quantity = quantity;
        self.concrete_quantity = None;
        Ok(())
    }

    /// Clears the concrete quantities of the parts: they no longer follow from the
    /// token's own once that was changed.
    pub fn set_children_abstract(&mut self)
        ensures
            final(self)@ == old(self)@.with_parts_abstract(),
    {
        proof {
            self.chemical.lemma_view_parts();
        }
        let n = self.chemical.chemicals.len();
        let mut i: usize = 0;
        while i < n
            invariant
                i <= n,
                n == self.chemical.chemicals.len(),
                n == old(self).chemical.chemicals.len(),
                self.quantity == old(self).quantity,
                self.priority == old(self).priority,
                self.concrete_quantity == old(self).concrete_quantity,
                self.chemical.name == old(self).chemical.name,
                self.chemical.temp == old(self).chemical.temp,
                forall|j: int|
                    0 <= j < i ==> (#[trigger] self.chemical.chemicals@[j])@ == (TokenView {
                        quantity: old(self).chemical.chemicals@[j]@.quantity,
                        compound: old(self).chemical.chemicals@[j]@.compound,
                        priority: old(self).chemical.chemicals@[j]@.priority,
                        concrete: None,
                    }),
                forall|j: int|
                    i <= j < n ==> #[trigger] self.chemical.chemicals@[j] == old(
                        self,
                    ).chemical.chemicals@[j],
            decreases n - i,
        {
            self.chemical.chemicals[i].concrete_quantity = None;
            i += 1;
        }
        proof {
            self.chemical.lemma_view_parts();
            old(self).chemical.lemma_view_parts();
            assert(self@.compound.parts =~= old(self)@.with_parts_abstract().compound.parts);
        }
    }
}

/// The compound without name, parts and temperature.
pub open spec fn empty_compound() -> CompoundView {
    CompoundView { name: None, parts: Seq::empty(), temp: None }
}

/// The token of nothing: the absolute quantity 0 of the empty compound.
pub open spec fn empty_token() -> TokenView {
    TokenView {
        quantity: NumberToken::Constant(0),
        compound: empty_compound(),
        priority: 0,
        concrete: None,
    }
}

impl Default for Chemical {
    fn default() -> (r: Self)
        ensures
            r@ == empty_compound(),
    {
        let r = Chemical { name: None, chemicals: Vec::new(), temp: None };
        proof {
            lemma_token_views_len(r.chemicals@);
            assert(r@.parts =~= Seq::empty());
        }
        r
    }
}

impl Default for ChemToken {
    fn default() -> (r: Self)
        ensures
            r@ == empty_token(),
    {
        ChemToken {
            quantity: NumberToken::Constant(0),
            chemical: Chemical::default(),
            priority: 0,
            concrete_quantity: None,
        }
    }
}

impl PartialEq for Chemical {
    fn eq(&self, other: &Self) -> (r: bool) {
        self.same_as(other)
    }
}

impl vstd::std_specs::cmp::PartialEqSpecImpl for Chemical {
    open spec fn obeys_eq_spec() -> bool {
        true
    }

    open spec fn eq_spec(&self, other: &Self) -> bool {
        self@.same(other@)
    }
}

impl PartialEq for ChemToken {
    fn eq(&self, other: &Self) -> (r: bool) {
        self.same_as(other)
    }
}

impl vstd::std_specs::cmp::PartialEqSpecImpl for ChemToken {
    open spec fn obeys_eq_spec() -> bool {
        true
    }

    open spec fn eq_spec(&self, other: &Self) -> bool {
        self@.same(other@)
    }
}

/// Resolving a resolved token again, against the same parent, changes nothing.
pub proof fn lemma_resolve_idempotent(t: TokenView, parent: Option<u32>)
    ensures
        resolve_token(t, parent) matches Ok(once) ==> resolve_token(once, parent) == Ok::<
            TokenView,
            PlanError,
        >(once),
    decreases t,
{
    if let Ok(once) = resolve_token(t, parent) {
        let own = resolve_quantity(t.quantity, parent)->Ok_0;
        lemma_resolve_parts_idempotent(t.compound.parts, own);
    }
}

/// Resolving resolved parts again, against the same parent, changes nothing.
pub proof fn lemma_resolve_parts_idempotent(parts: Seq<TokenView>, parent: u32)
    ensures
        resolve_parts(parts, parent) matches Ok(once) ==> once.len() == parts.len()
            && resolve_parts(once, parent) == Ok::<Seq<TokenView>, PlanError>(once),
    decreases parts,
{
    if let Ok(once) = resolve_parts(parts, parent) {
        if parts.len() > 0 {
            let head = resolve_parts(parts.drop_last(), parent)->Ok_0;
            let last = resolve_token(parts.last(), Some(parent))->Ok_0;
            lemma_resolve_parts_idempotent(parts.drop_last(), parent);
            lemma_resolve_idempotent(parts.last(), Some(parent));
            assert(once.drop_last() =~= head);
            assert(once.last() == last);
        } else {
            assert(once =~= Seq::empty());
        }
    }
}

/// A fraction `n/d` of a parent amount `p` resolves to the least integer `c` with
/// `c * d >= p * n`, that is to `ceil(p * n / d)`.
pub proof fn lemma_fraction_resolves_to_ceiling(n: u32, d: u32, p: u32)
    requires
        d > 0,
    ensures
        resolve_quantity(
            NumberToken::Calculated(NumberOperator { numerator: n, denominator: d }),
            Some(p),
        ) matches Ok(c) ==> c * d >= p * n && (c - 1) * d < p * n,
        resolve_quantity(
            NumberToken::Calculated(NumberOperator { numerator: n, denominator: d }),
            Some(p),
        ) is Err <==> ceil_div(p * n, d as int) > u32::MAX,
{
    assert(p * n >= 0) by (nonlinear_arith)
        requires
            p >= 0,
            n >= 0,
    ;
    lemma_ceil_div_is_ceiling(p * n, d as int);
}

impl Eq for Chemical {

}

impl Eq for ChemToken {

}

/// Two sequences of tokens are equal in structure, position by position.
pub open spec fn same_tokens(a: Seq<TokenView>, b: Seq<TokenView>) -> bool {
    &&& a.len() == b.len()
    &&& forall|i: int| 0 <= i < a.len() ==> (#[trigger] a[i]).same(b[i])
}

/// Whether the tokens of `a` and `b` are equal in structure, position by position.
pub fn tokens_same(a: &Vec<ChemToken>, b: &Vec<ChemToken>) -> (r: bool)
    ensures
        r == same_tokens(token_views(a@), token_views(b@)),
{
    proof {
        lemma_token_views_len(a@);
        lemma_token_views_len(b@);
    }
    if a.len() != b.len() {
        return false;
    }
    let mut i: usize = 0;
    while i < a.len()
        invariant
            i <= a.len(),
            a.len() == b.len(),
            forall|j: int| 0 <= j < i ==> (#[trigger] a@[j])@.same(b@[j]@),
        decreases a.len() - i,
    {
        if !a[i].same_as(&b[i]) {
            proof {
                lemma_token_views_len(a@);
                lemma_token_views_len(b@);
                lemma_token_views_index(a@, i as int);
                lemma_token_views_index(b@, i as int);
                assert(!token_views(a@)[i as int].same(token_views(b@)[i as int]));
            }
            return false;
        }
        i += 1;
    }
    proof {
        assert forall|j: int| 0 <= j < token_views(a@).len() implies (#[trigger] token_views(
            a@,
        )[j]).same(token_views(b@)[j]) by {
            lemma_token_views_index(a@, j);
            lemma_token_views_index(b@, j);
            assert(a@[j]@.same(b@[j]@));
        }
    }
    true
}

} // verus!
