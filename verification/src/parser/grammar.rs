//! The recursive part of the notation: compounds in brackets, premade recipes, and
//! the recipe as a whole.

use crate::chemicals::{
    lemma_token_views_index, lemma_token_views_len, token_views, ChemToken, Chemical,
    CompoundView, NumberToken, TokenView,
};
use crate::parser::lexical::{
    amount_at, assert_token, expect_at, failure, name_end, number_at, parse_amount, parse_name,
    parse_number, parse_priority, priority_at, to_upper, upper, ParseError, ParseReason,
};
use crate::seqs::{first_index, lemma_first_index_is, lemma_first_index_none};
use vstd::prelude::*;
use vstd::string::StrSliceExecFns;
use vstd::string::StringExecFns;

verus! {

/// A premade recipe: a name in capitals, and the compound that it stands for in the
/// recipe notation.
#[derive(Debug)]
pub struct Substitution {
    pub name: String,
    pub formula: String,
}

/// The mathematical value of a [`Substitution`].
pub struct SubstitutionView {
    pub name: Seq<char>,
    pub formula: Seq<char>,
}

impl View for Substitution {
    type V = SubstitutionView;

    open spec fn view(&self) -> SubstitutionView {
        SubstitutionView { name: self.name@, formula: self.formula@ }
    }
}

/// The views of a table of premade recipes.
pub open spec fn substitution_views(s: Seq<Substitution>) -> Seq<SubstitutionView> {
    s.map_values(|e: Substitution| e@)
}

/// A text in capitals.
pub open spec fn uppercase(s: Seq<char>) -> Seq<char> {
    Seq::new(s.len(), |i: int| upper(s[i]))
}

/// Having the name `name`, as a predicate on premade recipes.
pub open spec fn named(name: Seq<char>) -> spec_fn(SubstitutionView) -> bool {
    |e: SubstitutionView| e.name == name
}

/// The formula of the first premade recipe whose name is `name` in capitals.
pub open spec fn formula_of(subs: Seq<SubstitutionView>, name: Seq<char>) -> Option<Seq<char>> {
    match first_index(subs, named(uppercase(name))) {
        Some(i) => Some(subs[i].formula),
        None => None,
    }
}

/// What `head` and then the tokens of `r` give, where `r` gives any.
pub open spec fn prepended(
    head: Seq<TokenView>,
    r: Result<(Seq<TokenView>, int), ParseError>,
) -> Result<(Seq<TokenView>, int), ParseError> {
    match r {
        Err(e) => Err(e),
        Ok((rest, close)) => Ok((head + rest, close)),
    }
}

/// The temperature that may stand at position `i`: `@`, a fixed amount and `;`.
pub open spec fn temperature_at(s: Seq<char>, i: int) -> Result<(Option<u32>, int), ParseError> {
    if 0 <= i < s.len() && s[i] == '@' {
        match amount_at(s, i + 1) {
            Err(e) => Err(e),
            Ok((v, to)) => match expect_at(s, to, ';') {
                Err(e) => Err(e),
                Ok(next) => Ok((Some(v), next)),
            },
        }
    } else {
        Ok((None, i))
    }
}

/// The base reagent of quantity `q` whose name starts at position `k`.
pub open spec fn base_at(s: Seq<char>, k: int, q: NumberToken) -> Result<
    (TokenView, int),
    ParseError,
> {
    match name_end(s, k) {
        Err(e) => Err(e),
        Ok(end) => match priority_at(s, end + 1) {
            Err(e) => Err(e),
            Ok((priority, next)) => Ok(
                (
                    TokenView {
                        quantity: q,
                        compound: CompoundView {
                            name: Some(s.subrange(k, end)),
                            parts: Seq::empty(),
                            temp: None,
                        },
                        priority,
                        concrete: None,
                    },
                    next,
                ),
            ),
        },
    }
}

/// The recipes from position `j` up to the closing bracket, and where that stands.
pub open spec fn items_at(s: Seq<char>, j: int, subs: Seq<SubstitutionView>, depth: nat) -> Result<
    (Seq<TokenView>, int),
    ParseError,
>
    decreases depth, s.len() - j, 4int,
{
    if j < 0 || j >= s.len() {
        Err(failure(s, s.len() as int, ParseReason::EndOfInput))
    } else if s[j] == ')' {
        Ok((Seq::empty(), j))
    } else {
        match token_at(s, j, subs, depth) {
            Err(e) => Err(e),
            Ok((t, next)) => if next <= j || next >= s.len() {
                Err(failure(s, s.len() as int, ParseReason::EndOfInput))
            } else {
                prepended(seq![t], items_at(s, next, subs, depth))
            },
        }
    }
}

/// The recipe that starts at position `i`: a quantity, a colon and a compound.
pub open spec fn token_at(s: Seq<char>, i: int, subs: Seq<SubstitutionView>, depth: nat) -> Result<
    (TokenView, int),
    ParseError,
>
    decreases depth, s.len() - i, 3int,
{
    match number_at(s, i) {
        Err(e) => Err(e),
        Ok((q, colon)) => match expect_at(s, colon, ':') {
            Err(e) => Err(e),
            Ok(k) => if k <= i {
                Err(failure(s, s.len() as int, ParseReason::EndOfInput))
            } else {
                compound_at(s, k, q, subs, depth)
            },
        },
    }
}

/// The compound of quantity `q` that starts at position `k`: recipes in brackets, a
/// premade recipe, or a base reagent.
pub open spec fn compound_at(
    s: Seq<char>,
    k: int,
    q: NumberToken,
    subs: Seq<SubstitutionView>,
    depth: nat,
) -> Result<(TokenView, int), ParseError>
    decreases depth, s.len() - k, 2int,
{
    if k < 0 || k >= s.len() {
        Err(failure(s, s.len() as int, ParseReason::EndOfInput))
    } else if s[k] == '(' {
        group_at(s, k, q, subs, depth)
    } else if s[k] == '*' {
        substituted_at(s, k, q, subs, depth)
    } else {
        base_at(s, k, q)
    }
}

/// The mixture of quantity `q` whose opening bracket stands at position `k`.
pub open spec fn group_at(
    s: Seq<char>,
    k: int,
    q: NumberToken,
    subs: Seq<SubstitutionView>,
    depth: nat,
) -> Result<(TokenView, int), ParseError>
    decreases depth, s.len() - k, 1int,
{
    if k < 0 || k >= s.len() {
        Err(failure(s, s.len() as int, ParseReason::EndOfInput))
    } else {
        match items_at(s, k + 1, subs, depth) {
            Err(e) => Err(e),
            Ok((parts, close)) => match expect_at(s, close, ')') {
                Err(e) => Err(e),
                Ok(behind) => match temperature_at(s, behind) {
                    Err(e) => Err(e),
                    Ok((temp, then)) => match priority_at(s, then) {
                        Err(e) => Err(e),
                        Ok((priority, next)) => Ok(
                            (
                                TokenView {
                                    quantity: q,
                                    compound: CompoundView { name: None, parts, temp },
                                    priority,
                                    concrete: None,
                                },
                                next,
                            ),
                        ),
                    },
                },
            },
        }
    }
}

/// The premade recipe of quantity `q` whose `*` stands at position `k`: what its
/// formula stands for, with the priority that follows the name.
pub open spec fn substituted_at(
    s: Seq<char>,
    k: int,
    q: NumberToken,
    subs: Seq<SubstitutionView>,
    depth: nat,
) -> Result<(TokenView, int), ParseError>
    decreases depth, s.len() - k, 1int,
{
    match name_end(s, k + 1) {
        Err(e) => Err(e),
        Ok(end) => match formula_of(subs, s.subrange(k + 1, end)) {
            None => Err(failure(s, end + 1, ParseReason::UnknownSubstitution)),
            Some(formula) => if depth == 0 {
                Err(failure(s, end + 1, ParseReason::SubstitutionTooDeep))
            } else {
                match compound_at(formula, 0, q, subs, (depth - 1) as nat) {
                    Err(e) => Err(e),
                    Ok((t, _)) => match priority_at(s, end + 1) {
                        Err(e) => Err(e),
                        Ok((priority, next)) => Ok(
                            (
                                TokenView {
                                    quantity: t.quantity,
                                    compound: t.compound,
                                    priority,
                                    concrete: t.concrete,
                                },
                                next,
                            ),
                        ),
                    },
                }
            },
        },
    }
}

/// The recipe that a text stands for, and the number of batches: the number before
/// an `x` at the start, or 1. Premade recipes may name each other as deeply as the
/// table has entries.
pub open spec fn recipe(s: Seq<char>, subs: Seq<SubstitutionView>) -> Result<
    (TokenView, u32),
    ParseError,
> {
    match number_at(s, 0) {
        Err(e) => Err(e),
        Ok((q, to)) => if to >= s.len() {
            Err(failure(s, s.len() as int, ParseReason::EndOfInput))
        } else if s[to] == 'x' {
            match q {
                NumberToken::Calculated(_) => Err(
                    failure(s, to + 1, ParseReason::FractionNotAllowed),
                ),
                NumberToken::Constant(times) => match token_at(s, to + 1, subs, subs.len()) {
                    Err(e) => Err(e),
                    Ok((t, _)) => Ok((t, times)),
                },
            }
        } else {
            match token_at(s, 0, subs, subs.len()) {
                Err(e) => Err(e),
                Ok((t, _)) => Ok((t, 1)),
            }
        },
    }
}

/// Whether `key` is the text from `from` up to `to` in capitals.
fn same_in_capitals(key: &str, text: &str, len: usize, from: usize, to: usize) -> (r: bool)
    requires
        len == text@.len(),
        from <= to <= len,
    ensures
        r == (key@ == uppercase(text@.subrange(from as int, to as int))),
{
    let ghost name = uppercase(text@.subrange(from as int, to as int));
    if key.unicode_len() != to - from {
        return false;
    }
    let mut k: usize = 0;
    while k < to - from
        invariant
            k <= to - from,
            from <= to <= len,
            len == text@.len(),
            key@.len() == to - from,
            name == uppercase(text@.subrange(from as int, to as int)),
            forall|j: int| 0 <= j < k ==> #[trigger] key@[j] == name[j],
        decreases to - from - k,
    {
        if key.get_char(k) != to_upper(text.get_char(from + k)) {
            assert(key@[k as int] != name[k as int]);
            return false;
        }
        k += 1;
    }
    assert(key@ =~= name);
    true
}

/// The position in the table of the first premade recipe that is named as the text
/// from `from` up to `to` is, in capitals.
fn get_substitute_formula(subs: &Vec<Substitution>, text: &str, len: usize, from: usize, to: usize) -> (r:
    Option<usize>)
    requires
        len == text@.len(),
        from <= to <= len,
    ensures
        match r {
            Some(i) => i < subs@.len() && formula_of(
                substitution_views(subs@),
                text@.subrange(from as int, to as int),
            ) == Some(subs@[i as int].formula@),
            None => formula_of(substitution_views(subs@), text@.subrange(from as int, to as int))
                is None,
        },
{
    let ghost table = substitution_views(subs@);
    let ghost p = named(uppercase(text@.subrange(from as int, to as int)));
    let mut i: usize = 0;
    while i < subs.len()
        invariant
            i <= subs.len(),
            len == text@.len(),
            from <= to <= len,
            table == substitution_views(subs@),
            p == named(uppercase(text@.subrange(from as int, to as int))),
            forall|j: int| 0 <= j < i ==> !p(#[trigger] table[j]),
        decreases subs.len() - i,
    {
        if same_in_capitals(subs[i].name.as_str(), text, len, from, to) {
            proof {
                assert(p(table[i as int]));
                lemma_first_index_is(table, p, i as int);
            }
            return Some(i);
        }
        assert(!p(table[i as int]));
        i += 1;
    }
    proof {
        lemma_first_index_none(table, p);
    }
    None
}

/// The temperature that may stand at position `i`, and the position behind it.
fn parse_temperature(text: &str, len: usize, i: usize) -> (r: Result<
    (Option<u32>, usize),
    ParseError,
>)
    requires
        len == text@.len(),
        i <= len,
    ensures
        match temperature_at(text@, i as int) {
            Ok((temp, next)) => r == Ok::<(Option<u32>, usize), ParseError>((temp, next as usize))
                && i <= next <= len,
            Err(e) => r == Err::<(Option<u32>, usize), ParseError>(e),
        },
{
    if i < len && text.get_char(i) == '@' {
        let (temp, to) = match parse_amount(text, len, i + 1) {
            Ok(found) => found,
            Err(e) => { return Err(e); },
        };
        match assert_token(text, len, to, ';') {
            Ok(next) => Ok((Some(temp), next)),
            Err(e) => Err(e),
        }
    } else {
        Ok((None, i))
    }
}

/// The base reagent of quantity `quantity` whose name starts at position `k`.
pub fn parse_base_chem(text: &str, len: usize, k: usize, quantity: NumberToken) -> (r: Result<
    (ChemToken, usize),
    ParseError,
>)
    requires
        len == text@.len(),
    ensures
        match base_at(text@, k as int, quantity) {
            Ok((t, next)) => r is Ok && r->Ok_0.0@ == t && r->Ok_0.1 == next && k < next <= len,
            Err(e) => r is Err && r->Err_0 == e,
        },
{
    let end = match parse_name(text, len, k) {
        Ok(end) => end,
        Err(e) => { return Err(e); },
    };
    let (priority, next) = match parse_priority(text, len, end + 1) {
        Ok(found) => found,
        Err(e) => { return Err(e); },
    };
    let name = String::from_str(text.substring_char(k, end));
    let chemicals: Vec<ChemToken> = Vec::new();
    proof {
        lemma_token_views_len(chemicals@);
        assert(token_views(chemicals@) =~= Seq::empty());
    }
    Ok(
        (
            ChemToken {
                quantity,
                chemical: Chemical { name: Some(name), chemicals, temp: None },
                priority,
                concrete_quantity: None,
            },
            next,
        ),
    )
}

/// The recipe that starts at position `i`: a quantity, a colon and a compound.
pub fn parse_group_or_base(
    text: &str,
    len: usize,
    i: usize,
    subs: &Vec<Substitution>,
    depth: usize,
) -> (r: Result<(ChemToken, usize), ParseError>)
    requires
        len == text@.len(),
    ensures
        match token_at(text@, i as int, substitution_views(subs@), depth as nat) {
            Ok((t, next)) => r is Ok && r->Ok_0.0@ == t && r->Ok_0.1 == next && i < next <= len,
            Err(e) => r is Err && r->Err_0 == e,
        },
    decreases depth, len - i, 3int,
{
    let (quantity, colon) = match parse_number(text, len, i) {
        Ok(found) => found,
        Err(e) => { return Err(e); },
    };
    let k = match assert_token(text, len, colon, ':') {
        Ok(k) => k,
        Err(e) => { return Err(e); },
    };
    parse_compound(text, len, k, quantity, subs, depth)
}

/// The compound of quantity `quantity` that starts at position `k`.
pub fn parse_compound(
    text: &str,
    len: usize,
    k: usize,
    quantity: NumberToken,
    subs: &Vec<Substitution>,
    depth: usize,
) -> (r: Result<(ChemToken, usize), ParseError>)
    requires
        len == text@.len(),
    ensures
        match compound_at(text@, k as int, quantity, substitution_views(subs@), depth as nat) {
            Ok((t, next)) => r is Ok && r->Ok_0.0@ == t && r->Ok_0.1 == next && k < next <= len,
            Err(e) => r is Err && r->Err_0 == e,
        },
    decreases depth, len - k, 2int,
{
    if k >= len {
        return Err(ParseError { position: 0, reason: ParseReason::EndOfInput });
    }
    let next = text.get_char(k);
    if next == '(' {
        parse_group(text, len, k, quantity, subs, depth)
    } else if next == '*' {
        parse_subbed_chem(text, len, k, quantity, subs, depth)
    } else {
        parse_base_chem(text, len, k, quantity)
    }
}

/// The mixture of quantity `quantity` whose opening bracket stands at position `k`.
pub fn parse_group(
    text: &str,
    len: usize,
    k: usize,
    quantity: NumberToken,
    subs: &Vec<Substitution>,
    depth: usize,
) -> (r: Result<(ChemToken, usize), ParseError>)
    requires
        len == text@.len(),
        k < len,
    ensures
        match group_at(text@, k as int, quantity, substitution_views(subs@), depth as nat) {
            Ok((t, next)) => r is Ok && r->Ok_0.0@ == t && r->Ok_0.1 == next && k < next <= len,
            Err(e) => r is Err && r->Err_0 == e,
        },
    decreases depth, len - k, 1int,
{
    let ghost s = text@;
    let ghost table = substitution_views(subs@);
    let mut chems: Vec<ChemToken> = Vec::new();
    let mut j: usize = k + 1;
    proof {
        lemma_token_views_len(chems@);
        assert(token_views(chems@) =~= Seq::empty());
        assert(prepended(token_views(chems@), items_at(s, j as int, table, depth as nat))
            == items_at(s, k + 1, table, depth as nat)) by {
            if let Ok((rest, close)) = items_at(s, j as int, table, depth as nat) {
                assert(token_views(chems@) + rest =~= rest);
            }
        }
    }
    loop
        invariant
            k < j <= len,
            len == s.len(),
            s == text@,
            table == substitution_views(subs@),
            prepended(token_views(chems@), items_at(s, j as int, table, depth as nat))
                == items_at(s, k + 1, table, depth as nat),
        ensures
            k < j < len,
            s[j as int] == ')',
            items_at(s, k + 1, table, depth as nat) == Ok::<(Seq<TokenView>, int), ParseError>(
                (token_views(chems@), j as int),
            ),
        decreases len - j,
    {
        if j >= len {
            return Err(ParseError { position: 0, reason: ParseReason::EndOfInput });
        }
        if text.get_char(j) == ')' {
            proof {
                assert(token_views(chems@) + Seq::<TokenView>::empty() =~= token_views(chems@));
            }
            break;
        }
        let (chem, next) = match parse_group_or_base(text, len, j, subs, depth) {
            Ok(found) => found,
            Err(e) => { return Err(e); },
        };
        if next >= len {
            return Err(ParseError { position: 0, reason: ParseReason::EndOfInput });
        }
        proof {
            let head = token_views(chems@);
            let rest = items_at(s, next as int, table, depth as nat);
            lemma_token_views_len(chems@);
            lemma_token_views_len(chems@.push(chem));
            assert forall|n: int| 0 <= n < chems@.len() + 1 implies token_views(
                chems@.push(chem),
            )[n] == head.push(chem@)[n] by {
                lemma_token_views_index(chems@.push(chem), n);
                if n < chems@.len() {
                    lemma_token_views_index(chems@, n);
                }
            }
            assert(token_views(chems@.push(chem)) =~= head.push(chem@));
            assert(prepended(head, prepended(seq![chem@], rest)) == prepended(
                head.push(chem@),
                rest,
            )) by {
                if let Ok((more, close)) = rest {
                    assert(head + (seq![chem@] + more) =~= head.push(chem@) + more);
                }
            }
        }
        chems.push(chem);
        j = next;
    }
    let behind = match assert_token(text, len, j, ')') {
        Ok(behind) => behind,
        Err(e) => { return Err(e); },
    };
    let (temp, then) = match parse_temperature(text, len, behind) {
        Ok(found) => found,
        Err(e) => { return Err(e); },
    };
    let (priority, next) = match parse_priority(text, len, then) {
        Ok(found) => found,
        Err(e) => { return Err(e); },
    };
    Ok(
        (
            ChemToken {
                quantity,
                priority,
                concrete_quantity: None,
                chemical: Chemical { name: None, chemicals: chems, temp },
            },
            next,
        ),
    )
}

/// The premade recipe of quantity `quantity` whose `*` stands at position `k`.
pub fn parse_subbed_chem(
    text: &str,
    len: usize,
    k: usize,
    quantity: NumberToken,
    subs: &Vec<Substitution>,
    depth: usize,
) -> (r: Result<(ChemToken, usize), ParseError>)
    requires
        len == text@.len(),
        k < len,
    ensures
        match substituted_at(text@, k as int, quantity, substitution_views(subs@), depth as nat) {
            Ok((t, next)) => r is Ok && r->Ok_0.0@ == t && r->Ok_0.1 == next && k < next <= len,
            Err(e) => r is Err && r->Err_0 == e,
        },
    decreases depth, len - k, 1int,
{
    let end = match parse_name(text, len, k + 1) {
        Ok(end) => end,
        Err(e) => { return Err(e); },
    };
    let at = match get_substitute_formula(subs, text, len, k + 1, end) {
        Some(at) => at,
        None => {
            return Err(
                ParseError { position: len - end - 1, reason: ParseReason::UnknownSubstitution },
            );
        },
    };
    if depth == 0 {
        return Err(
            ParseError { position: len - end - 1, reason: ParseReason::SubstitutionTooDeep },
        );
    }
    let formula = subs[at].formula.as_str();
    let formula_len = formula.unicode_len();
    let (mut result, _) = match parse_compound(formula, formula_len, 0, quantity, subs, depth - 1) {
        Ok(found) => found,
        Err(e) => { return Err(e); },
    };
    let (priority, next) = match parse_priority(text, len, end + 1) {
        Ok(found) => found,
        Err(e) => { return Err(e); },
    };
    result.priority = priority;
    Ok((result, next))
}

/// Reads a recipe. Returns its token and the number of batches.
pub fn parse(string: &str, subs: &Vec<Substitution>) -> (r: Result<(ChemToken, u32), ParseError>)
    ensures
        match recipe(string@, substitution_views(subs@)) {
            Ok((t, times)) => r is Ok && r->Ok_0.0@ == t && r->Ok_0.1 == times,
            Err(e) => r is Err && r->Err_0 == e,
        },
{
    let len = string.unicode_len();
    let (quantity, to) = match parse_number(string, len, 0) {
        Ok(found) => found,
        Err(e) => { return Err(e); },
    };
    if to >= len {
        return Err(ParseError { position: 0, reason: ParseReason::EndOfInput });
    }
    if string.get_char(to) == 'x' {
        match quantity {
            NumberToken::Calculated(_) => Err(
                ParseError { position: len - to - 1, reason: ParseReason::FractionNotAllowed },
            ),
            NumberToken::Constant(times) => {
                match parse_group_or_base(string, len, to + 1, subs, subs.len()) {
                    Ok((token, _)) => Ok((token, times)),
                    Err(e) => Err(e),
                }
            },
        }
    } else {
        match parse_group_or_base(string, len, 0, subs, subs.len()) {
            Ok((token, _)) => Ok((token, 1)),
            Err(e) => Err(e),
        }
    }
}

} // verus!
