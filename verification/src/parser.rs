//! The recipe notation and its parser.
//!
//! A recipe is a quantity, a colon and a compound, with an optional batch count and
//! `x` before it. A quantity is a decimal number, or `$n/d` for a fraction of the
//! parent's quantity (`n` and `d` one digit each, `n` left out for 1). A compound is
//! a name that ends with `;`, or recipes in round brackets with an optional `@`,
//! temperature and `;` behind them, or `*` and the name of a premade recipe. Behind
//! every compound an optional `!`, priority and `;` may follow.

pub mod grammar;
pub mod lexical;
