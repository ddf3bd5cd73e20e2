//! Plans the synthesis of a compound on a machine with ten capacity-limited
//! reservoirs and compiles the plan to the machine's opcode alphabet.
//!
//! A recipe is a tree of tokens: quantities of compounds, where a compound is a
//! base reagent or a mixture of tokens ([`chemicals`]). [`parser`] reads a recipe
//! from text. [`calculator`] resolves the quantities, sets up the bank of
//! reservoirs and plans, step by step, the actions that make the compound.
//! [`compiler`] gives the literals of the actions registers, emits the commands
//! of the register machine and writes them as text.
//!
//! Every function states what it computes over the mathematical values of its
//! arguments (their views), and every failure is a value of an error type: no
//! function of the library panics.

pub mod calculator;
pub mod chemicals;
pub mod compiler;
pub mod parser;
pub mod seqs;
pub mod text;
