//! Sequent-calculus proof search for propositional classical linear logic.
//!
//! A formula ([`Ast`]) is handed to [`prove`], which wraps it in a one-sided
//! sequent and runs a cached best-first search over the standard Girard rules:
//! multiplicatives with their units, additives with theirs, the two
//! exponentials, exchange (sequents are multisets), and lazy DeMorgan
//! pushdown of linear negation. The search returns a derivation tree on
//! success and an error when it exhausts every reachable sequent within its
//! step budget.

pub mod ast;
pub mod bag;
pub mod derivation;
pub mod display;
pub mod infer;
pub mod inference;
pub mod laws;
pub mod rule;
pub mod search;
pub mod sequent;
pub mod thunk;
pub mod tree;
pub mod turnstile;

pub use ast::{bang, quest, Ast};
pub use bag::Bag;
pub use rule::Rule;
pub use search::{prove, Error};
pub use sequent::RhsOnlyWithExchange;
pub use tree::Tree;
pub use turnstile::Turnstile;
