//! An Earley-style recognizer for context-free grammars.
//!
//! The grammar is supplied through the [`grammar::Grammar`] and
//! [`grammar::Terminal`] traits; the engine in [`engine`] answers whether a
//! byte sequence is derivable from a chosen start symbol.  The
//! [`fixture`] module holds a small arithmetic-expression grammar that
//! exercises the engine.

pub mod engine;
pub mod fixture;
pub mod grammar;

pub use engine::{push_unique, recognize};
pub use fixture::{parse, FactorSumGrammar, FactorSumTerminal, NestGrammar};
pub use grammar::{Grammar, Item, Rule, RuleAtom, Terminal};
