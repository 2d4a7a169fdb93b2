//! An arithmetic-expression grammar that exercises the engine:
//! sums and products over multi-digit numbers, with parentheses.
//!
//! ```text
//! Sum     = Sum +- Product | Product
//! Product = Product */ Factor | Factor
//! Factor  = ( Sum ) | Number
//! Number  = Digit Number | Digit
//! ```

use vstd::prelude::*;

use crate::engine::{recognize, recognized_by, refuted_by};
use crate::grammar::{derivable, Grammar, Item, RuleAtom, Terminal};

verus! {

/// ASCII codes of the bytes the terminal classes look at.
pub const PLUS: u8 = 43;

pub const MINUS: u8 = 45;

pub const STAR: u8 = 42;

pub const SLASH: u8 = 47;

pub const DIGIT_ZERO: u8 = 48;

pub const DIGIT_NINE: u8 = 57;

pub const LPAREN: u8 = 40;

pub const RPAREN: u8 = 41;

/// The lexical classes of the arithmetic-expression grammar.
#[derive(Copy, Clone, Hash, PartialEq, Eq, Structural, Debug)]
pub enum FactorSumTerminal {
    AddSub,
    MulDiv,
    Digit,
    Lp,
    Rp,
}

/// The nonterminal symbols of the arithmetic-expression grammar.
#[derive(Copy, Clone, Hash, PartialEq, Eq, Structural, Debug)]
pub enum FactorSumGrammar {
    Sum,
    Product,
    Factor,
    Number,
}

impl Terminal for FactorSumTerminal {
    open spec fn spec_test(&self, c: u8) -> bool {
        match *self {
            FactorSumTerminal::AddSub => c == PLUS || c == MINUS,
            FactorSumTerminal::MulDiv => c == STAR || c == SLASH,
            FactorSumTerminal::Digit => DIGIT_ZERO <= c && c <= DIGIT_NINE,
            FactorSumTerminal::Lp => c == LPAREN,
            FactorSumTerminal::Rp => c == RPAREN,
        }
    }

    fn test(&self, c: u8) -> (r: bool) {
        match *self {
            FactorSumTerminal::AddSub => c == PLUS || c == MINUS,
            FactorSumTerminal::MulDiv => c == STAR || c == SLASH,
            FactorSumTerminal::Digit => DIGIT_ZERO <= c && c <= DIGIT_NINE,
            FactorSumTerminal::Lp => c == LPAREN,
            FactorSumTerminal::Rp => c == RPAREN,
        }
    }
}

impl Grammar for FactorSumGrammar {
    type Term = FactorSumTerminal;

    open spec fn spec_variants(&self) -> nat {
        2
    }

    open spec fn spec_len(&self, idx: int) -> nat {
        match *self {
            FactorSumGrammar::Sum => if idx == 0 { 3 } else { 1 },
            FactorSumGrammar::Product => if idx == 0 { 3 } else { 1 },
            FactorSumGrammar::Factor => if idx == 0 { 3 } else { 1 },
            FactorSumGrammar::Number => if idx == 0 { 2 } else { 1 },
        }
    }

    open spec fn spec_atom(&self, idx: int, n: int) -> RuleAtom<FactorSumGrammar> {
        match *self {
            FactorSumGrammar::Sum => if idx == 0 {
                if n == 0 {
                    RuleAtom::Grammar(FactorSumGrammar::Sum)
                } else if n == 1 {
                    RuleAtom::Terminal(FactorSumTerminal::AddSub)
                } else {
                    RuleAtom::Grammar(FactorSumGrammar::Product)
                }
            } else {
                RuleAtom::Grammar(FactorSumGrammar::Product)
            },
            FactorSumGrammar::Product => if idx == 0 {
                if n == 0 {
                    RuleAtom::Grammar(FactorSumGrammar::Product)
                } else if n == 1 {
                    RuleAtom::Terminal(FactorSumTerminal::MulDiv)
                } else {
                    RuleAtom::Grammar(FactorSumGrammar::Factor)
                }
            } else {
                RuleAtom::Grammar(FactorSumGrammar::Factor)
            },
            FactorSumGrammar::Factor => if idx == 0 {
                if n == 0 {
                    RuleAtom::Terminal(FactorSumTerminal::Lp)
                } else if n == 1 {
                    RuleAtom::Grammar(FactorSumGrammar::Sum)
                } else {
                    RuleAtom::Terminal(FactorSumTerminal::Rp)
                }
            } else {
                RuleAtom::Grammar(FactorSumGrammar::Number)
            },
            FactorSumGrammar::Number => if idx == 0 {
                if n == 0 {
                    RuleAtom::Terminal(FactorSumTerminal::Digit)
                } else {
                    RuleAtom::Grammar(FactorSumGrammar::Number)
                }
            } else {
                RuleAtom::Terminal(FactorSumTerminal::Digit)
            },
        }
    }

    fn variants(&self) -> (r: usize) {
        2
    }

    fn len(&self, idx: usize) -> (r: usize) {
        match *self {
            FactorSumGrammar::Sum => if idx == 0 { 3 } else { 1 },
            FactorSumGrammar::Product => if idx == 0 { 3 } else { 1 },
            FactorSumGrammar::Factor => if idx == 0 { 3 } else { 1 },
            FactorSumGrammar::Number => if idx == 0 { 2 } else { 1 },
        }
    }

    fn getatom(&self, idx: usize, n: usize) -> (r: RuleAtom<FactorSumGrammar>) {
        match *self {
            FactorSumGrammar::Sum => if idx == 0 {
                if n == 0 {
                    RuleAtom::Grammar(FactorSumGrammar::Sum)
                } else if n == 1 {
                    RuleAtom::Terminal(FactorSumTerminal::AddSub)
                } else {
                    RuleAtom::Grammar(FactorSumGrammar::Product)
                }
            } else {
                RuleAtom::Grammar(FactorSumGrammar::Product)
            },
            FactorSumGrammar::Product => if idx == 0 {
                if n == 0 {
                    RuleAtom::Grammar(FactorSumGrammar::Product)
                } else if n == 1 {
                    RuleAtom::Terminal(FactorSumTerminal::MulDiv)
                } else {
                    RuleAtom::Grammar(FactorSumGrammar::Factor)
                }
            } else {
                RuleAtom::Grammar(FactorSumGrammar::Factor)
            },
            FactorSumGrammar::Factor => if idx == 0 {
                if n == 0 {
                    RuleAtom::Terminal(FactorSumTerminal::Lp)
                } else if n == 1 {
                    RuleAtom::Grammar(FactorSumGrammar::Sum)
                } else {
                    RuleAtom::Terminal(FactorSumTerminal::Rp)
                }
            } else {
                RuleAtom::Grammar(FactorSumGrammar::Number)
            },
            FactorSumGrammar::Number => if idx == 0 {
                if n == 0 {
                    RuleAtom::Terminal(FactorSumTerminal::Digit)
                } else {
                    RuleAtom::Grammar(FactorSumGrammar::Number)
                }
            } else {
                RuleAtom::Terminal(FactorSumTerminal::Digit)
            },
        }
    }

    fn eq_sym(&self, other: &Self) -> (r: bool) {
        *self == *other
    }

    open spec fn sym_id(&self) -> int {
        match *self {
            FactorSumGrammar::Sum => 0,
            FactorSumGrammar::Product => 1,
            FactorSumGrammar::Factor => 2,
            FactorSumGrammar::Number => 3,
        }
    }

    open spec fn sym_bound() -> int {
        4
    }

    open spec fn max_alts() -> int {
        2
    }

    open spec fn max_len() -> int {
        3
    }

    proof fn bounds(&self) {
    }

    proof fn sym_id_injective(a: Self, b: Self) {
    }
}

/// A one-symbol grammar of balanced parenthesis nests with an empty
/// production:
///
/// ```text
/// Nest = | ( Nest )
/// ```
///
/// It exercises the engine's support for zero-length alternatives,
/// which complete at the position where they are predicted.
#[derive(Copy, Clone, Hash, PartialEq, Eq, Structural, Debug)]
pub enum NestGrammar {
    Nest,
}

impl Grammar for NestGrammar {
    type Term = FactorSumTerminal;

    open spec fn spec_variants(&self) -> nat {
        2
    }

    open spec fn spec_len(&self, idx: int) -> nat {
        if idx == 0 {
            0
        } else {
            3
        }
    }

    open spec fn spec_atom(&self, idx: int, n: int) -> RuleAtom<NestGrammar> {
        if n == 0 {
            RuleAtom::Terminal(FactorSumTerminal::Lp)
        } else if n == 1 {
            RuleAtom::Grammar(NestGrammar::Nest)
        } else {
            RuleAtom::Terminal(FactorSumTerminal::Rp)
        }
    }

    fn variants(&self) -> (r: usize) {
        2
    }

    fn len(&self, idx: usize) -> (r: usize) {
        if idx == 0 {
            0
        } else {
            3
        }
    }

    fn getatom(&self, idx: usize, n: usize) -> (r: RuleAtom<NestGrammar>) {
        if n == 0 {
            RuleAtom::Terminal(FactorSumTerminal::Lp)
        } else if n == 1 {
            RuleAtom::Grammar(NestGrammar::Nest)
        } else {
            RuleAtom::Terminal(FactorSumTerminal::Rp)
        }
    }

    fn eq_sym(&self, other: &Self) -> (r: bool) {
        *self == *other
    }

    open spec fn sym_id(&self) -> int {
        0
    }

    open spec fn sym_bound() -> int {
        1
    }

    open spec fn max_alts() -> int {
        2
    }

    open spec fn max_len() -> int {
        3
    }

    proof fn bounds(&self) {
    }

    proof fn sym_id_injective(a: Self, b: Self) {
    }
}

/// Decides whether `input` is an arithmetic expression.  A `true`
/// answer comes with a derivation of the whole input from the `Sum`
/// start symbol, and with a well-formed, duplicate-free Earley chart
/// that spans the input, holds only justified items, and ends in an
/// accepting item for `Sum`; a `false` answer comes with a seeded,
/// saturated such chart without one.
pub fn parse(input: &[u8]) -> (r: bool)
    ensures
        r ==> derivable(FactorSumGrammar::Sum, input@),
        r ==> exists|chart: Seq<Seq<Item<FactorSumGrammar>>>|
            recognized_by(chart, FactorSumGrammar::Sum, input@),
        !r ==> exists|chart: Seq<Seq<Item<FactorSumGrammar>>>|
            refuted_by(chart, FactorSumGrammar::Sum, input@),
{
    recognize(FactorSumGrammar::Sum, input)
}

} // verus!
