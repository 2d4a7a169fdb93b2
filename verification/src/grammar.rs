//! The grammar abstraction: terminals, nonterminal symbols, production
//! rules, and dotted items.

use vstd::prelude::*;

verus! {

/// A lexical class, matched against one input byte via a predicate.
pub trait Terminal: Sized + Copy {
    /// What `test` returns, as a mathematical predicate on the byte.
    spec fn spec_test(&self, c: u8) -> bool;

    /// Decides whether the byte `c` belongs to this lexical class.
    fn test(&self, c: u8) -> (r: bool)
        ensures
            r == self.spec_test(c),
    ;
}

/// A nonterminal symbol of a context-free grammar.  A value of an
/// implementing type stands for one symbol and enumerates that symbol's
/// production alternatives: each alternative has a length and an atom
/// (terminal or nonterminal) at every offset below that length.
pub trait Grammar: Sized + Copy {
    type Term: Terminal;

    /// The number of production alternatives of this symbol.
    spec fn spec_variants(&self) -> nat;

    /// The length of the body of alternative `idx`.
    spec fn spec_len(&self, idx: int) -> nat;

    /// The atom at offset `n` of the body of alternative `idx`.
    spec fn spec_atom(&self, idx: int, n: int) -> RuleAtom<Self>;

    /// The number of production alternatives of this symbol.
    fn variants(&self) -> (r: usize)
        ensures
            r == self.spec_variants(),
    ;

    /// The length of the body of alternative `idx`.
    fn len(&self, idx: usize) -> (r: usize)
        requires
            idx < self.spec_variants(),
        ensures
            r == self.spec_len(idx as int),
    ;

    /// The atom at offset `n` of the body of alternative `idx`.
    fn getatom(&self, idx: usize, n: usize) -> (r: RuleAtom<Self>)
        requires
            idx < self.spec_variants(),
            n < self.spec_len(idx as int),
        ensures
            r == self.spec_atom(idx as int, n as int),
    ;

    /// Decides whether two symbol values are the same symbol.
    fn eq_sym(&self, other: &Self) -> (r: bool)
        ensures
            r == (*self == *other),
    ;

    /// A numbering of the symbol values.  Together with `sym_bound`,
    /// `max_alts` and `max_len` it witnesses that the grammar is finite,
    /// which bounds the number of distinct items per chart position and
    /// so lets the engine's worklist loops terminate.
    spec fn sym_id(&self) -> int;

    /// An exclusive upper bound on `sym_id` over all symbol values.
    spec fn sym_bound() -> int;

    /// An upper bound on `spec_variants` over all symbol values.
    spec fn max_alts() -> int;

    /// An upper bound on `spec_len` over all symbols and alternatives.
    spec fn max_len() -> int;

    /// The finiteness bounds hold of every symbol value.
    proof fn bounds(&self)
        ensures
            0 <= self.sym_id() < Self::sym_bound(),
            self.spec_variants() <= Self::max_alts(),
            forall|idx: int|
                0 <= idx < self.spec_variants() ==> #[trigger] self.spec_len(idx)
                    <= Self::max_len(),
    ;

    /// The numbering distinguishes distinct symbol values.
    proof fn sym_id_injective(a: Self, b: Self)
        ensures
            a.sym_id() == b.sym_id() ==> a == b,
    ;
}

/// One element of a production body: a reference either to a nonterminal
/// symbol or to a terminal class.
#[derive(Copy, Clone)]
pub enum RuleAtom<G: Grammar> {
    Grammar(G),
    Terminal(G::Term),
}

/// One production alternative: a grammar symbol paired with the index of
/// one of its alternatives.  Length and atom queries delegate to the
/// symbol.
#[derive(Copy, Clone)]
pub struct Rule<G: Grammar> {
    pub gram: G,
    pub idx: usize,
}

impl<G: Grammar> Rule<G> {
    /// The alternative index refers to an actual alternative of the
    /// symbol.
    pub open spec fn wf(&self) -> bool {
        self.idx < self.gram.spec_variants()
    }

    /// The length of this production's body.
    pub open spec fn spec_len(&self) -> nat {
        self.gram.spec_len(self.idx as int)
    }

    /// The atom at offset `n` of this production's body.
    pub open spec fn spec_atom(&self, n: int) -> RuleAtom<G> {
        self.gram.spec_atom(self.idx as int, n)
    }

    pub fn new(gram: G, idx: usize) -> (r: Self)
        requires
            idx < gram.spec_variants(),
        ensures
            r.gram == gram,
            r.idx == idx,
            r.wf(),
    {
        Rule { gram, idx }
    }

    pub fn getatom(&self, idx: usize) -> (r: RuleAtom<G>)
        requires
            self.wf(),
            idx < self.spec_len(),
        ensures
            r == self.spec_atom(idx as int),
    {
        self.gram.getatom(self.idx, idx)
    }

    pub fn len(&self) -> (r: usize)
        requires
            self.wf(),
        ensures
            r == self.spec_len(),
    {
        self.gram.len(self.idx)
    }
}

/// A dotted rule: a production alternative annotated with how much of its
/// body has been matched (`dot`) and with the chart position where the
/// match began (`start`, the item's origin).
#[derive(Copy, Clone)]
pub struct Item<G: Grammar> {
    pub rule: Rule<G>,
    pub dot: usize,
    pub start: usize,
}

impl<G: Grammar> Item<G> {
    /// The rule is well formed and the dot lies within its body
    /// (inclusively: a dot equal to the length marks a finished match).
    pub open spec fn wf(&self) -> bool {
        &&& self.rule.wf()
        &&& self.dot <= self.rule.spec_len()
    }

    /// The whole body has been matched.
    pub open spec fn is_complete(&self) -> bool {
        self.dot == self.rule.spec_len()
    }

    /// The next expected atom of an item that is not complete.
    pub open spec fn spec_next(&self) -> RuleAtom<G> {
        self.rule.spec_atom(self.dot as int)
    }

    /// The item with the dot moved one atom to the right.
    pub open spec fn advanced(&self) -> Item<G> {
        Item { rule: self.rule, dot: (self.dot + 1) as usize, start: self.start }
    }

    pub fn new(rule: Rule<G>, dot: usize, start: usize) -> (r: Self)
        requires
            rule.wf(),
            dot <= rule.spec_len(),
        ensures
            r.rule == rule,
            r.dot == dot,
            r.start == start,
            r.wf(),
    {
        Item { rule, dot, start }
    }

    /// Advancing the dot builds a fresh item: the dot grows by exactly
    /// one, and the rule and the origin are those of `self`, unchanged.
    pub fn incr(&self) -> (r: Self)
        requires
            self.wf(),
            !self.is_complete(),
            self.dot < usize::MAX,
        ensures
            r.dot == self.dot + 1,
            r.rule == self.rule,
            r.start == self.start,
            r == self.advanced(),
            r.wf(),
    {
        Item { rule: self.rule, dot: self.dot + 1, start: self.start }
    }
}

/// The shape of a derivation: a left-to-right record of how the first
/// atoms of a production body produced a stretch of input.  `Nil`
/// stands for the empty prefix of a body; `Step` extends a prefix by
/// one atom, matched by an [`AtomDeriv`] starting at position `mid`.
pub enum Deriv {
    Nil,
    Step { pre: Box<Deriv>, mid: usize, atom: Box<AtomDeriv> },
}

/// How one atom of a production body matched: as a single input byte
/// of its terminal class (`Byte`), or as a complete derivation of one
/// alternative, numbered `alt`, of its nonterminal (`Sub`).
pub enum AtomDeriv {
    Byte,
    Sub { alt: usize, sub: Box<Deriv> },
}

/// The derivation `d` shows that the first `dot` atoms of the body of
/// `r` derive `input[from..to]`.
pub open spec fn deriv_ok<G: Grammar>(
    d: Deriv,
    r: Rule<G>,
    dot: int,
    input: Seq<u8>,
    from: int,
    to: int,
) -> bool
    decreases d,
{
    match d {
        Deriv::Nil => dot == 0 && from == to,
        Deriv::Step { pre, mid, atom } => {
            &&& dot >= 1
            &&& from <= mid <= to
            &&& deriv_ok(*pre, r, dot - 1, input, from, mid as int)
            &&& atom_ok(*atom, r.spec_atom(dot - 1), input, mid as int, to)
        },
    }
}

/// The derivation `a` shows that the atom `atom` derives
/// `input[from..to]`.
pub open spec fn atom_ok<G: Grammar>(
    a: AtomDeriv,
    atom: RuleAtom<G>,
    input: Seq<u8>,
    from: int,
    to: int,
) -> bool
    decreases a,
{
    match a {
        AtomDeriv::Byte => {
            &&& to == from + 1
            &&& 0 <= from < input.len()
            &&& match atom {
                RuleAtom::Terminal(t) => t.spec_test(input[from]),
                RuleAtom::Grammar(_) => false,
            }
        },
        AtomDeriv::Sub { alt, sub } => match atom {
            RuleAtom::Grammar(g) => {
                &&& alt < g.spec_variants()
                &&& deriv_ok(
                    *sub,
                    Rule { gram: g, idx: alt },
                    g.spec_len(alt as int) as int,
                    input,
                    from,
                    to,
                )
            },
            RuleAtom::Terminal(_) => false,
        },
    }
}

/// The whole input is derivable from the symbol `start`: some
/// alternative of `start` derives it in full.
pub open spec fn derivable<G: Grammar>(start: G, input: Seq<u8>) -> bool {
    exists|alt: usize, d: Deriv|
        alt < start.spec_variants() && #[trigger] deriv_ok(
            d,
            Rule { gram: start, idx: alt },
            start.spec_len(alt as int) as int,
            input,
            0,
            input.len() as int,
        )
}

} // verus!
