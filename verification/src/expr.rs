//! Grammar expressions: what a rule's right-hand side is made of.

use vstd::prelude::*;
use crate::engine::pattern_compiles;

verus! {

/// A matcher that consumes one token.
#[derive(Debug)]
pub enum AtomicExpr<'a> {
    /// The given text, literally.
    Terminal(&'a str),
    /// Whatever the given regular expression matches at the cursor.
    Regex(&'a str),
    /// Whatever the rule of the given name matches.
    NonTerminal(&'a str),
    /// The end of the input.
    EndOfFile,
}

/// A matcher built from atomic ones.
#[derive(Debug)]
pub enum ParseExpr<'a> {
    Atomic(AtomicExpr<'a>),
    /// Each of `es` in turn.
    Sequence { es: Vec<ParseExpr<'a>> },
    /// The first of `es` that matches.
    Choice { es: Vec<ParseExpr<'a>> },
    /// `e` as often as it matches.
    ZeroOrMore { e: Box<ParseExpr<'a>> },
    /// `e` once, and then as often as it matches.
    OneOrMore { e: Box<ParseExpr<'a>> },
    /// `e`, or nothing.
    Optional { e: Box<ParseExpr<'a>> },
}

/// The mathematical content of an [`AtomicExpr`].
pub enum Atom {
    Literal(Seq<char>),
    Pattern(Seq<char>),
    Rule(Seq<char>),
    EndOfInput,
}

/// The mathematical content of a [`ParseExpr`].
pub enum Expr {
    Atomic(Atom),
    Sequence(Seq<Expr>),
    Choice(Seq<Expr>),
    ZeroOrMore(Box<Expr>),
    OneOrMore(Box<Expr>),
    Optional(Box<Expr>),
}

impl<'a> View for AtomicExpr<'a> {
    type V = Atom;

    open spec fn view(&self) -> Atom {
        match self {
            AtomicExpr::Terminal(t) => Atom::Literal(t@),
            AtomicExpr::Regex(p) => Atom::Pattern(p@),
            AtomicExpr::NonTerminal(n) => Atom::Rule(n@),
            AtomicExpr::EndOfFile => Atom::EndOfInput,
        }
    }
}

impl<'a> ParseExpr<'a> {
    /// The content of an expression, by recursion over its shape.
    pub open spec fn content(self) -> Expr
        decreases self,
    {
        match self {
            ParseExpr::Atomic(a) => Expr::Atomic(a@),
            ParseExpr::Sequence { es } => Expr::Sequence(contents(es@)),
            ParseExpr::Choice { es } => Expr::Choice(contents(es@)),
            ParseExpr::ZeroOrMore { e } => Expr::ZeroOrMore(Box::new(e.content())),
            ParseExpr::OneOrMore { e } => Expr::OneOrMore(Box::new(e.content())),
            ParseExpr::Optional { e } => Expr::Optional(Box::new(e.content())),
        }
    }
}

/// The contents of a sequence of expressions.
pub open spec fn contents<'a>(es: Seq<ParseExpr<'a>>) -> Seq<Expr>
    decreases es,
{
    Seq::new(
        es.len(),
        |i: int|
            if 0 <= i < es.len() {
                es[i].content()
            } else {
                Expr::Atomic(Atom::EndOfInput)
            },
    )
}

impl<'a> View for ParseExpr<'a> {
    type V = Expr;

    open spec fn view(&self) -> Expr {
        self.content()
    }
}

impl Expr {
    /// Every choice within the expression offers at least one alternative.
    pub open spec fn well_formed(self) -> bool
        decreases self,
    {
        match self {
            Expr::Atomic(_) => true,
            Expr::Sequence(es) => {
                forall|i: int| 0 <= i < es.len() ==> (#[trigger] es[i]).well_formed()
            },
            Expr::Choice(es) => {
                &&& es.len() >= 1
                &&& forall|i: int| 0 <= i < es.len() ==> (#[trigger] es[i]).well_formed()
            },
            Expr::ZeroOrMore(e) => e.well_formed(),
            Expr::OneOrMore(e) => e.well_formed(),
            Expr::Optional(e) => e.well_formed(),
        }
    }

    /// Every regular expression within the expression is one the engine accepts.
    pub open spec fn patterns_compile(self) -> bool
        decreases self,
    {
        match self {
            Expr::Atomic(Atom::Pattern(p)) => pattern_compiles(p),
            Expr::Atomic(_) => true,
            Expr::Sequence(es) => {
                forall|i: int| 0 <= i < es.len() ==> (#[trigger] es[i]).patterns_compile()
            },
            Expr::Choice(es) => {
                forall|i: int| 0 <= i < es.len() ==> (#[trigger] es[i]).patterns_compile()
            },
            Expr::ZeroOrMore(e) => e.patterns_compile(),
            Expr::OneOrMore(e) => e.patterns_compile(),
            Expr::Optional(e) => e.patterns_compile(),
        }
    }

    /// Fit to be evaluated: well formed, with patterns the engine accepts.
    pub open spec fn usable(self) -> bool {
        self.well_formed() && self.patterns_compile()
    }
}

/// A sequence is fit to be evaluated exactly if each of its items is.
pub proof fn lemma_usable_sequence(es: Seq<Expr>)
    ensures
        Expr::Sequence(es).usable() <==> forall|i: int|
            0 <= i < es.len() ==> (#[trigger] es[i]).usable(),
{
    let whole = Expr::Sequence(es);
    assert(whole->Sequence_0 == es);
    if forall|i: int| 0 <= i < es.len() ==> (#[trigger] es[i]).usable() {
        assert forall|i: int| 0 <= i < es.len() implies (#[trigger] es[i]).well_formed() by {
            assert(es[i].usable());
        }
        assert forall|i: int| 0 <= i < es.len() implies (#[trigger] es[i]).patterns_compile() by {
            assert(es[i].usable());
        }
        assert(whole.well_formed());
        assert(whole.patterns_compile());
    }
    if whole.usable() {
        assert(whole.well_formed());
        assert(whole.patterns_compile());
        assert forall|i: int| 0 <= i < es.len() implies (#[trigger] es[i]).usable() by {
            assert(es[i].well_formed());
            assert(es[i].patterns_compile());
        }
    }
}

/// A choice is fit to be evaluated exactly if it has an item and each of its items
/// is fit.
pub proof fn lemma_usable_choice(es: Seq<Expr>)
    ensures
        Expr::Choice(es).usable() <==> es.len() >= 1 && forall|i: int|
            0 <= i < es.len() ==> (#[trigger] es[i]).usable(),
{
    let whole = Expr::Choice(es);
    assert(whole->Choice_0 == es);
    if forall|i: int| 0 <= i < es.len() ==> (#[trigger] es[i]).usable() {
        assert forall|i: int| 0 <= i < es.len() implies (#[trigger] es[i]).well_formed() by {
            assert(es[i].usable());
        }
        assert forall|i: int| 0 <= i < es.len() implies (#[trigger] es[i]).patterns_compile() by {
            assert(es[i].usable());
        }
        assert(whole.patterns_compile());
    }
    if whole.usable() {
        assert(whole.well_formed());
        assert(whole.patterns_compile());
        assert forall|i: int| 0 <= i < es.len() implies (#[trigger] es[i]).usable() by {
            assert(es[i].well_formed());
            assert(es[i].patterns_compile());
        }
    }
}

} // verus!
