//! Parse trees: what a successful parse yields.

use vstd::prelude::*;

verus! {

/// How a node groups what it matched.
#[derive(Debug)]
pub enum ParseGrouping<'a> {
    /// A stretch of text, taken as a whole.
    Terminal(&'a str),
    /// One child per matched expression, in order.
    Sequence { ts: Vec<ParseOut<'a>> },
    /// What an optional expression matched, if it matched.
    Optional(Option<Box<ParseGrouping<'a>>>),
    /// The node of the alternative that a choice took.
    Out(Box<ParseOut<'a>>),
}

/// A node of the parse tree: the rule it was built in, and what it matched.
#[derive(Debug)]
pub struct ParseOut<'a> {
    pub rule: &'a str,
    pub out: ParseGrouping<'a>,
}

/// The mathematical content of a [`ParseGrouping`].
pub enum Grouping {
    Terminal(Seq<char>),
    Sequence(Seq<Node>),
    Optional(Option<Box<Grouping>>),
    Out(Box<Node>),
}

/// The mathematical content of a [`ParseOut`].
pub struct Node {
    pub rule: Seq<char>,
    pub out: Grouping,
}

impl<'a> ParseGrouping<'a> {
    /// The content of a grouping, by recursion over its shape.
    pub open spec fn content(self) -> Grouping
        decreases self,
    {
        match self {
            ParseGrouping::Terminal(t) => Grouping::Terminal(t@),
            ParseGrouping::Sequence { ts } => Grouping::Sequence(nodes(ts@)),
            ParseGrouping::Optional(None) => Grouping::Optional(None),
            ParseGrouping::Optional(Some(g)) => Grouping::Optional(Some(Box::new(g.content()))),
            ParseGrouping::Out(n) => Grouping::Out(Box::new(n.content())),
        }
    }
}

impl<'a> ParseOut<'a> {
    /// The content of a node, by recursion over its shape.
    pub open spec fn content(self) -> Node
        decreases self,
    {
        Node { rule: self.rule@, out: self.out.content() }
    }
}

/// The contents of a sequence of nodes.
pub open spec fn nodes<'a>(ts: Seq<ParseOut<'a>>) -> Seq<Node>
    decreases ts,
{
    Seq::new(
        ts.len(),
        |i: int|
            if 0 <= i < ts.len() {
                ts[i].content()
            } else {
                Node { rule: Seq::empty(), out: Grouping::Optional(None) }
            },
    )
}

impl<'a> View for ParseGrouping<'a> {
    type V = Grouping;

    open spec fn view(&self) -> Grouping {
        self.content()
    }
}

impl<'a> View for ParseOut<'a> {
    type V = Node;

    open spec fn view(&self) -> Node {
        self.content()
    }
}

} // verus!
