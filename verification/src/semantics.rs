//! What evaluating a grammar expression over an input means.
//!
//! The meaning of an expression at a cursor is a [`Step`]: a three-valued outcome and
//! the cursor after it. A failure leaves the cursor where evaluation began. A
//! repetition or an optional absorbs the failure that ends it and hands it upward
//! beside its node, so that an enclosing expression can still report the failure that
//! got furthest.
//!
//! A rule that is entered more often than the grammar has rules, one entry within
//! the other and all at one cursor, has been entered twice at the same place: it
//! would be entered there for ever. Such an entry fails at once, as left recursion.

use vstd::prelude::*;
use vstd::utf8::encode_utf8;
use crate::engine::leftmost_match;
use crate::error::{bad_match, merged, message, quoted, Diagnostic};
use crate::expr::{Atom, Expr};
use crate::outcome::Fallible;
use crate::parser::Grammar;
use crate::text::{has_prefix_at, on_boundary, text_between};
use crate::tree::{Grouping, Node};

verus! {

/// What stays the same throughout one parse: the grammar and the input.
pub struct Env {
    pub grammar: Grammar,
    pub src: Seq<u8>,
}

/// How many rules were entered, one within the other, while the cursor stood at `at`.
pub struct Descent {
    pub count: nat,
    pub at: int,
}

/// What stays the same within one rule's expression.
pub struct Frame {
    /// Whether the rule collapses sequences and repetitions into their text.
    pub capture: bool,
    /// The names of the open rules, outermost first; the last is the rule at hand.
    pub stack: Seq<Seq<char>>,
    pub descent: Descent,
}

/// The result of evaluating an expression: the outcome and the cursor after it.
pub struct Step {
    pub out: Fallible<Node, Diagnostic>,
    pub end: int,
}

/// The meaning of the pattern `p` at cursor `c` of `src`, given what the engine
/// found in the text from `c` on: the pattern matches if the engine found a match
/// that begins at the cursor and ends within the text at a cut point, and then it
/// consumes the match. `stack` names the open rules.
pub open spec fn pattern_step(
    src: Seq<u8>,
    stack: Seq<Seq<char>>,
    p: Seq<char>,
    c: int,
    found: Option<(usize, usize)>,
) -> Step {
    let missed = Step {
        out: Fallible::Failure(
            bad_match(src, c, "Failed to match "@ + quoted(p) + "."@, seq![p], stack),
        ),
        end: c,
    };
    match found {
        Some((first, past)) => {
            let end = c + past;
            if first == 0 && end <= src.len() && on_boundary(src, end) {
                Step {
                    out: Fallible::Success(
                        Node { rule: stack.last(), out: Grouping::Terminal(text_between(src, c, end)) },
                    ),
                    end,
                }
            } else {
                missed
            }
        },
        None => missed,
    }
}

impl Step {
    /// The node of a step that produced one.
    pub open spec fn node(self) -> Option<Node> {
        match self.out {
            Fallible::Success(n) => Some(n),
            Fallible::Recovered(n, _) => Some(n),
            Fallible::Failure(_) => None,
        }
    }
}

impl Descent {
    /// The number of rules entered since the cursor last moved, seen from cursor `c`.
    pub open spec fn at_cursor(self, c: int) -> nat {
        if self.at == c {
            self.count
        } else {
            0
        }
    }
}

impl Frame {
    /// The name of the rule at hand.
    pub open spec fn rule(self) -> Seq<char> {
        self.stack.last()
    }

    /// A node built in the rule at hand.
    pub open spec fn node(self, out: Grouping) -> Node {
        Node { rule: self.rule(), out }
    }
}

impl Env {
    /// The bytes left after cursor `c`.
    pub open spec fn remaining(self, c: int) -> nat {
        if 0 <= c <= self.src.len() {
            (self.src.len() - c) as nat
        } else {
            0
        }
    }

    /// The number of rules that may still be entered at cursor `c` before some rule
    /// must have been entered twice without the cursor moving.
    pub open spec fn budget(self, d: Descent, c: int) -> nat {
        let used = d.at_cursor(c);
        if used <= self.grammar.rules.len() {
            (self.grammar.rules.len() - used) as nat
        } else {
            0
        }
    }

    /// The cursor after a step from `from` that claims to end at `to`. A cursor
    /// moves forward only, and not beyond the end of the input.
    pub open spec fn settle(self, from: int, to: int) -> int {
        if 0 <= from <= to <= self.src.len() {
            to
        } else {
            from
        }
    }

    /// The failure to match at cursor `c`, expecting `wanted`.
    pub open spec fn mismatch(self, frame: Frame, c: int, msg: Seq<char>, wanted: Seq<char>) -> Step {
        Step {
            out: Fallible::Failure(bad_match(self.src, c, msg, seq![wanted], frame.stack)),
            end: c,
        }
    }

    /// The failure of an expression that began at `start`, for the diagnostics `errs`
    /// of its attempts.
    pub open spec fn fail(self, errs: Seq<Diagnostic>, start: int) -> Step {
        Step { out: Fallible::Failure(merged(errs)), end: start }
    }

    /// The result of an expression that began at `start` and produced `node` up to
    /// cursor `end`, having absorbed the diagnostics `errs`: full success if there are
    /// none, failure if a grammar fault is among them, and else the node beside
    /// their merge.
    pub open spec fn finish(self, node: Node, errs: Seq<Diagnostic>, start: int, end: int) -> Step {
        if errs.len() == 0 {
            Step { out: Fallible::Success(node), end }
        } else if merged(errs).is_fault() {
            Step { out: Fallible::Failure(merged(errs)), end: start }
        } else {
            Step { out: Fallible::Recovered(node, merged(errs)), end }
        }
    }

    /// The node of a sequence or repetition that matched `[start, end)` with the
    /// children `children`: in a capturing rule the node is the matched text, else
    /// it holds the children.
    pub open spec fn grouped(self, frame: Frame, start: int, end: int, children: Seq<Node>) -> Node {
        if frame.capture {
            frame.node(Grouping::Terminal(text_between(self.src, start, end)))
        } else {
            frame.node(Grouping::Sequence(children))
        }
    }

    /// The result of a sequence or repetition that matched `[start, end)` with the
    /// children `children`, having absorbed the diagnostics `errs`.
    pub open spec fn close(
        self,
        frame: Frame,
        start: int,
        end: int,
        children: Seq<Node>,
        errs: Seq<Diagnostic>,
    ) -> Step {
        self.finish(self.grouped(frame, start, end, children), errs, start, end)
    }

    /// The meaning of an atomic expression at cursor `c`.
    pub open spec fn eval_atom(self, frame: Frame, a: Atom, c: int) -> Step
        decreases self.remaining(c), self.budget(frame.descent, c), Expr::Atomic(a), 0nat,
    {
        match a {
            Atom::Literal(t) => {
                let end = c + encode_utf8(t).len();
                if has_prefix_at(self.src, c, encode_utf8(t)) {
                    Step {
                        out: Fallible::Success(
                            frame.node(Grouping::Terminal(text_between(self.src, c, end))),
                        ),
                        end,
                    }
                } else {
                    self.mismatch(frame, c, message(seq![t]), t)
                }
            },
            Atom::Pattern(p) => pattern_step(
                self.src,
                frame.stack,
                p,
                c,
                leftmost_match(p, text_between(self.src, c, self.src.len() as int)),
            ),
            Atom::EndOfInput => {
                if c == self.src.len() {
                    Step { out: Fallible::Success(frame.node(Grouping::Terminal("EOF"@))), end: c }
                } else {
                    self.mismatch(frame, c, message(seq!["EOF"@]), "EOF"@)
                }
            },
            Atom::Rule(name) => {
                match self.grammar.find(name) {
                    None => Step { out: Fallible::Failure(Diagnostic::UnknownNonTerminal(name)), end: c },
                    Some(i) => {
                        let used = frame.descent.at_cursor(c);
                        if used >= self.grammar.rules.len() || !(0 <= i < self.grammar.rules.len()) {
                            Step { out: Fallible::Failure(Diagnostic::LeftRecursion(name)), end: c }
                        } else {
                            let rule = self.grammar.rules[i];
                            let inner = Frame {
                                capture: rule.capture,
                                stack: frame.stack.push(name),
                                descent: Descent { count: used + 1, at: c },
                            };
                            self.eval(inner, rule.expr, c)
                        }
                    },
                }
            },
        }
    }

    /// The meaning of an expression at cursor `c`.
    pub open spec fn eval(self, frame: Frame, e: Expr, c: int) -> Step
        decreases self.remaining(c), self.budget(frame.descent, c), e, 1nat,
    {
        match e {
            Expr::Atomic(a) => self.eval_atom(frame, a, c),
            Expr::Sequence(es) => self.eval_seq(frame, es, c, 0, c, Seq::empty(), Seq::empty()),
            Expr::Choice(es) => self.eval_choice(frame, es, c, 0, Seq::empty()),
            Expr::ZeroOrMore(body) => self.eval_rep(frame, *body, c, c, Seq::empty(), Seq::empty()),
            Expr::OneOrMore(body) => {
                let first = self.eval(frame, *body, c);
                match first.out {
                    Fallible::Success(n) => self.eval_rep(
                        frame,
                        *body,
                        c,
                        self.settle(c, first.end),
                        seq![n],
                        Seq::empty(),
                    ),
                    Fallible::Recovered(n, _) => self.eval_rep(
                        frame,
                        *body,
                        c,
                        self.settle(c, first.end),
                        seq![n],
                        Seq::empty(),
                    ),
                    Fallible::Failure(d) => Step { out: Fallible::Failure(d), end: c },
                }
            },
            Expr::Optional(body) => {
                let inner = self.eval(frame, *body, c);
                match inner.out {
                    Fallible::Success(n) => Step {
                        out: Fallible::Success(frame.node(Grouping::Optional(Some(Box::new(n.out))))),
                        end: inner.end,
                    },
                    Fallible::Recovered(n, d) => Step {
                        out: Fallible::Recovered(
                            frame.node(Grouping::Optional(Some(Box::new(n.out)))),
                            d,
                        ),
                        end: inner.end,
                    },
                    Fallible::Failure(d) => Step {
                        out: Fallible::Recovered(frame.node(Grouping::Optional(None)), d),
                        end: c,
                    },
                }
            },
        }
    }

    /// The meaning of the sequence `es` that began at `start`, from its item `k` on:
    /// the cursor stands at `c`, the items before `k` produced `children` and
    /// absorbed `errs`.
    pub open spec fn eval_seq(
        self,
        frame: Frame,
        es: Seq<Expr>,
        start: int,
        k: int,
        c: int,
        children: Seq<Node>,
        errs: Seq<Diagnostic>,
    ) -> Step
        decreases self.remaining(c), self.budget(frame.descent, c), es, es.len() - k,
    {
        if 0 <= k < es.len() {
            let step = self.eval(frame, es[k], c);
            let next = self.settle(c, step.end);
            match step.out {
                Fallible::Success(n) => self.eval_seq(frame, es, start, k + 1, next, children.push(n), errs),
                Fallible::Recovered(n, d) => self.eval_seq(
                    frame,
                    es,
                    start,
                    k + 1,
                    next,
                    children.push(n),
                    errs.push(d),
                ),
                Fallible::Failure(d) => self.fail(errs.push(d), start),
            }
        } else {
            self.close(frame, start, c, children, errs)
        }
    }

    /// The meaning of the choice `es` at cursor `c`, from its alternative `k` on: the
    /// alternatives before `k` failed with `errs`.
    pub open spec fn eval_choice(
        self,
        frame: Frame,
        es: Seq<Expr>,
        c: int,
        k: int,
        errs: Seq<Diagnostic>,
    ) -> Step
        decreases self.remaining(c), self.budget(frame.descent, c), es, es.len() - k,
    {
        if 0 <= k < es.len() {
            let step = self.eval(frame, es[k], c);
            match step.out {
                Fallible::Success(n) => Step {
                    out: Fallible::Success(frame.node(Grouping::Out(Box::new(n)))),
                    end: step.end,
                },
                Fallible::Recovered(n, d) => self.finish(
                    frame.node(Grouping::Out(Box::new(n))),
                    errs.push(d),
                    c,
                    step.end,
                ),
                Fallible::Failure(d) => self.eval_choice(frame, es, c, k + 1, errs.push(d)),
            }
        } else {
            self.fail(errs, c)
        }
    }

    /// The meaning of repeating `body`, for a repetition that began at `start`: the
    /// cursor stands at `c`, the rounds so far produced `children` and absorbed
    /// `errs`.
    ///
    /// A round that fails ends the repetition, and so does a round that matches
    /// without moving the cursor; what such a round produced is dropped, what it
    /// reported is kept.
    pub open spec fn eval_rep(
        self,
        frame: Frame,
        body: Expr,
        start: int,
        c: int,
        children: Seq<Node>,
        errs: Seq<Diagnostic>,
    ) -> Step
        decreases self.remaining(c), self.budget(frame.descent, c), body, 2nat,
    {
        let step = self.eval(frame, body, c);
        let next = self.settle(c, step.end);
        match step.out {
            Fallible::Success(n) => if next > c {
                self.eval_rep(frame, body, start, next, children.push(n), errs)
            } else {
                self.close(frame, start, c, children, errs)
            },
            Fallible::Recovered(n, d) => if next > c {
                self.eval_rep(frame, body, start, next, children.push(n), errs.push(d))
            } else {
                self.close(frame, start, c, children, errs.push(d))
            },
            Fallible::Failure(d) => self.close(frame, start, c, children, errs.push(d)),
        }
    }
}

/// The frame in which a parse begins: the start rule is the only open rule, and it
/// counts as entered at cursor 0.
pub open spec fn first_frame(g: Grammar, capture: bool) -> Frame {
    Frame { capture, stack: seq![g.start], descent: Descent { count: 1, at: 0 } }
}

/// The meaning of a grammar on an input: the tree that its start rule yields from
/// the first byte on, or the diagnostic of the failure.
pub open spec fn parse_result(g: Grammar, src: Seq<u8>) -> Result<Node, Diagnostic> {
    match g.find(g.start) {
        None => Err(Diagnostic::UnknownNonTerminal(g.start)),
        Some(i) => {
            let env = Env { grammar: g, src };
            env.eval(first_frame(g, g.rules[i].capture), g.rules[i].expr, 0).out.as_result()
        },
    }
}

} // verus!
