//! What holds of every evaluation, whatever the grammar and the input.

use vstd::prelude::*;
use crate::error::{
    ascending, lemma_first_fault, lemma_merged_is_furthest, lemma_merged_keeps_fault, merged,
    message, quoted, sorted_set, Diagnostic,
};
use crate::expr::{Atom, Expr};
use crate::outcome::Fallible;
use crate::parser::{lemma_last_definition, Grammar};
use crate::semantics::{first_frame, parse_result, Descent, Env, Frame, Step};
use crate::text::text_between;
use crate::tree::{Grouping, Node};

verus! {

impl Env {
    /// A diagnostic of an evaluation that began at cursor `from` is in order: a
    /// mismatch points into `[from, end of input]` and names, in ascending order, at
    /// least one thing that it expected.
    pub open spec fn in_order(self, from: int, d: Diagnostic) -> bool {
        d is BadMatch ==> {
            &&& from <= d.position() <= self.src.len()
            &&& d.expectations().len() > 0
            &&& ascending(d.expectations())
        }
    }

    /// A step of an evaluation that began at cursor `from` is sound: the cursor did
    /// not move backwards nor beyond the input, a failure left it where it was, and
    /// the diagnostic, if there is one, is in order.
    pub open spec fn sound(self, from: int, step: Step) -> bool {
        &&& from <= step.end <= self.src.len()
        &&& match step.out {
            Fallible::Success(_) => true,
            Fallible::Recovered(_, d) => self.in_order(from, d),
            Fallible::Failure(d) => step.end == from && self.in_order(from, d),
        }
    }

    /// Every one of `errs` is in order for an evaluation that began at `from`.
    pub open spec fn all_in_order(self, from: int, errs: Seq<Diagnostic>) -> bool {
        forall|i: int| 0 <= i < errs.len() ==> self.in_order(from, #[trigger] errs[i])
    }
}

/// The merge of diagnostics that are in order is in order.
pub proof fn lemma_merged_in_order(env: Env, from: int, errs: Seq<Diagnostic>)
    requires
        errs.len() > 0,
        0 <= from,
        env.all_in_order(from, errs),
    ensures
        env.in_order(from, merged(errs)),
{
    if merged(errs) is BadMatch {
        let n = errs.len() as int;
        lemma_first_fault(errs, n);
        assert forall|j: int| 0 <= j < errs.len() implies !(#[trigger] errs[j]).is_fault()
            && errs[j].position() >= 0 by {
            assert(env.in_order(from, errs[j]));
        }
        lemma_merged_is_furthest(errs);
        let j = choose|j: int| 0 <= j < errs.len() && (#[trigger] errs[j]).position() == merged(errs).position();
        assert(env.in_order(from, errs[j]));
        let x = errs[j].expectations()[0];
        assert(errs[j].expectations().to_set().contains(x));
        assert(merged(errs).expectations().to_set().contains(x));
    }
}

/// One more diagnostic in order keeps the list in order.
pub proof fn lemma_push_in_order(env: Env, from: int, errs: Seq<Diagnostic>, d: Diagnostic)
    requires
        env.all_in_order(from, errs),
        env.in_order(from, d),
    ensures
        env.all_in_order(from, errs.push(d)),
{
    assert forall|i: int| 0 <= i < errs.push(d).len() implies env.in_order(
        from,
        #[trigger] errs.push(d)[i],
    ) by {
        if i < errs.len() {
            assert(env.in_order(from, errs[i]));
        }
    }
}

/// A mismatch reported at a cursor within the input is in order.
proof fn lemma_mismatch_in_order(env: Env, frame: Frame, c: int, msg: Seq<char>, wanted: Seq<char>)
    requires
        0 <= c <= env.src.len(),
    ensures
        env.sound(c, env.mismatch(frame, c, msg, wanted)),
{
    assert(sorted_set(seq![wanted]) == seq![wanted]) by {
        reveal_with_fuel(crate::error::insert_all, 2);
    }
}

/// Finishing an expression from diagnostics in order gives a sound step.
proof fn lemma_finish_sound(
    env: Env,
    node: Node,
    errs: Seq<Diagnostic>,
    start: int,
    end: int,
)
    requires
        0 <= start <= end <= env.src.len(),
        env.all_in_order(start, errs),
    ensures
        env.sound(start, env.finish(node, errs, start, end)),
{
    if errs.len() > 0 {
        lemma_merged_in_order(env, start, errs);
    }
}

/// Cursor monotonicity, and the order of diagnostics, for atomic expressions.
pub proof fn lemma_eval_atom_sound(env: Env, frame: Frame, a: Atom, c: int)
    requires
        0 <= c <= env.src.len(),
        a matches Atom::Rule(name) ==> env.grammar.find(name) is None || env.grammar.well_formed(),
    ensures
        env.sound(c, env.eval_atom(frame, a, c)),
    decreases env.remaining(c), env.budget(frame.descent, c), Expr::Atomic(a), 0nat,
{
    match a {
        Atom::Literal(t) => {
            lemma_mismatch_in_order(env, frame, c, message(seq![t]), t);
        },
        Atom::Pattern(p) => {
            lemma_mismatch_in_order(
                env,
                frame,
                c,
                "Failed to match "@ + quoted(p) + "."@,
                p,
            );
        },
        Atom::EndOfInput => {
            lemma_mismatch_in_order(env, frame, c, message(seq!["EOF"@]), "EOF"@);
        },
        Atom::Rule(name) => {
            match env.grammar.find(name) {
                None => {},
                Some(i) => {
                    let used = frame.descent.at_cursor(c);
                    if used >= env.grammar.rules.len() || !(0 <= i < env.grammar.rules.len()) {
                    } else {
                        let rule = env.grammar.rules[i];
                        let inner = Frame {
                            capture: rule.capture,
                            stack: frame.stack.push(name),
                            descent: Descent { count: used + 1, at: c },
                        };
                        lemma_eval_sound(env, inner, rule.expr, c);
                    }
                },
            }
        },
    }
}

/// Cursor monotonicity, and the order of diagnostics: evaluating an expression at a
/// cursor within the input never moves the cursor backwards nor beyond the input,
/// leaves it in place on failure, and reports only mismatches at or after the
/// cursor it began at.
pub proof fn lemma_eval_sound(env: Env, frame: Frame, e: Expr, c: int)
    requires
        0 <= c <= env.src.len(),
        env.grammar.well_formed(),
        e.well_formed(),
    ensures
        env.sound(c, env.eval(frame, e, c)),
    decreases env.remaining(c), env.budget(frame.descent, c), e, 1nat,
{
    match e {
        Expr::Atomic(a) => {
            lemma_eval_atom_sound(env, frame, a, c);
        },
        Expr::Sequence(es) => {
            lemma_eval_seq_sound(env, frame, es, c, 0, c, Seq::empty(), Seq::empty());
        },
        Expr::Choice(es) => {
            lemma_eval_choice_sound(env, frame, es, c, 0, Seq::empty());
        },
        Expr::ZeroOrMore(body) => {
            lemma_eval_rep_sound(env, frame, *body, c, c, Seq::empty(), Seq::empty());
        },
        Expr::OneOrMore(body) => {
            lemma_eval_sound(env, frame, *body, c);
            let first = env.eval(frame, *body, c);
            match first.out {
                Fallible::Success(n) => {
                    lemma_eval_rep_sound(env, frame, *body, c, first.end, seq![n], Seq::empty());
                },
                Fallible::Recovered(n, _) => {
                    lemma_eval_rep_sound(env, frame, *body, c, first.end, seq![n], Seq::empty());
                },
                Fallible::Failure(_) => {},
            }
        },
        Expr::Optional(body) => {
            lemma_eval_sound(env, frame, *body, c);
        },
    }
}

/// Soundness of a sequence from its item `k` on.
pub proof fn lemma_eval_seq_sound(
    env: Env,
    frame: Frame,
    es: Seq<Expr>,
    start: int,
    k: int,
    c: int,
    children: Seq<Node>,
    errs: Seq<Diagnostic>,
)
    requires
        0 <= start <= c <= env.src.len(),
        0 <= k,
        env.grammar.well_formed(),
        forall|i: int| 0 <= i < es.len() ==> (#[trigger] es[i]).well_formed(),
        env.all_in_order(start, errs),
    ensures
        env.sound(start, env.eval_seq(frame, es, start, k, c, children, errs)),
    decreases env.remaining(c), env.budget(frame.descent, c), es, es.len() - k,
{
    if k < es.len() {
        lemma_eval_sound(env, frame, es[k], c);
        let step = env.eval(frame, es[k], c);
        match step.out {
            Fallible::Success(n) => {
                lemma_eval_seq_sound(env, frame, es, start, k + 1, step.end, children.push(n), errs);
            },
            Fallible::Recovered(n, d) => {
                lemma_push_in_order(env, start, errs, d);
                lemma_eval_seq_sound(
                    env,
                    frame,
                    es,
                    start,
                    k + 1,
                    step.end,
                    children.push(n),
                    errs.push(d),
                );
            },
            Fallible::Failure(d) => {
                lemma_push_in_order(env, start, errs, d);
                lemma_merged_in_order(env, start, errs.push(d));
            },
        }
    } else {
        lemma_finish_sound(env, env.grouped(frame, start, c, children), errs, start, c);
    }
}

/// Soundness of a choice from its alternative `k` on.
pub proof fn lemma_eval_choice_sound(
    env: Env,
    frame: Frame,
    es: Seq<Expr>,
    c: int,
    k: int,
    errs: Seq<Diagnostic>,
)
    requires
        0 <= c <= env.src.len(),
        0 <= k,
        env.grammar.well_formed(),
        es.len() >= 1,
        forall|i: int| 0 <= i < es.len() ==> (#[trigger] es[i]).well_formed(),
        env.all_in_order(c, errs),
        k > 0 ==> errs.len() > 0,
    ensures
        env.sound(c, env.eval_choice(frame, es, c, k, errs)),
    decreases env.remaining(c), env.budget(frame.descent, c), es, es.len() - k,
{
    if k < es.len() {
        lemma_eval_sound(env, frame, es[k], c);
        let step = env.eval(frame, es[k], c);
        match step.out {
            Fallible::Success(_) => {},
            Fallible::Recovered(n, d) => {
                lemma_push_in_order(env, c, errs, d);
                lemma_finish_sound(
                    env,
                    frame.node(Grouping::Out(Box::new(n))),
                    errs.push(d),
                    c,
                    step.end,
                );
            },
            Fallible::Failure(d) => {
                lemma_push_in_order(env, c, errs, d);
                lemma_eval_choice_sound(env, frame, es, c, k + 1, errs.push(d));
            },
        }
    } else {
        lemma_merged_in_order(env, c, errs);
    }
}

/// Soundness of a repetition from cursor `c` on.
pub proof fn lemma_eval_rep_sound(
    env: Env,
    frame: Frame,
    body: Expr,
    start: int,
    c: int,
    children: Seq<Node>,
    errs: Seq<Diagnostic>,
)
    requires
        0 <= start <= c <= env.src.len(),
        env.grammar.well_formed(),
        body.well_formed(),
        env.all_in_order(start, errs),
    ensures
        env.sound(start, env.eval_rep(frame, body, start, c, children, errs)),
    decreases env.remaining(c), env.budget(frame.descent, c), body, 2nat,
{
    lemma_eval_sound(env, frame, body, c);
    let step = env.eval(frame, body, c);
    let node = env.grouped(frame, start, c, children);
    match step.out {
        Fallible::Success(n) => {
            if step.end > c {
                lemma_eval_rep_sound(env, frame, body, start, step.end, children.push(n), errs);
            } else {
                lemma_finish_sound(env, node, errs, start, c);
            }
        },
        Fallible::Recovered(n, d) => {
            lemma_push_in_order(env, start, errs, d);
            if step.end > c {
                lemma_eval_rep_sound(
                    env,
                    frame,
                    body,
                    start,
                    step.end,
                    children.push(n),
                    errs.push(d),
                );
            } else {
                lemma_finish_sound(env, node, errs.push(d), start, c);
            }
        },
        Fallible::Failure(d) => {
            lemma_push_in_order(env, start, errs, d);
            lemma_finish_sound(env, node, errs.push(d), start, c);
        },
    }
}

/// Optional totality: an optional expression never fails, whatever its body does.
pub proof fn lemma_optional_never_fails(env: Env, frame: Frame, body: Expr, c: int)
    ensures
        !(env.eval(frame, Expr::Optional(Box::new(body)), c).out is Failure),
{
}

/// Capture round trip: in a capturing rule, the node of a sequence from its item
/// `k` on is the text of the input between where the sequence began and where it
/// ended.
pub proof fn lemma_seq_captures(
    env: Env,
    frame: Frame,
    es: Seq<Expr>,
    start: int,
    k: int,
    c: int,
    children: Seq<Node>,
    errs: Seq<Diagnostic>,
)
    requires
        frame.capture,
        0 <= k,
    ensures
        ({
            let step = env.eval_seq(frame, es, start, k, c, children, errs);
            step.node() matches Some(n) ==> n == frame.node(
                Grouping::Terminal(text_between(env.src, start, step.end)),
            )
        }),
    decreases env.remaining(c), env.budget(frame.descent, c), es, es.len() - k,
{
    if k < es.len() {
        let step = env.eval(frame, es[k], c);
        let next = env.settle(c, step.end);
        match step.out {
            Fallible::Success(n) => {
                lemma_seq_captures(env, frame, es, start, k + 1, next, children.push(n), errs);
            },
            Fallible::Recovered(n, d) => {
                lemma_seq_captures(
                    env,
                    frame,
                    es,
                    start,
                    k + 1,
                    next,
                    children.push(n),
                    errs.push(d),
                );
            },
            Fallible::Failure(_) => {},
        }
    }
}

/// Capture round trip: in a capturing rule, the node of a repetition is the text of
/// the input between where the repetition began and where it ended.
pub proof fn lemma_rep_captures(
    env: Env,
    frame: Frame,
    body: Expr,
    start: int,
    c: int,
    children: Seq<Node>,
    errs: Seq<Diagnostic>,
)
    requires
        frame.capture,
    ensures
        ({
            let step = env.eval_rep(frame, body, start, c, children, errs);
            step.node() matches Some(n) ==> n == frame.node(
                Grouping::Terminal(text_between(env.src, start, step.end)),
            )
        }),
    decreases env.remaining(c), env.budget(frame.descent, c), body, 2nat,
{
    let step = env.eval(frame, body, c);
    let next = env.settle(c, step.end);
    match step.out {
        Fallible::Success(n) => {
            if next > c {
                lemma_rep_captures(env, frame, body, start, next, children.push(n), errs);
            }
        },
        Fallible::Recovered(n, d) => {
            if next > c {
                lemma_rep_captures(env, frame, body, start, next, children.push(n), errs.push(d));
            }
        },
        Fallible::Failure(_) => {},
    }
}

/// Capture round trip: the node that a sequence or a repetition yields in a
/// capturing rule is exactly the text of the input between the cursor before and
/// the cursor after.
pub proof fn lemma_capture_round_trip(env: Env, frame: Frame, e: Expr, c: int)
    requires
        frame.capture,
        e is Sequence || e is ZeroOrMore || e is OneOrMore,
    ensures
        ({
            let step = env.eval(frame, e, c);
            step.node() matches Some(n) ==> n == frame.node(
                Grouping::Terminal(text_between(env.src, c, step.end)),
            )
        }),
{
    match e {
        Expr::Sequence(es) => {
            lemma_seq_captures(env, frame, es, c, 0, c, Seq::empty(), Seq::empty());
        },
        Expr::ZeroOrMore(body) => {
            lemma_rep_captures(env, frame, *body, c, c, Seq::empty(), Seq::empty());
        },
        Expr::OneOrMore(body) => {
            let first = env.eval(frame, *body, c);
            match first.out {
                Fallible::Success(n) => {
                    lemma_rep_captures(
                        env,
                        frame,
                        *body,
                        c,
                        env.settle(c, first.end),
                        seq![n],
                        Seq::empty(),
                    );
                },
                Fallible::Recovered(n, _) => {
                    lemma_rep_captures(
                        env,
                        frame,
                        *body,
                        c,
                        env.settle(c, first.end),
                        seq![n],
                        Seq::empty(),
                    );
                },
                Fallible::Failure(_) => {},
            }
        },
        _ => {},
    }
}

/// Every round that a repetition keeps moved the cursor: outside a capturing rule
/// the node holds at most `extra` children more than bytes were matched, where
/// `extra` is the number of children that it began with beyond that.
pub proof fn lemma_rep_rounds_bounded(
    env: Env,
    frame: Frame,
    body: Expr,
    start: int,
    c: int,
    children: Seq<Node>,
    errs: Seq<Diagnostic>,
    extra: int,
)
    requires
        !frame.capture,
        children.len() <= c - start + extra,
    ensures
        ({
            let step = env.eval_rep(frame, body, start, c, children, errs);
            step.node() matches Some(n) ==> n.out is Sequence && n.out->Sequence_0.len() <= step.end
                - start + extra
        }),
    decreases env.remaining(c), env.budget(frame.descent, c), body, 2nat,
{
    let step = env.eval(frame, body, c);
    let next = env.settle(c, step.end);
    match step.out {
        Fallible::Success(n) => {
            if next > c {
                lemma_rep_rounds_bounded(env, frame, body, start, next, children.push(n), errs, extra);
            }
        },
        Fallible::Recovered(n, d) => {
            if next > c {
                lemma_rep_rounds_bounded(
                    env,
                    frame,
                    body,
                    start,
                    next,
                    children.push(n),
                    errs.push(d),
                    extra,
                );
            }
        },
        Fallible::Failure(_) => {},
    }
}

/// Repetition ends: a repetition keeps a round only if the round moved the cursor,
/// so the number of rounds is bounded by the bytes matched, also where the body
/// matches the empty text. `e*` holds at most as many children as it matched bytes.
pub proof fn lemma_zero_or_more_bounded(env: Env, frame: Frame, body: Expr, c: int)
    requires
        !frame.capture,
    ensures
        ({
            let step = env.eval(frame, Expr::ZeroOrMore(Box::new(body)), c);
            step.node() matches Some(n) ==> n.out is Sequence && n.out->Sequence_0.len() <= step.end
                - c
        }),
{
    lemma_rep_rounds_bounded(env, frame, body, c, c, Seq::empty(), Seq::empty(), 0);
}

/// Repetition ends: `e+` holds at most one child more than it matched bytes.
pub proof fn lemma_one_or_more_bounded(env: Env, frame: Frame, body: Expr, c: int)
    requires
        !frame.capture,
    ensures
        ({
            let step = env.eval(frame, Expr::OneOrMore(Box::new(body)), c);
            step.node() matches Some(n) ==> n.out is Sequence && n.out->Sequence_0.len() <= step.end
                - c + 1
        }),
{
    let first = env.eval(frame, body, c);
    let next = env.settle(c, first.end);
    match first.out {
        Fallible::Success(n) => {
            lemma_rep_rounds_bounded(env, frame, body, c, next, seq![n], Seq::empty(), 1);
        },
        Fallible::Recovered(n, _) => {
            lemma_rep_rounds_bounded(env, frame, body, c, next, seq![n], Seq::empty(), 1);
        },
        Fallible::Failure(_) => {},
    }
}

impl Expr {
    /// The expression demands the end of the input as the last thing it matches.
    pub open spec fn ends_input(self) -> bool
        decreases self,
    {
        match self {
            Expr::Atomic(Atom::EndOfInput) => true,
            Expr::Sequence(es) => es.len() > 0 && es[es.len() - 1].ends_input(),
            _ => false,
        }
    }
}

/// The end of input matches at the end of the input, and nowhere else: there it
/// yields the leaf `EOF`, elsewhere it fails, and it never moves the cursor. This
/// holds whatever the cursor and the open rules.
pub proof fn lemma_end_of_input(env: Env, frame: Frame, c: int)
    ensures
        env.eval_atom(frame, Atom::EndOfInput, c).out is Success <==> c == env.src.len(),
        c == env.src.len() ==> env.eval_atom(frame, Atom::EndOfInput, c).out
            == Fallible::<Node, Diagnostic>::Success(frame.node(Grouping::Terminal("EOF"@))),
        c != env.src.len() ==> env.eval_atom(frame, Atom::EndOfInput, c).out is Failure,
        env.eval_atom(frame, Atom::EndOfInput, c).end == c,
{
}

/// A reference to a rule that the grammar does not define fails as a reference to
/// an unknown rule and leaves the cursor where it was, whatever the cursor and the
/// open rules.
pub proof fn lemma_unknown_rule(env: Env, frame: Frame, name: Seq<char>, c: int)
    requires
        env.grammar.find(name) is None,
    ensures
        env.eval_atom(frame, Atom::Rule(name), c) == (Step {
            out: Fallible::Failure(Diagnostic::UnknownNonTerminal(name)),
            end: c,
        }),
{
}

/// A sequence whose last item demands the end of the input and that yields a node
/// from its item `k` on ends at the end of the input.
pub proof fn lemma_seq_reaches_end(
    env: Env,
    frame: Frame,
    es: Seq<Expr>,
    start: int,
    k: int,
    c: int,
    children: Seq<Node>,
    errs: Seq<Diagnostic>,
)
    requires
        0 <= c <= env.src.len(),
        0 <= k < es.len(),
        es[es.len() - 1].ends_input(),
    ensures
        ({
            let step = env.eval_seq(frame, es, start, k, c, children, errs);
            step.node() is Some ==> step.end == env.src.len()
        }),
    decreases env.remaining(c), env.budget(frame.descent, c), es, es.len() - k,
{
    let step = env.eval(frame, es[k], c);
    let next = env.settle(c, step.end);
    if k == es.len() - 1 {
        lemma_reaches_end(env, frame, es[k], c);
        match step.out {
            Fallible::Success(n) => {
                assert(env.eval_seq(frame, es, start, k + 1, next, children.push(n), errs).end
                    == next || env.eval_seq(
                    frame,
                    es,
                    start,
                    k + 1,
                    next,
                    children.push(n),
                    errs,
                ).node() is None);
            },
            Fallible::Recovered(n, d) => {
                assert(env.eval_seq(
                    frame,
                    es,
                    start,
                    k + 1,
                    next,
                    children.push(n),
                    errs.push(d),
                ).end == next || env.eval_seq(
                    frame,
                    es,
                    start,
                    k + 1,
                    next,
                    children.push(n),
                    errs.push(d),
                ).node() is None);
            },
            Fallible::Failure(_) => {},
        }
    } else {
        match step.out {
            Fallible::Success(n) => {
                lemma_seq_reaches_end(env, frame, es, start, k + 1, next, children.push(n), errs);
            },
            Fallible::Recovered(n, d) => {
                lemma_seq_reaches_end(
                    env,
                    frame,
                    es,
                    start,
                    k + 1,
                    next,
                    children.push(n),
                    errs.push(d),
                );
            },
            Fallible::Failure(_) => {},
        }
    }
}

/// Reaching the end: where an expression that demands the end of the input as the
/// last thing it matches yields a node, the cursor stands at the end of the input.
pub proof fn lemma_reaches_end(env: Env, frame: Frame, e: Expr, c: int)
    requires
        0 <= c <= env.src.len(),
        e.ends_input(),
    ensures
        env.eval(frame, e, c).node() is Some ==> env.eval(frame, e, c).end == env.src.len(),
    decreases env.remaining(c), env.budget(frame.descent, c), e, 1nat,
{
    match e {
        Expr::Atomic(a) => {
            lemma_end_of_input(env, frame, c);
        },
        Expr::Sequence(es) => {
            lemma_seq_reaches_end(env, frame, es, c, 0, c, Seq::empty(), Seq::empty());
        },
        _ => {},
    }
}

/// One diagnostic is no further than another, and where it is as far, the other
/// expects all that it expects.
pub open spec fn no_further(d: Diagnostic, than: Diagnostic) -> bool {
    &&& d is BadMatch
    &&& d.position() <= than.position()
    &&& d.position() == than.position() ==> forall|x: Seq<char>| #[trigger]
        d.expectations().to_set().contains(x) ==> than.expectations().to_set().contains(x)
}

/// Where a choice fails with a mismatch from its alternative `k` on, none of the
/// failures before `k` is further than that mismatch.
proof fn lemma_choice_keeps_furthest(
    env: Env,
    frame: Frame,
    es: Seq<Expr>,
    c: int,
    k: int,
    errs: Seq<Diagnostic>,
    j: int,
)
    requires
        0 <= c <= env.src.len(),
        0 <= k,
        env.grammar.well_formed(),
        es.len() >= 1,
        forall|i: int| 0 <= i < es.len() ==> (#[trigger] es[i]).well_formed(),
        env.all_in_order(c, errs),
        k > 0 ==> errs.len() > 0,
        0 <= j < errs.len(),
        env.eval_choice(frame, es, c, k, errs).out matches Fallible::Failure(d) && d is BadMatch,
    ensures
        no_further(errs[j], env.eval_choice(frame, es, c, k, errs).out->Failure_0),
    decreases es.len() - k,
{
    if k < es.len() {
        lemma_eval_sound(env, frame, es[k], c);
        let step = env.eval(frame, es[k], c);
        match step.out {
            Fallible::Success(_) => {},
            Fallible::Recovered(_, _) => {},
            Fallible::Failure(d) => {
                lemma_push_in_order(env, c, errs, d);
                lemma_choice_keeps_furthest(env, frame, es, c, k + 1, errs.push(d), j);
            },
        }
    } else {
        if exists|i: int| 0 <= i < errs.len() && (#[trigger] errs[i]).is_fault() {
            let i = choose|i: int| 0 <= i < errs.len() && (#[trigger] errs[i]).is_fault();
            lemma_merged_keeps_fault(errs, i);
        }
        assert forall|i: int| 0 <= i < errs.len() implies !(#[trigger] errs[i]).is_fault()
            && errs[i].position() >= 0 by {
            assert(env.in_order(c, errs[i]));
        }
        lemma_merged_is_furthest(errs);
    }
}

/// Where a choice fails with a mismatch from its alternative `k` on, every
/// alternative from `k` on failed with a mismatch that is no further.
proof fn lemma_choice_trace(
    env: Env,
    frame: Frame,
    es: Seq<Expr>,
    c: int,
    k: int,
    errs: Seq<Diagnostic>,
    i: int,
)
    requires
        0 <= c <= env.src.len(),
        0 <= k <= i < es.len(),
        env.grammar.well_formed(),
        forall|i: int| 0 <= i < es.len() ==> (#[trigger] es[i]).well_formed(),
        env.all_in_order(c, errs),
        k > 0 ==> errs.len() > 0,
        env.eval_choice(frame, es, c, k, errs).out matches Fallible::Failure(d) && d is BadMatch,
    ensures
        env.eval(frame, es[i], c).out is Failure,
        no_further(
            env.eval(frame, es[i], c).out->Failure_0,
            env.eval_choice(frame, es, c, k, errs).out->Failure_0,
        ),
    decreases es.len() - k,
{
    lemma_eval_sound(env, frame, es[k], c);
    let step = env.eval(frame, es[k], c);
    match step.out {
        Fallible::Success(_) => {},
        Fallible::Recovered(_, _) => {},
        Fallible::Failure(d) => {
            lemma_push_in_order(env, c, errs, d);
            if k < i {
                lemma_choice_trace(env, frame, es, c, k + 1, errs.push(d), i);
            } else {
                lemma_choice_keeps_furthest(
                    env,
                    frame,
                    es,
                    c,
                    k + 1,
                    errs.push(d),
                    errs.len() as int,
                );
            }
        },
    }
}

/// The furthest failure wins: where a choice fails with a mismatch, each of its
/// alternatives failed with a mismatch, none of them got further than the one
/// reported, and what those that got as far expected is among what is reported as
/// expected.
pub proof fn lemma_choice_reports_furthest(env: Env, frame: Frame, es: Seq<Expr>, c: int, i: int)
    requires
        0 <= c <= env.src.len(),
        env.grammar.well_formed(),
        Expr::Choice(es).well_formed(),
        0 <= i < es.len(),
        env.eval(frame, Expr::Choice(es), c).out matches Fallible::Failure(d) && d is BadMatch,
    ensures
        env.eval(frame, es[i], c).out is Failure,
        no_further(
            env.eval(frame, es[i], c).out->Failure_0,
            env.eval(frame, Expr::Choice(es), c).out->Failure_0,
        ),
{
    assert(Expr::Choice(es)->Choice_0 == es);
    lemma_choice_trace(env, frame, es, c, 0, Seq::empty(), i);
}

/// The diagnostic of a failed parse is in order: a mismatch points into the input
/// and names, in ascending order, at least one thing that it expected there.
pub proof fn lemma_parse_result_in_order(g: Grammar, src: Seq<u8>)
    requires
        g.well_formed(),
    ensures
        parse_result(g, src) matches Err(d) ==> (Env { grammar: g, src }).in_order(0, d),
{
    match g.find(g.start) {
        None => {},
        Some(i) => {
            lemma_last_definition(g.rules, g.start, g.rules.len() as int);
            let env = Env { grammar: g, src };
            lemma_eval_sound(env, first_frame(g, g.rules[i].capture), g.rules[i].expr, 0);
        },
    }
}

/// A parse whose start rule demands the end of the input as the last thing it
/// matches yields a tree only if it consumed the whole input.
pub proof fn lemma_parse_reaches_end(g: Grammar, src: Seq<u8>)
    requires
        g.find(g.start) is Some,
        g.rules[g.find(g.start)->Some_0].expr.ends_input(),
    ensures
        parse_result(g, src) is Ok ==> ({
            let rule = g.rules[g.find(g.start)->Some_0];
            (Env { grammar: g, src }).eval(first_frame(g, rule.capture), rule.expr, 0).end
                == src.len()
        }),
{
    let rule = g.rules[g.find(g.start)->Some_0];
    lemma_reaches_end(Env { grammar: g, src }, first_frame(g, rule.capture), rule.expr, 0);
}

} // verus!
