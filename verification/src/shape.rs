//! The tree mirrors the expression: what the node of an expression looks like, and
//! where its parts were matched.

use vstd::prelude::*;
use vstd::utf8::{encode_utf8, encode_utf8_decode_utf8, encode_utf8_valid_utf8, valid_utf8};
use crate::error::Diagnostic;
use crate::expr::{Atom, Expr};
use crate::laws::lemma_eval_sound;
use crate::outcome::Fallible;
use crate::parser::{lemma_last_definition, Grammar};
use crate::semantics::{first_frame, parse_result, pattern_step, Descent, Env, Frame};
use crate::text::{has_prefix_at, lemma_prefix_keeps_boundary, on_boundary, text_between};
use crate::tree::{Grouping, Node};

verus! {

impl Env {
    /// The cursor before item `j` of a sequence whose item `k` is evaluated at `c`.
    pub open spec fn cursor_at(self, frame: Frame, es: Seq<Expr>, k: int, c: int, j: int) -> int
        decreases j - k,
    {
        if j <= k {
            c
        } else {
            let before = self.cursor_at(frame, es, k, c, j - 1);
            self.settle(before, self.eval(frame, es[j - 1], before).end)
        }
    }

    /// The node of item `j` of a sequence whose item `k` is evaluated at `c`.
    pub open spec fn item_node(self, frame: Frame, es: Seq<Expr>, k: int, c: int, j: int) -> Option<
        Node,
    > {
        self.eval(frame, es[j], self.cursor_at(frame, es, k, c, j)).node()
    }

    /// The expression yields the node `n` at some cursor from `c` on, which is a
    /// cut point of the text if `c` is one.
    pub open spec fn yields_from(self, frame: Frame, e: Expr, c: int, n: Node) -> bool {
        exists|at: int|
            c <= at <= self.src.len() && (self.cut_at(c) ==> self.cut_at(at)) && (
            #[trigger] self.eval(frame, e, at)).node() == Some(n)
    }

    /// The text is well formed and the cursor is a cut point of it.
    pub open spec fn cut_at(self, c: int) -> bool {
        valid_utf8(self.src) && on_boundary(self.src, c)
    }
}

/// A literal that matches yields its own text and moves the cursor by its length.
pub proof fn lemma_literal_matched(env: Env, frame: Frame, t: Seq<char>, c: int)
    ensures
        ({
            let step = env.eval_atom(frame, Atom::Literal(t), c);
            step.node() is Some ==> {
                &&& step.out == Fallible::<Node, Diagnostic>::Success(
                    frame.node(Grouping::Terminal(t)),
                )
                &&& step.end == c + encode_utf8(t).len()
                &&& has_prefix_at(env.src, c, encode_utf8(t))
            }
        }),
{
    encode_utf8_decode_utf8(t);
}

/// Where evaluation begins at a cut point of a well-formed text, it ends at one.
pub proof fn lemma_eval_atom_cut(env: Env, frame: Frame, a: Atom, c: int)
    requires
        env.cut_at(c),
        env.grammar.well_formed(),
    ensures
        env.cut_at(env.eval_atom(frame, a, c).end),
    decreases env.remaining(c), env.budget(frame.descent, c), Expr::Atomic(a), 0nat,
{
    match a {
        Atom::Literal(t) => {
            if has_prefix_at(env.src, c, encode_utf8(t)) {
                encode_utf8_valid_utf8(t);
                lemma_prefix_keeps_boundary(env.src, c, encode_utf8(t));
            }
        },
        Atom::Rule(name) => {
            match env.grammar.find(name) {
                None => {},
                Some(i) => {
                    let used = frame.descent.at_cursor(c);
                    if used >= env.grammar.rules.len() || !(0 <= i < env.grammar.rules.len()) {
                    } else {
                        let rule = env.grammar.rules[i];
                        let inner = Frame {
                            capture: rule.capture,
                            stack: frame.stack.push(name),
                            descent: Descent { count: used + 1, at: c },
                        };
                        lemma_eval_cut(env, inner, rule.expr, c);
                    }
                },
            }
        },
        _ => {},
    }
}

/// Where evaluation begins at a cut point of a well-formed text, it ends at one.
pub proof fn lemma_eval_cut(env: Env, frame: Frame, e: Expr, c: int)
    requires
        env.cut_at(c),
        env.grammar.well_formed(),
        e.well_formed(),
    ensures
        env.cut_at(env.eval(frame, e, c).end),
    decreases env.remaining(c), env.budget(frame.descent, c), e, 1nat,
{
    match e {
        Expr::Atomic(a) => {
            lemma_eval_atom_cut(env, frame, a, c);
        },
        Expr::Sequence(es) => {
            lemma_eval_seq_cut(env, frame, es, c, 0, c, Seq::empty(), Seq::empty());
        },
        Expr::Choice(es) => {
            lemma_eval_choice_cut(env, frame, es, c, 0, Seq::empty());
        },
        Expr::ZeroOrMore(body) => {
            lemma_eval_rep_cut(env, frame, *body, c, c, Seq::empty(), Seq::empty());
        },
        Expr::OneOrMore(body) => {
            lemma_eval_cut(env, frame, *body, c);
            lemma_eval_sound(env, frame, *body, c);
            let first = env.eval(frame, *body, c);
            match first.out {
                Fallible::Success(n) => {
                    lemma_eval_rep_cut(env, frame, *body, c, first.end, seq![n], Seq::empty());
                },
                Fallible::Recovered(n, _) => {
                    lemma_eval_rep_cut(env, frame, *body, c, first.end, seq![n], Seq::empty());
                },
                Fallible::Failure(_) => {},
            }
        },
        Expr::Optional(body) => {
            lemma_eval_cut(env, frame, *body, c);
        },
    }
}

/// A sequence that is evaluated from cut points ends at one.
pub proof fn lemma_eval_seq_cut(
    env: Env,
    frame: Frame,
    es: Seq<Expr>,
    start: int,
    k: int,
    c: int,
    children: Seq<Node>,
    errs: Seq<Diagnostic>,
)
    requires
        env.cut_at(start),
        env.cut_at(c),
        0 <= k,
        env.grammar.well_formed(),
        forall|i: int| 0 <= i < es.len() ==> (#[trigger] es[i]).well_formed(),
    ensures
        env.cut_at(env.eval_seq(frame, es, start, k, c, children, errs).end),
    decreases env.remaining(c), env.budget(frame.descent, c), es, es.len() - k,
{
    if k < es.len() {
        lemma_eval_cut(env, frame, es[k], c);
        lemma_eval_sound(env, frame, es[k], c);
        let step = env.eval(frame, es[k], c);
        match step.out {
            Fallible::Success(n) => {
                lemma_eval_seq_cut(env, frame, es, start, k + 1, step.end, children.push(n), errs);
            },
            Fallible::Recovered(n, d) => {
                lemma_eval_seq_cut(
                    env,
                    frame,
                    es,
                    start,
                    k + 1,
                    step.end,
                    children.push(n),
                    errs.push(d),
                );
            },
            Fallible::Failure(_) => {},
        }
    }
}

/// A choice that is evaluated at a cut point ends at one.
pub proof fn lemma_eval_choice_cut(
    env: Env,
    frame: Frame,
    es: Seq<Expr>,
    c: int,
    k: int,
    errs: Seq<Diagnostic>,
)
    requires
        env.cut_at(c),
        0 <= k,
        env.grammar.well_formed(),
        forall|i: int| 0 <= i < es.len() ==> (#[trigger] es[i]).well_formed(),
    ensures
        env.cut_at(env.eval_choice(frame, es, c, k, errs).end),
    decreases env.remaining(c), env.budget(frame.descent, c), es, es.len() - k,
{
    if k < es.len() {
        lemma_eval_cut(env, frame, es[k], c);
        let step = env.eval(frame, es[k], c);
        match step.out {
            Fallible::Failure(d) => {
                lemma_eval_choice_cut(env, frame, es, c, k + 1, errs.push(d));
            },
            _ => {},
        }
    }
}

/// A repetition that is evaluated from cut points ends at one.
pub proof fn lemma_eval_rep_cut(
    env: Env,
    frame: Frame,
    body: Expr,
    start: int,
    c: int,
    children: Seq<Node>,
    errs: Seq<Diagnostic>,
)
    requires
        env.cut_at(start),
        env.cut_at(c),
        env.grammar.well_formed(),
        body.well_formed(),
    ensures
        env.cut_at(env.eval_rep(frame, body, start, c, children, errs).end),
    decreases env.remaining(c), env.budget(frame.descent, c), body, 2nat,
{
    lemma_eval_cut(env, frame, body, c);
    lemma_eval_sound(env, frame, body, c);
    let step = env.eval(frame, body, c);
    match step.out {
        Fallible::Success(n) => {
            if step.end > c {
                lemma_eval_rep_cut(env, frame, body, start, step.end, children.push(n), errs);
            }
        },
        Fallible::Recovered(n, d) => {
            if step.end > c {
                lemma_eval_rep_cut(
                    env,
                    frame,
                    body,
                    start,
                    step.end,
                    children.push(n),
                    errs.push(d),
                );
            }
        },
        Fallible::Failure(_) => {},
    }
}

/// The cursors between the items of a sequence lie within the input, in order, at
/// cut points.
pub proof fn lemma_cursor_at(env: Env, frame: Frame, es: Seq<Expr>, k: int, c: int, j: int)
    requires
        0 <= k <= j <= es.len(),
        0 <= c <= env.src.len(),
        env.grammar.well_formed(),
        forall|i: int| 0 <= i < es.len() ==> (#[trigger] es[i]).well_formed(),
    ensures
        c <= env.cursor_at(frame, es, k, c, j) <= env.src.len(),
        env.cut_at(c) ==> env.cut_at(env.cursor_at(frame, es, k, c, j)),
        j > k ==> env.cursor_at(frame, es, k, c, j - 1) <= env.cursor_at(frame, es, k, c, j),
    decreases j - k,
{
    if j > k {
        lemma_cursor_at(env, frame, es, k, c, j - 1);
        let before = env.cursor_at(frame, es, k, c, j - 1);
        lemma_eval_sound(env, frame, es[j - 1], before);
        if env.cut_at(c) {
            lemma_eval_cut(env, frame, es[j - 1], before);
        }
    }
}

/// The cursors of a sequence from item `k + 1` on are those from item `k` on.
proof fn lemma_cursor_at_shift(env: Env, frame: Frame, es: Seq<Expr>, k: int, c: int, j: int)
    requires
        0 <= k < j,
    ensures
        env.cursor_at(frame, es, k, c, j) == env.cursor_at(
            frame,
            es,
            k + 1,
            env.settle(c, env.eval(frame, es[k], c).end),
            j,
        ),
    decreases j - k,
{
    if j > k + 1 {
        lemma_cursor_at_shift(env, frame, es, k, c, j - 1);
    } else {
        assert(env.cursor_at(frame, es, k, c, k) == c);
    }
}

/// A sequence that yields a node matched each of its items where the one before
/// ended, and its node holds their nodes in order (or, in a capturing rule, the
/// text from where it began to where it ended).
pub proof fn lemma_seq_trace(
    env: Env,
    frame: Frame,
    es: Seq<Expr>,
    start: int,
    k: int,
    c: int,
    children: Seq<Node>,
    errs: Seq<Diagnostic>,
)
    requires
        0 <= k <= es.len(),
        env.eval_seq(frame, es, start, k, c, children, errs).node() is Some,
    ensures
        ({
            let step = env.eval_seq(frame, es, start, k, c, children, errs);
            let n = step.node()->Some_0;
            &&& step.end == env.cursor_at(frame, es, k, c, es.len() as int)
            &&& forall|j: int| k <= j < es.len() ==> (#[trigger] env.item_node(frame, es, k, c, j)) is Some
            &&& n.rule == frame.rule()
            &&& frame.capture ==> n.out == Grouping::Terminal(text_between(env.src, start, step.end))
            &&& !frame.capture ==> {
                &&& n.out is Sequence
                &&& n.out->Sequence_0.len() == children.len() + es.len() - k
                &&& forall|i: int| 0 <= i < children.len() ==> n.out->Sequence_0[i] == children[i]
                &&& forall|i: int|
                    children.len() <= i < n.out->Sequence_0.len() ==> Some(
                        #[trigger] n.out->Sequence_0[i],
                    ) == env.item_node(frame, es, k, c, k + i - children.len())
            }
        }),
    decreases es.len() - k,
{
    if k < es.len() {
        let step = env.eval(frame, es[k], c);
        let next = env.settle(c, step.end);
        let child = step.node()->Some_0;
        let more = if step.out is Recovered {
            errs.push(step.out->Recovered_1)
        } else {
            errs
        };
        lemma_seq_trace(env, frame, es, start, k + 1, next, children.push(child), more);
        let whole = env.eval_seq(frame, es, start, k, c, children, errs);
        let n = whole.node()->Some_0;
        assert(env.cursor_at(frame, es, k, c, k) == c);
        assert forall|j: int| k < j <= es.len() implies env.cursor_at(frame, es, k, c, j)
            == env.cursor_at(frame, es, k + 1, next, j) by {
            lemma_cursor_at_shift(env, frame, es, k, c, j);
        }
        assert forall|j: int| k <= j < es.len() implies (#[trigger] env.item_node(
            frame,
            es,
            k,
            c,
            j,
        )) is Some by {
            if j > k {
                assert(env.item_node(frame, es, k + 1, next, j) is Some);
            }
        }
        if !frame.capture {
            let full = n.out->Sequence_0;
            assert forall|i: int| 0 <= i < children.len() implies full[i] == children[i] by {
                assert(children.push(child)[i] == children[i]);
            }
            assert forall|i: int| children.len() <= i < full.len() implies Some(#[trigger] full[i])
                == env.item_node(frame, es, k, c, k + i - children.len()) by {
                if i > children.len() {
                    assert(Some(full[i]) == env.item_node(
                        frame,
                        es,
                        k + 1,
                        next,
                        k + 1 + i - children.push(child).len(),
                    ));
                } else {
                    assert(full[i] == children.push(child)[i]);
                }
            }
        }
    }
}

/// A choice that yields a node wraps the node of one of its alternatives.
pub proof fn lemma_choice_trace_node(
    env: Env,
    frame: Frame,
    es: Seq<Expr>,
    c: int,
    k: int,
    errs: Seq<Diagnostic>,
)
    requires
        0 <= k,
        env.eval_choice(frame, es, c, k, errs).node() is Some,
    ensures
        exists|j: int|
            k <= j < es.len() && (#[trigger] env.eval(frame, es[j], c)).node() is Some
                && env.eval_choice(frame, es, c, k, errs).node()->Some_0 == frame.node(
                Grouping::Out(Box::new(env.eval(frame, es[j], c).node()->Some_0)),
            ) && env.eval_choice(frame, es, c, k, errs).end == env.eval(frame, es[j], c).end,
    decreases es.len() - k,
{
    if k < es.len() {
        let step = env.eval(frame, es[k], c);
        match step.out {
            Fallible::Failure(d) => {
                lemma_choice_trace_node(env, frame, es, c, k + 1, errs.push(d));
                let j = choose|j: int|
                    k + 1 <= j < es.len() && (#[trigger] env.eval(frame, es[j], c)).node() is Some
                        && env.eval_choice(frame, es, c, k + 1, errs.push(d)).node()->Some_0
                        == frame.node(
                        Grouping::Out(Box::new(env.eval(frame, es[j], c).node()->Some_0)),
                    ) && env.eval_choice(frame, es, c, k + 1, errs.push(d)).end == env.eval(
                        frame,
                        es[j],
                        c,
                    ).end;
                assert(k <= j < es.len() && env.eval(frame, es[j], c).node() is Some);
            },
            _ => {
                assert(env.eval(frame, es[k], c).node() is Some);
            },
        }
    }
}

/// A repetition that yields a node outside a capturing rule holds the children it
/// began with and after them a node of its body for every round it kept, each
/// matched at a cursor between where the repetition stood and the end of the input.
pub proof fn lemma_rep_trace(
    env: Env,
    frame: Frame,
    body: Expr,
    start: int,
    c: int,
    children: Seq<Node>,
    errs: Seq<Diagnostic>,
)
    requires
        !frame.capture,
        0 <= c <= env.src.len(),
        env.grammar.well_formed(),
        body.well_formed(),
        env.eval_rep(frame, body, start, c, children, errs).node() is Some,
    ensures
        ({
            let n = env.eval_rep(frame, body, start, c, children, errs).node()->Some_0;
            &&& n.rule == frame.rule()
            &&& n.out is Sequence
            &&& n.out->Sequence_0.len() >= children.len()
            &&& forall|j: int| 0 <= j < children.len() ==> n.out->Sequence_0[j] == children[j]
            &&& forall|j: int|
                children.len() <= j < n.out->Sequence_0.len() ==> env.yields_from(
                    frame,
                    body,
                    c,
                    #[trigger] n.out->Sequence_0[j],
                )
        }),
    decreases env.remaining(c), env.budget(frame.descent, c), body, 2nat,
{
    let step = env.eval(frame, body, c);
    let next = env.settle(c, step.end);
    if step.node() is Some && next > c {
        if env.cut_at(c) {
            lemma_eval_cut(env, frame, body, c);
        }
        let child = step.node()->Some_0;
        let more = if step.out is Recovered {
            errs.push(step.out->Recovered_1)
        } else {
            errs
        };
        lemma_rep_trace(env, frame, body, start, next, children.push(child), more);
        let n = env.eval_rep(frame, body, start, c, children, errs).node()->Some_0;
        let full = n.out->Sequence_0;
        assert forall|j: int| 0 <= j < children.len() implies full[j] == children[j] by {
            assert(children.push(child)[j] == children[j]);
        }
        assert forall|j: int| children.len() <= j < full.len() implies env.yields_from(
            frame,
            body,
            c,
            #[trigger] full[j],
        ) by {
            if j == children.len() {
                assert(full[j] == children.push(child)[j]);
                assert(env.eval(frame, body, c).node() == Some(full[j]));
            } else {
                assert(env.yields_from(frame, body, next, full[j]));
                let at = choose|at: int|
                    next <= at <= env.src.len() && (env.cut_at(next) ==> env.cut_at(at)) && (
                    #[trigger] env.eval(frame, body, at)).node() == Some(full[j]);
                assert(c <= at <= env.src.len() && env.eval(frame, body, at).node() == Some(full[j]));
            }
        }
    }
}

impl Env {
    /// The text is the mark of the end of input, or a stretch of the input within
    /// `[a, b]`.
    pub open spec fn text_within(self, t: Seq<char>, a: int, b: int) -> bool {
        t == "EOF"@ || exists|i: int, j: int|
            a <= i <= j <= b && #[trigger] text_between(self.src, i, j) == t
    }

    /// Every leaf of the node is the mark of the end of input, or a stretch of the
    /// input within `[a, b]`.
    pub open spec fn node_within(self, n: Node, a: int, b: int) -> bool
        decreases n, 1nat,
    {
        self.grouping_within(n.out, a, b)
    }

    /// Every leaf of the grouping is the mark of the end of input, or a stretch of
    /// the input within `[a, b]`.
    pub open spec fn grouping_within(self, g: Grouping, a: int, b: int) -> bool
        decreases g, 0nat,
    {
        match g {
            Grouping::Terminal(t) => self.text_within(t, a, b),
            Grouping::Sequence(ts) => {
                &&& ts.len() >= 0
                &&& forall|k: int| 0 <= k < ts.len() ==> self.node_within(#[trigger] ts[k], a, b)
            },
            Grouping::Optional(None) => true,
            Grouping::Optional(Some(inner)) => self.grouping_within(*inner, a, b),
            Grouping::Out(m) => self.node_within(*m, a, b),
        }
    }

    /// Every one of the nodes lies within `[a, b]`.
    pub open spec fn all_within(self, ns: Seq<Node>, a: int, b: int) -> bool {
        forall|k: int| 0 <= k < ns.len() ==> self.node_within(#[trigger] ns[k], a, b)
    }
}

/// What lies within a stretch lies within every stretch around it.
pub proof fn lemma_within_wider(env: Env, g: Grouping, a: int, b: int, wide_a: int, wide_b: int)
    requires
        wide_a <= a,
        b <= wide_b,
        env.grouping_within(g, a, b),
    ensures
        env.grouping_within(g, wide_a, wide_b),
    decreases g,
{
    reveal_with_fuel(Env::grouping_within, 2);
    reveal_with_fuel(Env::node_within, 2);
    match g {
        Grouping::Terminal(t) => {
            assert(env.text_within(t, a, b));
            if t != "EOF"@ {
                let (i, j) = choose|i: int, j: int|
                    a <= i <= j <= b && #[trigger] text_between(env.src, i, j) == t;
                assert(wide_a <= i <= j <= wide_b && text_between(env.src, i, j) == t);
            }
            assert(env.text_within(t, wide_a, wide_b));
        },
        Grouping::Sequence(ts) => {
            assert forall|k: int| 0 <= k < ts.len() implies env.node_within(
                #[trigger] ts[k],
                wide_a,
                wide_b,
            ) by {
                assert(env.node_within(ts[k], a, b));
                lemma_within_wider(env, ts[k].out, a, b, wide_a, wide_b);
            }
        },
        Grouping::Optional(None) => {},
        Grouping::Optional(Some(inner)) => {
            lemma_within_wider(env, *inner, a, b, wide_a, wide_b);
        },
        Grouping::Out(m) => {
            lemma_within_wider(env, m.out, a, b, wide_a, wide_b);
        },
    }
}

/// Nodes that lie within a stretch, and one more that lies within a stretch that
/// follows, lie within the two together.
proof fn lemma_push_within(env: Env, ns: Seq<Node>, n: Node, a: int, b: int, c: int)
    requires
        a <= b <= c,
        env.all_within(ns, a, b),
        env.node_within(n, b, c),
    ensures
        env.all_within(ns.push(n), a, c),
{
    assert forall|k: int| 0 <= k < ns.push(n).len() implies env.node_within(
        #[trigger] ns.push(n)[k],
        a,
        c,
    ) by {
        if k < ns.len() {
            assert(env.node_within(ns[k], a, b));
            lemma_within_wider(env, ns[k].out, a, b, a, c);
        } else {
            lemma_within_wider(env, n.out, b, c, a, c);
        }
    }
}

/// The node of a sequence or repetition that matched `[start, end]` lies within it
/// if its children do.
proof fn lemma_grouped_within(env: Env, frame: Frame, start: int, end: int, children: Seq<Node>)
    requires
        start <= end,
        env.all_within(children, start, end),
    ensures
        env.node_within(env.grouped(frame, start, end, children), start, end),
{
    if frame.capture {
        assert(start <= start <= end <= end && text_between(env.src, start, end) == text_between(
            env.src,
            start,
            end,
        ));
    } else {
        assert(Grouping::Sequence(children)->Sequence_0 == children);
    }
}

/// The leaves of what an atomic expression yields lie within what it consumed.
pub proof fn lemma_eval_atom_within(env: Env, frame: Frame, a: Atom, c: int)
    requires
        0 <= c <= env.src.len(),
        env.grammar.well_formed(),
    ensures
        env.eval_atom(frame, a, c).node() matches Some(n) ==> env.node_within(
            n,
            c,
            env.eval_atom(frame, a, c).end,
        ),
    decreases env.remaining(c), env.budget(frame.descent, c), Expr::Atomic(a), 0nat,
{
    let step = env.eval_atom(frame, a, c);
    match a {
        Atom::Literal(t) => {
            if step.node() is Some {
                assert(c <= c <= step.end <= step.end && text_between(env.src, c, step.end)
                    == text_between(env.src, c, step.end));
            }
        },
        Atom::Pattern(p) => {
            if step.node() is Some {
                assert(c <= c <= step.end <= step.end && text_between(env.src, c, step.end)
                    == text_between(env.src, c, step.end));
            }
        },
        Atom::EndOfInput => {},
        Atom::Rule(name) => {
            match env.grammar.find(name) {
                None => {},
                Some(i) => {
                    let used = frame.descent.at_cursor(c);
                    if used >= env.grammar.rules.len() || !(0 <= i < env.grammar.rules.len()) {
                    } else {
                        let rule = env.grammar.rules[i];
                        let inner = Frame {
                            capture: rule.capture,
                            stack: frame.stack.push(name),
                            descent: Descent { count: used + 1, at: c },
                        };
                        lemma_eval_within(env, inner, rule.expr, c);
                    }
                },
            }
        },
    }
}

/// The leaves of what an expression yields lie within what it consumed: each is a
/// stretch of the input between the cursor before and the cursor after, or the
/// mark of the end of input.
pub proof fn lemma_eval_within(env: Env, frame: Frame, e: Expr, c: int)
    requires
        0 <= c <= env.src.len(),
        env.grammar.well_formed(),
        e.well_formed(),
    ensures
        env.eval(frame, e, c).node() matches Some(n) ==> env.node_within(
            n,
            c,
            env.eval(frame, e, c).end,
        ),
    decreases env.remaining(c), env.budget(frame.descent, c), e, 1nat,
{
    match e {
        Expr::Atomic(a) => {
            lemma_eval_atom_within(env, frame, a, c);
        },
        Expr::Sequence(es) => {
            lemma_eval_seq_within(env, frame, es, c, 0, c, Seq::empty(), Seq::empty());
        },
        Expr::Choice(es) => {
            lemma_eval_choice_within(env, frame, es, c, 0, Seq::empty());
        },
        Expr::ZeroOrMore(body) => {
            lemma_eval_rep_within(env, frame, *body, c, c, Seq::empty(), Seq::empty());
        },
        Expr::OneOrMore(body) => {
            lemma_eval_within(env, frame, *body, c);
            lemma_eval_sound(env, frame, *body, c);
            let first = env.eval(frame, *body, c);
            if first.node() is Some {
                let n = first.node()->Some_0;
                lemma_push_within(env, Seq::empty(), n, c, c, first.end);
                assert(Seq::<Node>::empty().push(n) =~= seq![n]);
                lemma_eval_rep_within(env, frame, *body, c, first.end, seq![n], Seq::empty());
            }
        },
        Expr::Optional(body) => {
            lemma_eval_within(env, frame, *body, c);
        },
    }
}

/// The leaves of what a sequence yields from its item `k` on lie within what the
/// sequence consumed, if those of the items before `k` do.
pub proof fn lemma_eval_seq_within(
    env: Env,
    frame: Frame,
    es: Seq<Expr>,
    start: int,
    k: int,
    c: int,
    children: Seq<Node>,
    errs: Seq<Diagnostic>,
)
    requires
        0 <= start <= c <= env.src.len(),
        0 <= k,
        env.grammar.well_formed(),
        forall|i: int| 0 <= i < es.len() ==> (#[trigger] es[i]).well_formed(),
        env.all_within(children, start, c),
    ensures
        env.eval_seq(frame, es, start, k, c, children, errs).node() matches Some(n)
            ==> env.node_within(n, start, env.eval_seq(frame, es, start, k, c, children, errs).end),
    decreases env.remaining(c), env.budget(frame.descent, c), es, es.len() - k,
{
    if k < es.len() {
        lemma_eval_within(env, frame, es[k], c);
        lemma_eval_sound(env, frame, es[k], c);
        let step = env.eval(frame, es[k], c);
        match step.out {
            Fallible::Success(n) => {
                lemma_push_within(env, children, n, start, c, step.end);
                lemma_eval_seq_within(env, frame, es, start, k + 1, step.end, children.push(n), errs);
            },
            Fallible::Recovered(n, d) => {
                lemma_push_within(env, children, n, start, c, step.end);
                lemma_eval_seq_within(
                    env,
                    frame,
                    es,
                    start,
                    k + 1,
                    step.end,
                    children.push(n),
                    errs.push(d),
                );
            },
            Fallible::Failure(_) => {},
        }
    } else {
        lemma_grouped_within(env, frame, start, c, children);
    }
}

/// The leaves of what a choice yields from its alternative `k` on lie within what
/// it consumed.
pub proof fn lemma_eval_choice_within(
    env: Env,
    frame: Frame,
    es: Seq<Expr>,
    c: int,
    k: int,
    errs: Seq<Diagnostic>,
)
    requires
        0 <= c <= env.src.len(),
        0 <= k,
        env.grammar.well_formed(),
        forall|i: int| 0 <= i < es.len() ==> (#[trigger] es[i]).well_formed(),
    ensures
        env.eval_choice(frame, es, c, k, errs).node() matches Some(n) ==> env.node_within(
            n,
            c,
            env.eval_choice(frame, es, c, k, errs).end,
        ),
    decreases env.remaining(c), env.budget(frame.descent, c), es, es.len() - k,
{
    if k < es.len() {
        lemma_eval_within(env, frame, es[k], c);
        let step = env.eval(frame, es[k], c);
        match step.out {
            Fallible::Failure(d) => {
                lemma_eval_choice_within(env, frame, es, c, k + 1, errs.push(d));
            },
            _ => {},
        }
    }
}

/// The leaves of what a repetition yields lie within what it consumed, if those of
/// the rounds so far do.
pub proof fn lemma_eval_rep_within(
    env: Env,
    frame: Frame,
    body: Expr,
    start: int,
    c: int,
    children: Seq<Node>,
    errs: Seq<Diagnostic>,
)
    requires
        0 <= start <= c <= env.src.len(),
        env.grammar.well_formed(),
        body.well_formed(),
        env.all_within(children, start, c),
    ensures
        env.eval_rep(frame, body, start, c, children, errs).node() matches Some(n)
            ==> env.node_within(n, start, env.eval_rep(frame, body, start, c, children, errs).end),
    decreases env.remaining(c), env.budget(frame.descent, c), body, 2nat,
{
    lemma_eval_within(env, frame, body, c);
    lemma_eval_sound(env, frame, body, c);
    lemma_grouped_within(env, frame, start, c, children);
    let step = env.eval(frame, body, c);
    match step.out {
        Fallible::Success(n) => {
            if step.end > c {
                lemma_push_within(env, children, n, start, c, step.end);
                lemma_eval_rep_within(env, frame, body, start, step.end, children.push(n), errs);
            }
        },
        Fallible::Recovered(n, d) => {
            if step.end > c {
                lemma_push_within(env, children, n, start, c, step.end);
                lemma_eval_rep_within(
                    env,
                    frame,
                    body,
                    start,
                    step.end,
                    children.push(n),
                    errs.push(d),
                );
            }
        },
        Fallible::Failure(_) => {},
    }
}

/// The leaves of the tree of a parse are stretches of the input, or the mark of the
/// end of input.
pub proof fn lemma_parse_result_within(g: Grammar, src: Seq<u8>)
    requires
        g.well_formed(),
    ensures
        parse_result(g, src) matches Ok(tree) ==> (Env { grammar: g, src }).node_within(
            tree,
            0,
            src.len() as int,
        ),
{
    match g.find(g.start) {
        None => {},
        Some(i) => {
            lemma_last_definition(g.rules, g.start, g.rules.len() as int);
            let env = Env { grammar: g, src };
            let frame = first_frame(g, g.rules[i].capture);
            lemma_eval_within(env, frame, g.rules[i].expr, 0);
            lemma_eval_sound(env, frame, g.rules[i].expr, 0);
            let step = env.eval(frame, g.rules[i].expr, 0);
            if step.node() is Some {
                lemma_within_wider(env, step.node()->Some_0.out, 0, step.end, 0, src.len() as int);
            }
        },
    }
}

} // verus!
