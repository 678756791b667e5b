//! The evaluator: running a grammar expression over an input.

use vstd::pervasive::unreached;
use vstd::prelude::*;
use vstd::string::StringExecFns;
use vstd::string::StringSliceAdditionalSpecFns;
use vstd::utf8::{encode_utf8_valid_utf8, is_char_boundary};
use crate::engine::{compile, find, pattern_compiles};
use crate::error::{
    diagnostics, lemma_first_fault, message, push_quoted, quoted, texts, Diagnostic, ParseError,
};
use crate::expr::{
    contents, lemma_usable_choice, lemma_usable_sequence, Atom, AtomicExpr, Expr, ParseExpr,
};
use crate::laws::{
    lemma_eval_atom_sound, lemma_eval_sound, lemma_merged_in_order, lemma_parse_result_in_order,
    lemma_push_in_order,
};
use crate::outcome::Fallible;
use crate::parser::{rule_def, Grammar, Parser};
use crate::semantics::{parse_result, pattern_step, Descent, Env, Frame, Step};
use crate::shape::{lemma_eval_within, lemma_parse_result_within};
use crate::text::{
    begins_with, byte_len, lemma_boundary_agrees, lemma_ends_on_boundary, lemma_prefix_keeps_boundary,
    on_boundary, slice,
};
use crate::tree::{nodes, Node, ParseGrouping, ParseOut};

verus! {

/// The content of an evaluator's outcome.
pub open spec fn outcome_view<'a>(r: Fallible<ParseOut<'a>, ParseError<&'a str>>) -> Fallible<
    Node,
    Diagnostic,
> {
    match r {
        Fallible::Success(t) => Fallible::Success(t@),
        Fallible::Recovered(t, e) => Fallible::Recovered(t@, e@),
        Fallible::Failure(e) => Fallible::Failure(e@),
    }
}

/// What stays the same throughout a parse of `source` with `parser`.
pub open spec fn env_of<'a>(parser: &Parser<'a>, source: &'a str) -> Env {
    Env { grammar: parser@, src: source.spec_bytes() }
}

/// The frame of an evaluation with the open rules `rules`, of which `entered` were
/// entered while the cursor stood at `entered_at`.
pub open spec fn frame_of<'a>(
    rules: Seq<&'a str>,
    capture: bool,
    entered: usize,
    entered_at: usize,
) -> Frame {
    Frame {
        capture,
        stack: texts(rules),
        descent: Descent { count: entered as nat, at: entered_at as int },
    }
}

/// A copy of a list of names.
fn copy_names<'a>(v: &Vec<&'a str>) -> (r: Vec<&'a str>)
    ensures
        r@ == v@,
{
    let mut r: Vec<&'a str> = Vec::new();
    let mut i: usize = 0;
    while i < v.len()
        invariant
            i <= v.len(),
            r@ == v@.subrange(0, i as int),
        decreases v.len() - i,
    {
        r.push(v[i]);
        assert(r@ =~= v@.subrange(0, i + 1));
        i = i + 1;
    }
    assert(r@ =~= v@);
    r
}

/// The failure to match at the cursor, expecting `wanted`.
fn mismatch<'a>(
    Ghost(env): Ghost<Env>,
    Ghost(frame): Ghost<Frame>,
    source: &'a str,
    rules: &Vec<&'a str>,
    idx: usize,
    msg: String,
    wanted: &'a str,
) -> (r: Fallible<ParseOut<'a>, ParseError<&'a str>>)
    requires
        env.src == source.spec_bytes(),
        frame.stack == texts(rules@),
        idx <= env.src.len(),
    ensures
        outcome_view(r) == env.mismatch(frame, idx as int, msg@, wanted@).out,
{
    let mut wanted_list: Vec<&'a str> = Vec::new();
    wanted_list.push(wanted);
    assert(texts(wanted_list@) =~= seq![wanted@]);
    Fallible::Failure(ParseError::new_bad_match(source, &idx, msg, wanted_list, copy_names(rules)))
}

/// Ends an expression that began at `start` and produced `node`, having absorbed
/// `errors`: full success if there are none, failure (with the cursor back at
/// `start`) if a grammar fault is among them, and else the node beside their merge.
fn conclude<'a>(
    Ghost(env): Ghost<Env>,
    node: ParseOut<'a>,
    errors: Vec<ParseError<&'a str>>,
    start: usize,
    idx: &mut usize,
) -> (r: Fallible<ParseOut<'a>, ParseError<&'a str>>)
    requires
        start <= *old(idx) <= env.src.len(),
        env.all_in_order(start as int, diagnostics(errors@)),
    ensures
        outcome_view(r) == env.finish(node@, diagnostics(errors@), start as int, *old(idx) as int).out,
        *final(idx) == env.finish(node@, diagnostics(errors@), start as int, *old(idx) as int).end,
{
    let ghost ds = diagnostics(errors@);
    proof {
        lemma_first_fault(ds, ds.len() as int);
        if ds.len() > 0 {
            lemma_merged_in_order(env, start as int, ds);
        }
    }
    match ParseError::collect_furthest(errors) {
        Fallible::Success(None) => Fallible::Success(node),
        Fallible::Success(Some(e)) => Fallible::Recovered(node, e),
        Fallible::Failure(e) => {
            *idx = start;
            Fallible::Failure(e)
        },
        Fallible::Recovered(_, _) => unreached(),
    }
}

/// Fails an expression that began at `start`, for the diagnostics `errors` of its
/// attempts, and puts the cursor back at `start`.
fn give_up<'a>(
    Ghost(env): Ghost<Env>,
    errors: Vec<ParseError<&'a str>>,
    start: usize,
    idx: &mut usize,
) -> (r: Fallible<ParseOut<'a>, ParseError<&'a str>>)
    requires
        start <= env.src.len(),
        errors@.len() > 0,
        env.all_in_order(start as int, diagnostics(errors@)),
    ensures
        outcome_view(r) == env.fail(diagnostics(errors@), start as int).out,
        *final(idx) == start,
{
    let ghost ds = diagnostics(errors@);
    proof {
        lemma_first_fault(ds, ds.len() as int);
        lemma_merged_in_order(env, start as int, ds);
    }
    *idx = start;
    match ParseError::collect_furthest(errors) {
        Fallible::Success(Some(e)) => Fallible::Failure(e),
        Fallible::Failure(e) => Fallible::Failure(e),
        _ => unreached(),
    }
}

/// Ends a sequence or repetition that matched from `start` to the cursor with the
/// children `outs`, having absorbed `errors`.
fn close<'a>(
    Ghost(env): Ghost<Env>,
    Ghost(frame): Ghost<Frame>,
    source: &'a str,
    rules: &Vec<&'a str>,
    capture: bool,
    start: usize,
    idx: &mut usize,
    outs: Vec<ParseOut<'a>>,
    errors: Vec<ParseError<&'a str>>,
) -> (r: Fallible<ParseOut<'a>, ParseError<&'a str>>)
    requires
        env.src == source.spec_bytes(),
        frame.stack == texts(rules@),
        frame.capture == capture,
        rules@.len() > 0,
        start <= *old(idx),
        on_boundary(env.src, start as int),
        on_boundary(env.src, *old(idx) as int),
        env.all_in_order(start as int, diagnostics(errors@)),
    ensures
        outcome_view(r) == env.close(
            frame,
            start as int,
            *old(idx) as int,
            nodes(outs@),
            diagnostics(errors@),
        ).out,
        *final(idx) == env.close(
            frame,
            start as int,
            *old(idx) as int,
            nodes(outs@),
            diagnostics(errors@),
        ).end,
{
    let rule = rules[rules.len() - 1];
    assert(frame.rule() == rule@);
    let out = if capture {
        ParseGrouping::Terminal(slice(source, start, *idx))
    } else {
        ParseGrouping::Sequence { ts: outs }
    };
    conclude(Ghost(env), ParseOut { rule, out }, errors, start, idx)
}

/// What an atomic expression needs to be matched at cursor `c`: nothing where it
/// names a rule that is not defined; an open rule and a cursor within the input for
/// the end of input; and else an open rule and a cursor at a cut point of the
/// input, a pattern that the engine accepts, and for a rule that is defined a
/// parser that is fit to be evaluated.
pub open spec fn atom_ready(a: Atom, open_rules: nat, g: Grammar, src: Seq<u8>, c: int) -> bool {
    match a {
        Atom::Rule(name) => g.find(name) is None || (open_rules > 0 && g.usable() && on_boundary(
            src,
            c,
        )),
        Atom::EndOfInput => open_rules > 0 && 0 <= c <= src.len(),
        Atom::Literal(_) => open_rules > 0 && on_boundary(src, c),
        Atom::Pattern(p) => open_rules > 0 && pattern_compiles(p) && on_boundary(src, c),
    }
}

/// Matches the pattern `pattern` at the cursor, given what the engine found in the
/// input from the cursor on: a match that begins at the cursor and ends within the
/// input at a cut point is consumed, and any other answer is a mismatch.
pub fn pattern_found<'a>(
    pattern: &'a str,
    found: Option<(usize, usize)>,
    rules: &Vec<&'a str>,
    source: &'a str,
    idx: &mut usize,
) -> (r: Fallible<ParseOut<'a>, ParseError<&'a str>>)
    requires
        rules@.len() > 0,
        on_boundary(source.spec_bytes(), *old(idx) as int),
    ensures
        outcome_view(r) == pattern_step(
            source.spec_bytes(),
            texts(rules@),
            pattern@,
            *old(idx) as int,
            found,
        ).out,
        *final(idx) == pattern_step(
            source.spec_bytes(),
            texts(rules@),
            pattern@,
            *old(idx) as int,
            found,
        ).end,
        on_boundary(source.spec_bytes(), *final(idx) as int),
{
    let ghost src = source.spec_bytes();
    let at: usize = *idx;
    let len: usize = byte_len(source);
    let rule = rules[rules.len() - 1];
    assert(texts(rules@).last() == rule@);
    proof {
        encode_utf8_valid_utf8(source@);
    }
    let matched = match found {
        Some((first, past)) => {
            proof {
                if past <= len - at {
                    lemma_boundary_agrees(src, at + past);
                }
            }
            if first == 0 && past <= len - at && source.is_char_boundary(at + past) {
                Some(at + past)
            } else {
                None
            }
        },
        None => None,
    };
    match matched {
        Some(end) => {
            let s = slice(source, at, end);
            *idx = end;
            Fallible::Success(ParseOut { rule, out: ParseGrouping::Terminal(s) })
        },
        None => {
            let mut msg = String::from_str("Failed to match ");
            push_quoted(&mut msg, pattern);
            msg.append(".");
            assert(msg@ == "Failed to match "@ + quoted(pattern@) + "."@);
            let mut wanted: Vec<&'a str> = Vec::new();
            wanted.push(pattern);
            assert(texts(wanted@) =~= seq![pattern@]);
            Fallible::Failure(
                ParseError::new_bad_match(source, &at, msg, wanted, copy_names(rules)),
            )
        },
    }
}

/// Evaluates an atomic expression at the cursor.
pub fn step_atom<'a>(
    a: &AtomicExpr<'a>,
    rules: &mut Vec<&'a str>,
    capture: bool,
    parser: &Parser<'a>,
    source: &'a str,
    idx: &mut usize,
    entered: usize,
    entered_at: usize,
) -> (r: Fallible<ParseOut<'a>, ParseError<&'a str>>)
    requires
        atom_ready(a@, old(rules)@.len(), parser@, source.spec_bytes(), *old(idx) as int),
    ensures
        outcome_view(r) == env_of(parser, source).eval_atom(
            frame_of(old(rules)@, capture, entered, entered_at),
            a@,
            *old(idx) as int,
        ).out,
        *final(idx) == env_of(parser, source).eval_atom(
            frame_of(old(rules)@, capture, entered, entered_at),
            a@,
            *old(idx) as int,
        ).end,
        final(rules)@ == old(rules)@,
        on_boundary(source.spec_bytes(), *old(idx) as int) ==> on_boundary(
            source.spec_bytes(),
            *final(idx) as int,
        ),
    decreases
        env_of(parser, source).remaining(*old(idx) as int),
        env_of(parser, source).budget(
            frame_of(old(rules)@, capture, entered, entered_at).descent,
            *old(idx) as int,
        ),
        Expr::Atomic(a@),
        0nat,
{
    let ghost env = env_of(parser, source);
    let ghost frame = frame_of(rules@, capture, entered, entered_at);
    let ghost src = source.spec_bytes();
    let at: usize = *idx;
    let len: usize = byte_len(source);
    proof {
        encode_utf8_valid_utf8(source@);
    }
    match a {
        AtomicExpr::Terminal(term) => {
            let rule = rules[rules.len() - 1];
            assert(frame.rule() == rule@);
            if begins_with(source, at, term) {
                let end: usize = at + byte_len(term);
                proof {
                    encode_utf8_valid_utf8(term@);
                    lemma_prefix_keeps_boundary(src, at as int, term.spec_bytes());
                }
                let s = slice(source, at, end);
                *idx = end;
                Fallible::Success(ParseOut { rule, out: ParseGrouping::Terminal(s) })
            } else {
                let mut msg = String::from_str("Expected ");
                push_quoted(&mut msg, term);
                msg.append(" here.");
                assert(msg@ == message(seq![term@]));
                mismatch(Ghost(env), Ghost(frame), source, rules, at, msg, term)
            }
        },
        AtomicExpr::Regex(pattern) => {
            match compile(pattern) {
                Ok(re) => {
                    proof {
                        lemma_ends_on_boundary(src);
                    }
                    let haystack = slice(source, at, len);
                    let found = find(&re, haystack);
                    pattern_found(pattern, found, rules, source, idx)
                },
                Err(_) => unreached(),
            }
        },
        AtomicExpr::EndOfFile => {
            let rule = rules[rules.len() - 1];
            assert(frame.rule() == rule@);
            if at == len {
                Fallible::Success(ParseOut { rule, out: ParseGrouping::Terminal("EOF") })
            } else {
                let mut msg = String::from_str("Expected ");
                push_quoted(&mut msg, "EOF");
                msg.append(" here.");
                assert(msg@ == message(seq!["EOF"@]));
                mismatch(Ghost(env), Ghost(frame), source, rules, at, msg, "EOF")
            }
        },
        AtomicExpr::NonTerminal(name) => {
            match parser.lookup(name) {
                None => Fallible::Failure(ParseError::UnknownNonTerminal(*name)),
                Some(i) => {
                    let used: usize = if entered_at == at {
                        entered
                    } else {
                        0
                    };
                    if used >= parser.rules.len() {
                        Fallible::Failure(ParseError::LeftRecursion(*name))
                    } else {
                        assert(parser@.rules[i as int] == rule_def(parser.rules@[i as int]));
                        rules.push(*name);
                        assert(texts(rules@) =~= frame.stack.push(name@));
                        let r = step_expr(
                            &parser.rules[i].1.0,
                            rules,
                            parser.rules[i].1.1,
                            parser,
                            source,
                            idx,
                            used + 1,
                            at,
                        );
                        rules.pop();
                        assert(rules@ =~= old(rules)@);
                        r
                    }
                },
            }
        },
    }
}

/// Evaluates an expression at the cursor.
pub fn step_expr<'a>(
    e: &ParseExpr<'a>,
    rules: &mut Vec<&'a str>,
    capture: bool,
    parser: &Parser<'a>,
    source: &'a str,
    idx: &mut usize,
    entered: usize,
    entered_at: usize,
) -> (r: Fallible<ParseOut<'a>, ParseError<&'a str>>)
    requires
        old(rules)@.len() > 0,
        parser@.usable(),
        e@.usable(),
        on_boundary(source.spec_bytes(), *old(idx) as int),
    ensures
        outcome_view(r) == env_of(parser, source).eval(
            frame_of(old(rules)@, capture, entered, entered_at),
            e@,
            *old(idx) as int,
        ).out,
        *final(idx) == env_of(parser, source).eval(
            frame_of(old(rules)@, capture, entered, entered_at),
            e@,
            *old(idx) as int,
        ).end,
        final(rules)@ == old(rules)@,
        on_boundary(source.spec_bytes(), *final(idx) as int),
    decreases
        env_of(parser, source).remaining(*old(idx) as int),
        env_of(parser, source).budget(
            frame_of(old(rules)@, capture, entered, entered_at).descent,
            *old(idx) as int,
        ),
        e@,
        1nat,
{
    let ghost env = env_of(parser, source);
    let ghost frame = frame_of(rules@, capture, entered, entered_at);
    let start: usize = *idx;
    let rule = rules[rules.len() - 1];
    assert(frame.rule() == rule@);
    match e {
        ParseExpr::Atomic(a) => step_atom(a, rules, capture, parser, source, idx, entered, entered_at),
        ParseExpr::Choice { es } => {
            let ghost esv = contents(es@);
            let mut errors: Vec<ParseError<&'a str>> = Vec::new();
            let mut k: usize = 0;
            assert(diagnostics(errors@) =~= Seq::<Diagnostic>::empty());
            while k < es.len()
                invariant
                    k <= es.len(),
                    *idx == start,
                    *old(idx) == start,
                    rules@ == old(rules)@,
                    rules@.len() > 0,
                    rule == rules@[rules@.len() - 1],
                    env == env_of(parser, source),
                    frame == frame_of(rules@, capture, entered, entered_at),
                    esv == contents(es@),
                    e@ == Expr::Choice(esv),
                    parser@.usable(),
                    e@.usable(),
                    on_boundary(source.spec_bytes(), start as int),
                    errors@.len() == k,
                    env.all_in_order(start as int, diagnostics(errors@)),
                    env.eval(frame, e@, start as int) == env.eval_choice(
                        frame,
                        esv,
                        start as int,
                        k as int,
                        diagnostics(errors@),
                    ),
                decreases es.len() - k,
            {
                let ghost before = diagnostics(errors@);
                proof {
                    assert(esv[k as int] == es@[k as int]@);
                    assert(esv[k as int].usable());
                    lemma_eval_sound(env, frame, esv[k as int], start as int);
                }
                match step_expr(&es[k], rules, capture, parser, source, idx, entered, entered_at) {
                    Fallible::Success(s) => {
                        return Fallible::Success(
                            ParseOut { rule, out: ParseGrouping::Out(Box::new(s)) },
                        );
                    },
                    Fallible::Recovered(s, d) => {
                        errors.push(d);
                        proof {
                            assert(diagnostics(errors@) =~= before.push(d@));
                            lemma_push_in_order(env, start as int, before, d@);
                        }
                        return conclude(
                            Ghost(env),
                            ParseOut { rule, out: ParseGrouping::Out(Box::new(s)) },
                            errors,
                            start,
                            idx,
                        );
                    },
                    Fallible::Failure(d) => {
                        errors.push(d);
                        proof {
                            assert(diagnostics(errors@) =~= before.push(d@));
                            lemma_push_in_order(env, start as int, before, d@);
                        }
                    },
                }
                k = k + 1;
            }
            give_up(Ghost(env), errors, start, idx)
        },
        ParseExpr::Sequence { es } => {
            let ghost esv = contents(es@);
            let mut outs: Vec<ParseOut<'a>> = Vec::new();
            let mut errors: Vec<ParseError<&'a str>> = Vec::new();
            let mut k: usize = 0;
            assert(diagnostics(errors@) =~= Seq::<Diagnostic>::empty());
            assert(nodes(outs@) =~= Seq::<Node>::empty());
            while k < es.len()
                invariant
                    k <= es.len(),
                    start <= *idx,
                    *old(idx) == start,
                    rules@ == old(rules)@,
                    rules@.len() > 0,
                    env == env_of(parser, source),
                    frame == frame_of(rules@, capture, entered, entered_at),
                    esv == contents(es@),
                    e@ == Expr::Sequence(esv),
                    parser@.usable(),
                    e@.usable(),
                    on_boundary(source.spec_bytes(), start as int),
                    on_boundary(source.spec_bytes(), *idx as int),
                    env.all_in_order(start as int, diagnostics(errors@)),
                    env.eval(frame, e@, start as int) == env.eval_seq(
                        frame,
                        esv,
                        start as int,
                        k as int,
                        *idx as int,
                        nodes(outs@),
                        diagnostics(errors@),
                    ),
                decreases es.len() - k,
            {
                let ghost before = diagnostics(errors@);
                let ghost children = nodes(outs@);
                let ghost here = *idx;
                proof {
                    assert(esv[k as int] == es@[k as int]@);
                    assert(esv[k as int].usable());
                    lemma_eval_sound(env, frame, esv[k as int], here as int);
                }
                match step_expr(&es[k], rules, capture, parser, source, idx, entered, entered_at) {
                    Fallible::Success(s) => {
                        outs.push(s);
                        assert(nodes(outs@) =~= children.push(s@));
                    },
                    Fallible::Recovered(s, d) => {
                        outs.push(s);
                        errors.push(d);
                        proof {
                            assert(nodes(outs@) =~= children.push(s@));
                            assert(diagnostics(errors@) =~= before.push(d@));
                            lemma_push_in_order(env, start as int, before, d@);
                        }
                    },
                    Fallible::Failure(d) => {
                        errors.push(d);
                        proof {
                            assert(diagnostics(errors@) =~= before.push(d@));
                            lemma_push_in_order(env, start as int, before, d@);
                        }
                        return give_up(Ghost(env), errors, start, idx);
                    },
                }
                k = k + 1;
            }
            close(Ghost(env), Ghost(frame), source, rules, capture, start, idx, outs, errors)
        },
        ParseExpr::ZeroOrMore { e: body } => {
            let outs: Vec<ParseOut<'a>> = Vec::new();
            assert(nodes(outs@) =~= Seq::<Node>::empty());
            step_rounds(&**body, rules, capture, parser, source, idx, entered, entered_at, start, outs)
        },
        ParseExpr::OneOrMore { e: body } => {
            proof {
                lemma_eval_sound(env, frame, body@, start as int);
            }
            match step_expr(&**body, rules, capture, parser, source, idx, entered, entered_at) {
                Fallible::Success(s) => {
                    let mut outs: Vec<ParseOut<'a>> = Vec::new();
                    outs.push(s);
                    assert(nodes(outs@) =~= seq![s@]);
                    step_rounds(
                        &**body,
                        rules,
                        capture,
                        parser,
                        source,
                        idx,
                        entered,
                        entered_at,
                        start,
                        outs,
                    )
                },
                Fallible::Recovered(s, _) => {
                    let mut outs: Vec<ParseOut<'a>> = Vec::new();
                    outs.push(s);
                    assert(nodes(outs@) =~= seq![s@]);
                    step_rounds(
                        &**body,
                        rules,
                        capture,
                        parser,
                        source,
                        idx,
                        entered,
                        entered_at,
                        start,
                        outs,
                    )
                },
                Fallible::Failure(d) => Fallible::Failure(d),
            }
        },
        ParseExpr::Optional { e: body } => {
            proof {
                lemma_eval_sound(env, frame, body@, start as int);
            }
            match step_expr(&**body, rules, capture, parser, source, idx, entered, entered_at) {
                Fallible::Success(s) => {
                    let ParseOut { rule: _, out } = s;
                    Fallible::Success(
                        ParseOut { rule, out: ParseGrouping::Optional(Some(Box::new(out))) },
                    )
                },
                Fallible::Recovered(s, d) => {
                    let ParseOut { rule: _, out } = s;
                    Fallible::Recovered(
                        ParseOut { rule, out: ParseGrouping::Optional(Some(Box::new(out))) },
                        d,
                    )
                },
                Fallible::Failure(d) => Fallible::Recovered(
                    ParseOut { rule, out: ParseGrouping::Optional(None) },
                    d,
                ),
            }
        },
    }
}

/// Repeats `body` from the cursor on, for a repetition that began at `start` and
/// has produced `outs` so far, until a round fails or matches without moving the
/// cursor.
pub fn step_rounds<'a>(
    body: &ParseExpr<'a>,
    rules: &mut Vec<&'a str>,
    capture: bool,
    parser: &Parser<'a>,
    source: &'a str,
    idx: &mut usize,
    entered: usize,
    entered_at: usize,
    start: usize,
    outs: Vec<ParseOut<'a>>,
) -> (r: Fallible<ParseOut<'a>, ParseError<&'a str>>)
    requires
        old(rules)@.len() > 0,
        parser@.usable(),
        body@.usable(),
        start <= *old(idx),
        on_boundary(source.spec_bytes(), start as int),
        on_boundary(source.spec_bytes(), *old(idx) as int),
    ensures
        outcome_view(r) == env_of(parser, source).eval_rep(
            frame_of(old(rules)@, capture, entered, entered_at),
            body@,
            start as int,
            *old(idx) as int,
            nodes(outs@),
            Seq::empty(),
        ).out,
        *final(idx) == env_of(parser, source).eval_rep(
            frame_of(old(rules)@, capture, entered, entered_at),
            body@,
            start as int,
            *old(idx) as int,
            nodes(outs@),
            Seq::empty(),
        ).end,
        final(rules)@ == old(rules)@,
        on_boundary(source.spec_bytes(), *final(idx) as int),
    decreases
        env_of(parser, source).remaining(*old(idx) as int),
        env_of(parser, source).budget(
            frame_of(old(rules)@, capture, entered, entered_at).descent,
            *old(idx) as int,
        ),
        body@,
        2nat,
{
    let ghost env = env_of(parser, source);
    let ghost frame = frame_of(rules@, capture, entered, entered_at);
    let ghost first = *idx;
    let ghost seed = nodes(outs@);
    let mut kept = outs;
    let mut errors: Vec<ParseError<&'a str>> = Vec::new();
    assert(diagnostics(errors@) =~= Seq::<Diagnostic>::empty());
    loop
        invariant
            first <= *idx,
            *old(idx) == first,
            start <= first,
            rules@ == old(rules)@,
            rules@.len() > 0,
            env == env_of(parser, source),
            frame == frame_of(rules@, capture, entered, entered_at),
            parser@.usable(),
            body@.usable(),
            on_boundary(source.spec_bytes(), start as int),
            on_boundary(source.spec_bytes(), *idx as int),
            env.all_in_order(start as int, diagnostics(errors@)),
            seed == nodes(outs@),
            env.eval_rep(frame, body@, start as int, first as int, seed, Seq::empty()) == env.eval_rep(
                frame,
                body@,
                start as int,
                *idx as int,
                nodes(kept@),
                diagnostics(errors@),
            ),
        decreases source.spec_bytes().len() - *idx,
    {
        let ghost before = diagnostics(errors@);
        let ghost children = nodes(kept@);
        let here: usize = *idx;
        proof {
            lemma_eval_sound(env, frame, body@, here as int);
        }
        match step_expr(body, rules, capture, parser, source, idx, entered, entered_at) {
            Fallible::Success(s) => {
                if *idx > here {
                    kept.push(s);
                    assert(nodes(kept@) =~= children.push(s@));
                } else {
                    return close(
                        Ghost(env),
                        Ghost(frame),
                        source,
                        rules,
                        capture,
                        start,
                        idx,
                        kept,
                        errors,
                    );
                }
            },
            Fallible::Recovered(s, d) => {
                errors.push(d);
                proof {
                    assert(diagnostics(errors@) =~= before.push(d@));
                    lemma_push_in_order(env, start as int, before, d@);
                }
                if *idx > here {
                    kept.push(s);
                    assert(nodes(kept@) =~= children.push(s@));
                } else {
                    return close(
                        Ghost(env),
                        Ghost(frame),
                        source,
                        rules,
                        capture,
                        start,
                        idx,
                        kept,
                        errors,
                    );
                }
            },
            Fallible::Failure(d) => {
                errors.push(d);
                proof {
                    assert(diagnostics(errors@) =~= before.push(d@));
                    lemma_push_in_order(env, start as int, before, d@);
                }
                return close(
                    Ghost(env),
                    Ghost(frame),
                    source,
                    rules,
                    capture,
                    start,
                    idx,
                    kept,
                    errors,
                );
            },
        }
    }
}

/// The content of a parse's result.
pub open spec fn result_view<'a>(r: Result<ParseOut<'a>, ParseError<&'a str>>) -> Result<
    Node,
    Diagnostic,
> {
    match r {
        Ok(t) => Ok(t@),
        Err(e) => Err(e@),
    }
}

/// Whether an expression is fit to be evaluated: every choice in it offers an
/// alternative, and the engine accepts every regular expression in it.
pub fn expr_usable<'a>(e: &ParseExpr<'a>) -> (r: bool)
    ensures
        r == e@.usable(),
    decreases e,
{
    match e {
        ParseExpr::Atomic(a) => a.is_usable(),
        ParseExpr::Sequence { es } => {
            proof {
                lemma_usable_sequence(contents(es@));
            }
            all_usable(es)
        },
        ParseExpr::Choice { es } => {
            proof {
                lemma_usable_choice(contents(es@));
            }
            es.len() >= 1 && all_usable(es)
        },
        ParseExpr::ZeroOrMore { e: body } => expr_usable(&**body),
        ParseExpr::OneOrMore { e: body } => expr_usable(&**body),
        ParseExpr::Optional { e: body } => expr_usable(&**body),
    }
}

/// Whether every one of `es` is fit to be evaluated.
pub fn all_usable<'a>(es: &Vec<ParseExpr<'a>>) -> (r: bool)
    ensures
        r == forall|i: int| 0 <= i < es@.len() ==> (#[trigger] contents(es@)[i]).usable(),
    decreases es,
{
    let mut k: usize = 0;
    while k < es.len()
        invariant
            k <= es.len(),
            forall|i: int| 0 <= i < k ==> (#[trigger] contents(es@)[i]).usable(),
        decreases es.len() - k,
    {
        assert(contents(es@)[k as int] == es@[k as int]@);
        if !expr_usable(&es[k]) {
            return false;
        }
        k = k + 1;
    }
    true
}

impl<'a> AtomicExpr<'a> {
    /// Whether the engine accepts this expression's pattern, if it is one.
    pub fn is_usable(&self) -> (r: bool)
        ensures
            r == Expr::Atomic(self@).usable(),
    {
        match self {
            AtomicExpr::Regex(pattern) => compile(pattern).is_ok(),
            _ => true,
        }
    }

    /// Matches this atomic expression at the cursor `idx` of `source`.
    ///
    /// `rules` names the open rules, the innermost last. On success the cursor stands
    /// after what was matched; on failure it is left where it was. A reference to a
    /// rule that is not defined fails as such, whatever the cursor and the open
    /// rules.
    pub fn parse(
        &self,
        rules: &mut Vec<&'a str>,
        parser: &Parser<'a>,
        source: &'a str,
        idx: &mut usize,
    ) -> (r: Fallible<ParseOut<'a>, ParseError<&'a str>>)
        requires
            atom_ready(self@, old(rules)@.len(), parser@, source.spec_bytes(), *old(idx) as int),
        ensures
            outcome_view(r) == env_of(parser, source).eval_atom(
                frame_of(old(rules)@, false, 0, *old(idx)),
                self@,
                *old(idx) as int,
            ).out,
            *final(idx) == env_of(parser, source).eval_atom(
                frame_of(old(rules)@, false, 0, *old(idx)),
                self@,
                *old(idx) as int,
            ).end,
            final(rules)@ == old(rules)@,
            on_boundary(source.spec_bytes(), *old(idx) as int) ==> on_boundary(
                source.spec_bytes(),
                *final(idx) as int,
            ),
            *old(idx) <= source.spec_bytes().len() ==> env_of(parser, source).sound(
                *old(idx) as int,
                Step { out: outcome_view(r), end: *final(idx) as int },
            ),
    {
        let at: usize = *idx;
        proof {
            if at <= source.spec_bytes().len() {
                lemma_eval_atom_sound(
                    env_of(parser, source),
                    frame_of(rules@, false, 0, at),
                    self@,
                    at as int,
                );
            }
        }
        step_atom(self, rules, false, parser, source, idx, 0, at)
    }

    /// Whether this atomic expression can be matched at the cursor `idx`.
    pub fn is_ready(
        &self,
        rules: &Vec<&'a str>,
        parser: &Parser<'a>,
        source: &'a str,
        idx: usize,
    ) -> (r: bool)
        ensures
            r == atom_ready(self@, rules@.len(), parser@, source.spec_bytes(), idx as int),
    {
        proof {
            encode_utf8_valid_utf8(source@);
            lemma_boundary_agrees(source.spec_bytes(), idx as int);
        }
        let open = rules.len() > 0;
        let within = idx <= byte_len(source);
        let cut = within && source.is_char_boundary(idx);
        match self {
            AtomicExpr::NonTerminal(name) => parser.lookup(name).is_none() || (open && cut
                && parser.is_usable()),
            AtomicExpr::EndOfFile => open && within,
            AtomicExpr::Terminal(_) => open && cut,
            AtomicExpr::Regex(_) => open && cut && self.is_usable(),
        }
    }

    /// Matches this atomic expression at the cursor if that can be done, and says
    /// `None`, and changes nothing, if not.
    pub fn try_parse(
        &self,
        rules: &mut Vec<&'a str>,
        parser: &Parser<'a>,
        source: &'a str,
        idx: &mut usize,
    ) -> (r: Option<Fallible<ParseOut<'a>, ParseError<&'a str>>>)
        ensures
            r is Some <==> atom_ready(
                self@,
                old(rules)@.len(),
                parser@,
                source.spec_bytes(),
                *old(idx) as int,
            ),
            r matches Some(out) ==> {
                &&& outcome_view(out) == env_of(parser, source).eval_atom(
                    frame_of(old(rules)@, false, 0, *old(idx)),
                    self@,
                    *old(idx) as int,
                ).out
                &&& *final(idx) == env_of(parser, source).eval_atom(
                    frame_of(old(rules)@, false, 0, *old(idx)),
                    self@,
                    *old(idx) as int,
                ).end
            },
            r is None ==> *final(idx) == *old(idx),
            final(rules)@ == old(rules)@,
    {
        if self.is_ready(rules, parser, source, *idx) {
            Some(self.parse(rules, parser, source, idx))
        } else {
            None
        }
    }
}

impl<'a> ParseExpr<'a> {
    /// Matches this expression at the cursor if that can be done: if a rule is open,
    /// the cursor is a cut point of `source`, and the parser and this expression are
    /// fit to be evaluated. Says `None`, and changes nothing, if not.
    pub fn try_parse(
        &self,
        rules: &mut Vec<&'a str>,
        group: &bool,
        parser: &Parser<'a>,
        source: &'a str,
        idx: &mut usize,
    ) -> (r: Option<Fallible<ParseOut<'a>, ParseError<&'a str>>>)
        ensures
            r is Some <==> old(rules)@.len() > 0 && parser@.usable() && self@.usable()
                && on_boundary(source.spec_bytes(), *old(idx) as int),
            r matches Some(out) ==> {
                &&& outcome_view(out) == env_of(parser, source).eval(
                    frame_of(old(rules)@, *group, 0, *old(idx)),
                    self@,
                    *old(idx) as int,
                ).out
                &&& *final(idx) == env_of(parser, source).eval(
                    frame_of(old(rules)@, *group, 0, *old(idx)),
                    self@,
                    *old(idx) as int,
                ).end
            },
            r is None ==> *final(idx) == *old(idx),
            final(rules)@ == old(rules)@,
    {
        proof {
            encode_utf8_valid_utf8(source@);
            lemma_boundary_agrees(source.spec_bytes(), *idx as int);
        }
        if rules.len() > 0 && *idx <= byte_len(source) && source.is_char_boundary(*idx)
            && parser.is_usable() && expr_usable(self) {
            Some(self.parse(rules, group, parser, source, idx))
        } else {
            None
        }
    }

    /// Matches this expression at the cursor `idx` of `source`.
    ///
    /// `rules` names the open rules, the innermost last, and `group` says whether
    /// that rule captures. On success the cursor stands after what was matched; on
    /// failure it is left where it was.
    pub fn parse(
        &self,
        rules: &mut Vec<&'a str>,
        group: &bool,
        parser: &Parser<'a>,
        source: &'a str,
        idx: &mut usize,
    ) -> (r: Fallible<ParseOut<'a>, ParseError<&'a str>>)
        requires
            old(rules)@.len() > 0,
            parser@.usable(),
            self@.usable(),
            on_boundary(source.spec_bytes(), *old(idx) as int),
        ensures
            outcome_view(r) == env_of(parser, source).eval(
                frame_of(old(rules)@, *group, 0, *old(idx)),
                self@,
                *old(idx) as int,
            ).out,
            *final(idx) == env_of(parser, source).eval(
                frame_of(old(rules)@, *group, 0, *old(idx)),
                self@,
                *old(idx) as int,
            ).end,
            final(rules)@ == old(rules)@,
            on_boundary(source.spec_bytes(), *final(idx) as int),
            env_of(parser, source).sound(
                *old(idx) as int,
                Step { out: outcome_view(r), end: *final(idx) as int },
            ),
            outcome_view(r).as_result() matches Ok(n) ==> env_of(parser, source).node_within(
                n,
                *old(idx) as int,
                *final(idx) as int,
            ),
    {
        let at: usize = *idx;
        proof {
            lemma_eval_sound(
                env_of(parser, source),
                frame_of(rules@, *group, 0, at),
                self@,
                at as int,
            );
            lemma_eval_within(
                env_of(parser, source),
                frame_of(rules@, *group, 0, at),
                self@,
                at as int,
            );
        }
        step_expr(self, rules, *group, parser, source, idx, 0, at)
    }
}

impl<'a> Parser<'a> {
    /// Whether every rule is fit to be evaluated: every choice offers an
    /// alternative, and the engine accepts every regular expression.
    pub fn is_usable(&self) -> (r: bool)
        ensures
            r == self@.usable(),
    {
        let mut k: usize = 0;
        while k < self.rules.len()
            invariant
                k <= self.rules.len(),
                forall|i: int| 0 <= i < k ==> (#[trigger] self@.rules[i]).expr.usable(),
            decreases self.rules.len() - k,
        {
            assert(self@.rules[k as int] == rule_def(self.rules@[k as int]));
            if !expr_usable(&self.rules[k].1.0) {
                return false;
            }
            k = k + 1;
        }
        true
    }

    /// Parses `source` from its first byte with the start rule.
    ///
    /// The result is the tree that the start rule yields, also where an attempt
    /// within it failed and was absorbed, or the diagnostic of the failure. A start
    /// rule that is not defined is reported as an unknown rule.
    pub fn parse(&self, source: &'a str) -> (r: Result<ParseOut<'a>, ParseError<&'a str>>)
        requires
            self@.usable(),
        ensures
            result_view(r) == parse_result(self@, source.spec_bytes()),
            r matches Err(e) ==> env_of(self, source).in_order(0, e@),
            r matches Ok(tree) ==> env_of(self, source).node_within(
                tree@,
                0,
                source.spec_bytes().len() as int,
            ),
    {
        proof {
            lemma_parse_result_in_order(self@, source.spec_bytes());
            lemma_parse_result_within(self@, source.spec_bytes());
        }
        match self.lookup(self.start) {
            None => Err(ParseError::UnknownNonTerminal(self.start)),
            Some(i) => {
                let mut idx: usize = 0;
                let mut rules: Vec<&'a str> = Vec::new();
                rules.push(self.start);
                proof {
                    encode_utf8_valid_utf8(source@);
                    lemma_ends_on_boundary(source.spec_bytes());
                    assert(texts(rules@) =~= seq![self.start@]);
                    assert(self@.rules[i as int] == rule_def(self.rules@[i as int]));
                }
                step_expr(
                    &self.rules[i].1.0,
                    &mut rules,
                    self.rules[i].1.1,
                    self,
                    source,
                    &mut idx,
                    1,
                    0,
                ).into_result()
            },
        }
    }

    /// Parses `source` if every rule is fit to be evaluated, and says `None` if one
    /// is not.
    pub fn try_parse(&self, source: &'a str) -> (r: Option<Result<ParseOut<'a>, ParseError<&'a str>>>)
        ensures
            r is Some <==> self@.usable(),
            r matches Some(parsed) ==> result_view(parsed) == parse_result(self@, source.spec_bytes()),
    {
        if self.is_usable() {
            Some(self.parse(source))
        } else {
            None
        }
    }
}

} // verus!
