//! From the tree of a grammar text to the parser it describes.
//!
//! Each function takes the node that the notation's rule of the same name yields and
//! says `None` for a node of any other shape.

use vstd::pervasive::unreached;
use vstd::prelude::*;
use vstd::string::StringSliceAdditionalSpecFns;
use vstd::utf8::{
    encode_utf8, encode_utf8_decode_utf8, encode_utf8_valid_utf8, is_ascii_chars_encode_utf8,
};
use crate::bootstrap::{end, notation, ws};
use crate::error::{Diagnostic, ParseError};
use crate::expr::{contents, Atom, AtomicExpr, Expr, ParseExpr};
use crate::parser::{rule_def, rule_defs, Grammar, Parser, RuleDef};
use crate::semantics::parse_result;
use crate::text::{byte_len, lemma_boundary_agrees, on_boundary, same_text, slice, text_between};
use crate::totality::lemma_notation_tree_lowers;
use crate::tree::{nodes, Grouping, Node, ParseGrouping, ParseOut};

verus! {

/// The text without its first and its last byte, where it has both and each is a
/// character of its own.
pub open spec fn stripped(text: Seq<char>) -> Option<Seq<char>> {
    let bytes = encode_utf8(text);
    if bytes.len() >= 2 && on_boundary(bytes, 1) && on_boundary(bytes, bytes.len() - 1) {
        Some(text_between(bytes, 1, bytes.len() - 1))
    } else {
        None
    }
}

/// The encoding of two texts, one after the other, is their encodings, one after
/// the other.
pub proof fn lemma_encode_concat(a: Seq<char>, b: Seq<char>)
    ensures
        encode_utf8(a + b) == encode_utf8(a) + encode_utf8(b),
    decreases a.len(),
{
    if a.len() == 0 {
        assert(a + b =~= b);
        assert(encode_utf8(a) + encode_utf8(b) =~= encode_utf8(b));
    } else {
        lemma_encode_concat(a.drop_first(), b);
        assert((a + b).drop_first() =~= a.drop_first() + b);
        assert(encode_utf8(a + b) =~= encode_utf8(a) + encode_utf8(b));
    }
}

/// Stripping takes the quotes off a quoted text.
pub proof fn lemma_stripped_quoted(t: Seq<char>)
    ensures
        stripped("\""@ + t + "\""@) == Some(t),
{
    let quote = "\""@;
    reveal_strlit("\"");
    is_ascii_chars_encode_utf8(quote);
    assert(encode_utf8(quote) =~= seq![0x22u8]);
    lemma_encode_concat(quote + t, quote);
    lemma_encode_concat(quote, t);
    let inner = encode_utf8(t);
    let bytes = encode_utf8(quote + t + quote);
    assert(bytes == seq![0x22u8] + inner + seq![0x22u8]);
    encode_utf8_valid_utf8(t);
    if inner.len() > 0 {
        assert(bytes[1] == inner[0]);
    } else {
        assert(bytes[1] == 0x22);
    }
    assert(bytes[bytes.len() - 1] == 0x22);
    assert(bytes.subrange(1, bytes.len() - 1) =~= inner);
    encode_utf8_decode_utf8(t);
}

/// The expression `e`, after optional white space if `allow` says so.
pub open spec fn spaced(e: Expr, allow: bool) -> Expr {
    if allow {
        Expr::Sequence(seq![ws(), e])
    } else {
        e
    }
}

/// What an `atomic` node stands for: a pattern for `re"…"`, a literal for `"…"`,
/// the end of input for `EOF`, and a reference to a rule for any other name.
pub open spec fn lower_atomic(n: Node, allow: bool) -> Option<Expr> {
    if n.rule != "atomic"@ {
        None
    } else {
        match n.out {
            Grouping::Out(inner) => {
                let atom: Option<Atom> = match inner.out {
                    Grouping::Sequence(ts) => {
                        if inner.rule == "regex"@ && ts.len() >= 2 {
                            match ts[1].out {
                                Grouping::Terminal(term) => match stripped(term) {
                                    Some(p) => Some(Atom::Pattern(p)),
                                    None => None,
                                },
                                _ => None,
                            }
                        } else {
                            None
                        }
                    },
                    Grouping::Terminal(term) => {
                        if inner.rule == "non_terminal"@ {
                            if term == "EOF"@ {
                                Some(Atom::EndOfInput)
                            } else {
                                Some(Atom::Rule(term))
                            }
                        } else if inner.rule == "terminal"@ || inner.rule == "STRING"@ {
                            match stripped(term) {
                                Some(t) => Some(Atom::Literal(t)),
                                None => None,
                            }
                        } else {
                            None
                        }
                    },
                    _ => None,
                };
                match atom {
                    Some(a) => Some(spaced(Expr::Atomic(a), allow)),
                    None => None,
                }
            },
            _ => None,
        }
    }
}

/// What a `primary` node stands for: what its group or its atom stands for.
pub open spec fn lower_primary(n: Node, allow: bool) -> Option<Expr>
    decreases n, 0nat,
{
    if n.rule != "primary"@ {
        None
    } else {
        match n.out {
            Grouping::Out(inner) => {
                if inner.rule == "primary"@ {
                    lower_primary(*inner, allow)
                } else if inner.rule == "atomic"@ {
                    lower_atomic(*inner, allow)
                } else {
                    None
                }
            },
            Grouping::Sequence(ts) => {
                if ts.len() >= 3 {
                    lower_sequence(ts[ts.len() - 3])
                } else {
                    None
                }
            },
            _ => None,
        }
    }
}

/// What a `modifier` node stands for: a repetition or an optional for a trailing
/// `+`, `*` or `?`, and the primary without leading white space for a leading `_`.
pub open spec fn lower_modifier(n: Node, allow: bool) -> Option<Expr>
    decreases n, 0nat,
{
    if n.rule != "modifier"@ {
        None
    } else {
        match n.out {
            Grouping::Out(inner) => {
                if inner.rule == "primary"@ {
                    lower_primary(*inner, allow)
                } else if inner.rule == "modifier"@ {
                    lower_modifier(*inner, allow)
                } else {
                    None
                }
            },
            Grouping::Sequence(ts) => {
                if ts.len() >= 2 {
                    let last = ts[ts.len() - 1];
                    let first = ts[ts.len() - 2];
                    match last.out {
                        Grouping::Terminal(mark) => {
                            match lower_primary(first, true) {
                                Some(e) => {
                                    if mark == "+"@ {
                                        Some(Expr::OneOrMore(Box::new(e)))
                                    } else if mark == "*"@ {
                                        Some(Expr::ZeroOrMore(Box::new(e)))
                                    } else if mark == "?"@ {
                                        Some(Expr::Optional(Box::new(e)))
                                    } else {
                                        None
                                    }
                                },
                                None => None,
                            }
                        },
                        _ => {
                            if first.out == Grouping::Terminal("_"@) {
                                lower_primary(last, false)
                            } else {
                                None
                            }
                        },
                    }
                } else {
                    None
                }
            },
            _ => None,
        }
    }
}

/// What a `sequence` node stands for: a sequence of two for `a b`, a choice of two
/// for `a | b`, and what its modifier stands for otherwise.
pub open spec fn lower_sequence(n: Node) -> Option<Expr>
    decreases n, 0nat,
{
    if n.rule != "sequence"@ {
        None
    } else {
        match n.out {
            Grouping::Out(inner) => {
                if inner.rule == "sequence"@ {
                    lower_sequence(*inner)
                } else if inner.rule == "modifier"@ {
                    lower_modifier(*inner, true)
                } else {
                    None
                }
            },
            Grouping::Sequence(ts) => {
                if ts.len() == 3 || ts.len() == 5 {
                    match (lower_modifier(ts[0], true), lower_sequence(ts[ts.len() - 1])) {
                        (Some(head), Some(tail)) => {
                            if ts.len() == 3 {
                                Some(Expr::Sequence(seq![head, tail]))
                            } else {
                                Some(Expr::Choice(seq![head, tail]))
                            }
                        },
                        _ => None,
                    }
                } else {
                    None
                }
            },
            _ => None,
        }
    }
}

/// What a `rule` node stands for: the name, the expression, and whether a leading
/// `@` marks the rule as capturing.
pub open spec fn lower_rule(n: Node) -> Option<RuleDef> {
    if n.rule != "rule"@ {
        None
    } else {
        match n.out {
            Grouping::Sequence(ts) => {
                if ts.len() >= 9 {
                    let capture: Option<bool> = match ts[ts.len() - 9].out {
                        Grouping::Optional(None) => Some(false),
                        Grouping::Optional(Some(mark)) => if *mark == Grouping::Terminal("@"@) {
                            Some(true)
                        } else {
                            None
                        },
                        _ => None,
                    };
                    match (capture, ts[ts.len() - 8].out, lower_sequence(ts[ts.len() - 4])) {
                        (Some(capture), Grouping::Terminal(name), Some(expr)) => Some(
                            RuleDef { name, expr, capture },
                        ),
                        _ => None,
                    }
                } else {
                    None
                }
            },
            _ => None,
        }
    }
}

/// What the first `k` of the `rule` nodes `rs` stand for, in order.
pub open spec fn lower_rules(rs: Seq<Node>, k: int) -> Option<Seq<RuleDef>>
    decreases k,
{
    if k <= 0 {
        Some(Seq::empty())
    } else {
        match (lower_rules(rs, k - 1), lower_rule(rs[k - 1])) {
            (Some(defs), Some(def)) => Some(defs.push(def)),
            _ => None,
        }
    }
}

/// What a `grammar` node stands for: its rules in the order of the text, starting
/// from the first.
pub open spec fn lower_grammar(n: Node) -> Option<Grammar> {
    if n.rule != "grammar"@ {
        None
    } else {
        match n.out {
            Grouping::Sequence(ts) => {
                if ts.len() >= 3 {
                    match ts[ts.len() - 3].out {
                        Grouping::Sequence(rs) => match lower_rules(rs, rs.len() as int) {
                            Some(defs) => if defs.len() > 0 {
                                Some(Grammar { rules: defs, start: defs[0].name })
                            } else {
                                None
                            },
                            None => None,
                        },
                        _ => None,
                    }
                } else {
                    None
                }
            },
            _ => None,
        }
    }
}

/// The content of an expression that may be missing.
pub open spec fn expr_view<'a>(r: Option<ParseExpr<'a>>) -> Option<Expr> {
    match r {
        Some(e) => Some(e@),
        None => None,
    }
}

/// The text of `term` without its first and its last byte.
pub fn strip<'a>(term: &'a str) -> (r: Option<&'a str>)
    ensures
        match r {
            Some(t) => stripped(term@) == Some(t@),
            None => stripped(term@) is None,
        },
{
    let n: usize = byte_len(term);
    proof {
        encode_utf8_valid_utf8(term@);
        lemma_boundary_agrees(term.spec_bytes(), 1);
        lemma_boundary_agrees(term.spec_bytes(), n - 1);
    }
    if n >= 2 && term.is_char_boundary(1) && term.is_char_boundary(n - 1) {
        Some(slice(term, 1, n - 1))
    } else {
        None
    }
}

/// The expression `e`, after optional white space if `allow` says so.
fn with_space<'a>(e: ParseExpr<'a>, allow: bool) -> (r: ParseExpr<'a>)
    ensures
        r@ == spaced(e@, allow),
{
    if allow {
        let es = vec![ParseExpr::Atomic(AtomicExpr::Regex("\\s*")), e];
        assert(contents(es@) =~= seq![ws(), e@]);
        ParseExpr::Sequence { es }
    } else {
        e
    }
}

/// Lowers an `atomic` node.
pub fn atomic_into_parse_expr<'a>(out: ParseOut<'a>, allow_whitespace: bool) -> (r: Option<
    ParseExpr<'a>,
>)
    ensures
        expr_view(r) == lower_atomic(out@, allow_whitespace),
{
    proof {
        reveal_with_fuel(ParseOut::content, 4);
        reveal_with_fuel(ParseGrouping::content, 4);
    }
    if !same_text(out.rule, "atomic") {
        return None;
    }
    match out.out {
        ParseGrouping::Out(inner) => {
            let ParseOut { rule, out: shape } = *inner;
            match shape {
                ParseGrouping::Sequence { ts } => {
                    if same_text(rule, "regex") && ts.len() >= 2 {
                        assert(nodes(ts@)[1] == ts@[1]@);
                        match &ts[1].out {
                            ParseGrouping::Terminal(term) => match strip(term) {
                                Some(p) => Some(
                                    with_space(
                                        ParseExpr::Atomic(AtomicExpr::Regex(p)),
                                        allow_whitespace,
                                    ),
                                ),
                                None => None,
                            },
                            _ => None,
                        }
                    } else {
                        None
                    }
                },
                ParseGrouping::Terminal(term) => {
                    if same_text(rule, "non_terminal") {
                        if same_text(term, "EOF") {
                            Some(
                                with_space(ParseExpr::Atomic(AtomicExpr::EndOfFile), allow_whitespace),
                            )
                        } else {
                            Some(
                                with_space(
                                    ParseExpr::Atomic(AtomicExpr::NonTerminal(term)),
                                    allow_whitespace,
                                ),
                            )
                        }
                    } else if same_text(rule, "terminal") || same_text(rule, "STRING") {
                        match strip(term) {
                            Some(t) => Some(
                                with_space(
                                    ParseExpr::Atomic(AtomicExpr::Terminal(t)),
                                    allow_whitespace,
                                ),
                            ),
                            None => None,
                        }
                    } else {
                        None
                    }
                },
                _ => None,
            }
        },
        _ => None,
    }
}

/// Lowers a `primary` node.
pub fn primary_into_parse_expr<'a>(out: ParseOut<'a>, allow_whitespace: bool) -> (r: Option<
    ParseExpr<'a>,
>)
    ensures
        expr_view(r) == lower_primary(out@, allow_whitespace),
    decreases out, 0nat,
{
    proof {
        reveal_with_fuel(ParseOut::content, 3);
        reveal_with_fuel(ParseGrouping::content, 3);
    }
    if !same_text(out.rule, "primary") {
        return None;
    }
    match out.out {
        ParseGrouping::Out(inner) => {
            if same_text(inner.rule, "primary") {
                primary_into_parse_expr(*inner, allow_whitespace)
            } else if same_text(inner.rule, "atomic") {
                atomic_into_parse_expr(*inner, allow_whitespace)
            } else {
                None
            }
        },
        ParseGrouping::Sequence { mut ts } => {
            if ts.len() >= 3 {
                let ghost all = ts@;
                ts.pop();
                ts.pop();
                match ts.pop() {
                    Some(sequence) => {
                        assert(nodes(all)[all.len() - 3] == sequence@);
                        sequence_into_parse_expr(sequence)
                    },
                    None => None,
                }
            } else {
                None
            }
        },
        _ => None,
    }
}

/// Lowers a `modifier` node.
pub fn modifier_into_parse_expr<'a>(out: ParseOut<'a>, allow_whitespace: bool) -> (r: Option<
    ParseExpr<'a>,
>)
    ensures
        expr_view(r) == lower_modifier(out@, allow_whitespace),
    decreases out, 0nat,
{
    proof {
        reveal_with_fuel(ParseOut::content, 3);
        reveal_with_fuel(ParseGrouping::content, 3);
    }
    if !same_text(out.rule, "modifier") {
        return None;
    }
    match out.out {
        ParseGrouping::Out(inner) => {
            if same_text(inner.rule, "primary") {
                primary_into_parse_expr(*inner, allow_whitespace)
            } else if same_text(inner.rule, "modifier") {
                modifier_into_parse_expr(*inner, allow_whitespace)
            } else {
                None
            }
        },
        ParseGrouping::Sequence { mut ts } => {
            if ts.len() >= 2 {
                let ghost all = ts@;
                let last = ts.pop();
                let first = ts.pop();
                match (last, first) {
                    (Some(modifier), Some(primary)) => {
                        assert(nodes(all)[all.len() - 1] == modifier@);
                        assert(nodes(all)[all.len() - 2] == primary@);
                        match modifier.out {
                            ParseGrouping::Terminal(mark) => {
                                match primary_into_parse_expr(primary, true) {
                                    Some(e) => {
                                        if same_text(mark, "+") {
                                            Some(ParseExpr::OneOrMore { e: Box::new(e) })
                                        } else if same_text(mark, "*") {
                                            Some(ParseExpr::ZeroOrMore { e: Box::new(e) })
                                        } else if same_text(mark, "?") {
                                            Some(ParseExpr::Optional { e: Box::new(e) })
                                        } else {
                                            None
                                        }
                                    },
                                    None => None,
                                }
                            },
                            shape => {
                                let bare = match primary.out {
                                    ParseGrouping::Terminal(mark) => same_text(mark, "_"),
                                    _ => false,
                                };
                                if bare {
                                    primary_into_parse_expr(
                                        ParseOut { rule: modifier.rule, out: shape },
                                        false,
                                    )
                                } else {
                                    None
                                }
                            },
                        }
                    },
                    _ => None,
                }
            } else {
                None
            }
        },
        _ => None,
    }
}

/// Lowers a `sequence` node.
pub fn sequence_into_parse_expr<'a>(out: ParseOut<'a>) -> (r: Option<ParseExpr<'a>>)
    ensures
        expr_view(r) == lower_sequence(out@),
    decreases out, 0nat,
{
    proof {
        reveal_with_fuel(ParseOut::content, 3);
        reveal_with_fuel(ParseGrouping::content, 3);
    }
    if !same_text(out.rule, "sequence") {
        return None;
    }
    match out.out {
        ParseGrouping::Out(inner) => {
            if same_text(inner.rule, "sequence") {
                sequence_into_parse_expr(*inner)
            } else if same_text(inner.rule, "modifier") {
                modifier_into_parse_expr(*inner, true)
            } else {
                None
            }
        },
        ParseGrouping::Sequence { mut ts } => {
            let n: usize = ts.len();
            if n == 3 || n == 5 {
                let ghost all = ts@;
                let sequence = ts.pop();
                ts.truncate(1);
                let modifier = ts.pop();
                match (modifier, sequence) {
                    (Some(modifier), Some(sequence)) => {
                        assert(nodes(all)[0] == modifier@);
                        assert(nodes(all)[all.len() - 1] == sequence@);
                        match (
                            modifier_into_parse_expr(modifier, true),
                            sequence_into_parse_expr(sequence),
                        ) {
                            (Some(head), Some(tail)) => {
                                let es = vec![head, tail];
                                assert(contents(es@) =~= seq![head@, tail@]);
                                if n == 3 {
                                    Some(ParseExpr::Sequence { es })
                                } else {
                                    Some(ParseExpr::Choice { es })
                                }
                            },
                            _ => None,
                        }
                    },
                    _ => None,
                }
            } else {
                None
            }
        },
        _ => None,
    }
}

/// Lowers a `rule` node to the rule's name, its capture flag and its expression.
pub fn rule_into_parse_expr<'a>(out: ParseOut<'a>) -> (r: Option<(&'a str, bool, ParseExpr<'a>)>)
    ensures
        match r {
            Some((id, meta, e)) => lower_rule(out@) == Some(
                RuleDef { name: id@, expr: e@, capture: meta },
            ),
            None => lower_rule(out@) is None,
        },
{
    proof {
        reveal_with_fuel(ParseOut::content, 3);
        reveal_with_fuel(ParseGrouping::content, 4);
    }
    if !same_text(out.rule, "rule") {
        return None;
    }
    match out.out {
        ParseGrouping::Sequence { mut ts } => {
            if ts.len() >= 9 {
                let ghost all = ts@;
                ts.pop();
                ts.pop();
                ts.pop();
                let sequence = ts.pop();
                ts.pop();
                ts.pop();
                ts.pop();
                let non_terminal = ts.pop();
                let meta = ts.pop();
                match (meta, non_terminal, sequence) {
                    (Some(meta), Some(non_terminal), Some(sequence)) => {
                        assert(nodes(all)[all.len() - 9] == meta@);
                        assert(nodes(all)[all.len() - 8] == non_terminal@);
                        assert(nodes(all)[all.len() - 4] == sequence@);
                        let capture = match meta.out {
                            ParseGrouping::Optional(None) => false,
                            ParseGrouping::Optional(Some(mark)) => match *mark {
                                ParseGrouping::Terminal(m) => {
                                    if same_text(m, "@") {
                                        true
                                    } else {
                                        return None;
                                    }
                                },
                                _ => {
                                    return None;
                                },
                            },
                            _ => {
                                return None;
                            },
                        };
                        let id = match non_terminal.out {
                            ParseGrouping::Terminal(id) => id,
                            _ => {
                                return None;
                            },
                        };
                        match sequence_into_parse_expr(sequence) {
                            Some(e) => Some((id, capture, e)),
                            None => None,
                        }
                    },
                    _ => None,
                }
            } else {
                None
            }
        },
        _ => None,
    }
}

/// The content of a parser that may be missing.
pub open spec fn parser_view<'a>(r: Option<Parser<'a>>) -> Option<Grammar> {
    match r {
        Some(p) => Some(p@),
        None => None,
    }
}

/// Lowers a `grammar` node to the parser it describes: the rules in the order of
/// the text, starting from the first.
pub fn grammar_into_parser<'a>(out: ParseOut<'a>) -> (r: Option<Parser<'a>>)
    ensures
        parser_view(r) == lower_grammar(out@),
{
    proof {
        reveal_with_fuel(ParseOut::content, 3);
        reveal_with_fuel(ParseGrouping::content, 3);
    }
    let ghost goal = lower_grammar(out@);
    if !same_text(out.rule, "grammar") {
        return None;
    }
    match out.out {
        ParseGrouping::Sequence { mut ts } => {
            if ts.len() >= 3 {
                let ghost all = ts@;
                ts.pop();
                ts.pop();
                match ts.pop() {
                    Some(list) => {
                        assert(nodes(all)[all.len() - 3] == list@);
                        match list.out {
                            ParseGrouping::Sequence { ts: rules } => {
                                let ghost rs = nodes(rules@);
                                let mut defs: Vec<(&'a str, (ParseExpr<'a>, bool))> = Vec::new();
                                assert(rule_defs(defs@) =~= Seq::<RuleDef>::empty());
                                for rule in it: rules
                                    invariant
                                        rs == nodes(it.seq()),
                                        goal == lower_grammar(out@),
                                        lower_rules(rs, rs.len() as int) is None ==> goal is None,
                                        it.seq().len() == rs.len(),
                                        lower_rules(rs, it.index() as int) == Some(rule_defs(defs@)),
                                {
                                    let ghost before = rule_defs(defs@);
                                    assert(rs[it.index() as int] == rule@);
                                    match rule_into_parse_expr(rule) {
                                        Some((id, meta, e)) => {
                                            defs.push((id, (e, meta)));
                                            assert(rule_defs(defs@) =~= before.push(
                                                RuleDef { name: id@, expr: e@, capture: meta },
                                            ));
                                        },
                                        None => {
                                            proof {
                                                lemma_lower_rules_fails(
                                                    rs,
                                                    it.index() as int + 1,
                                                    rs.len() as int,
                                                );
                                            }
                                            return None;
                                        },
                                    }
                                }
                                if defs.len() > 0 {
                                    let start = defs[0].0;
                                    assert(rule_defs(defs@)[0] == rule_def(defs@[0]));
                                    Some(Parser { rules: defs, start })
                                } else {
                                    None
                                }
                            },
                            _ => None,
                        }
                    },
                    None => None,
                }
            } else {
                None
            }
        },
        _ => None,
    }
}

/// Once a rule cannot be lowered, the rules cannot be lowered.
proof fn lemma_lower_rules_fails(rs: Seq<Node>, k: int, n: int)
    requires
        0 <= k <= n,
        lower_rules(rs, k) is None,
    ensures
        lower_rules(rs, n) is None,
    decreases n - k,
{
    if k < n {
        lemma_lower_rules_fails(rs, k, n - 1);
    }
}

/// The content of what building a parser from a grammar text yields.
pub open spec fn built_view<'a>(r: Result<Parser<'a>, ParseError<&'a str>>) -> Result<
    Grammar,
    Diagnostic,
> {
    match r {
        Ok(p) => Ok(p@),
        Err(e) => Err(e@),
    }
}

/// What a grammar text describes: the diagnostic where the text is not in the
/// notation, and else the grammar that its tree stands for.
pub open spec fn built(src: Seq<u8>) -> Result<Grammar, Diagnostic> {
    match parse_result(notation(), src) {
        Err(d) => Err(d),
        Ok(tree) => Ok(lower_grammar(tree)->Some_0),
    }
}

/// Builds the parser that a grammar text describes, or says why the text is not
/// in the notation.
pub fn build_from_grammar<'a>(grammar_text: &'a str) -> (r: Result<Parser<'a>, ParseError<&'a str>>)
    requires
        notation().usable(),
    ensures
        built_view(r) == built(grammar_text.spec_bytes()),
        r matches Ok(parser) ==> parser@.well_formed(),
{
    let reader: Parser<'a> = Parser::grammar_parser();
    match reader.parse(grammar_text) {
        Err(e) => Err(e),
        Ok(tree) => {
            proof {
                encode_utf8_valid_utf8(grammar_text@);
                lemma_notation_tree_lowers(grammar_text.spec_bytes());
                lemma_lowered_grammar_well_formed(tree@);
            }
            match grammar_into_parser(tree) {
                Some(parser) => Ok(parser),
                None => unreached(),
            }
        },
    }
}

/// Builds the parser that a grammar text describes if the engine accepts the
/// notation's own patterns, and says `None` if it does not.
pub fn try_build_from_grammar<'a>(grammar_text: &'a str) -> (r: Option<
    Result<Parser<'a>, ParseError<&'a str>>,
>)
    ensures
        r is Some <==> notation().usable(),
        r matches Some(parsed) ==> built_view(parsed) == built(grammar_text.spec_bytes()),
        r matches Some(Ok(parser)) ==> parser@.well_formed(),
{
    let reader: Parser<'a> = Parser::grammar_parser();
    if reader.is_usable() {
        Some(build_from_grammar(grammar_text))
    } else {
        None
    }
}

/// What a node is lowered to is well formed: each choice has two alternatives.
pub proof fn lemma_lowered_well_formed(n: Node, allow: bool)
    ensures
        lower_atomic(n, allow) matches Some(e) ==> e.well_formed(),
        lower_primary(n, allow) matches Some(e) ==> e.well_formed(),
        lower_modifier(n, allow) matches Some(e) ==> e.well_formed(),
        lower_sequence(n) matches Some(e) ==> e.well_formed(),
    decreases n,
{
    if lower_atomic(n, allow) is Some && allow {
        let inner = lower_atomic(n, allow)->Some_0->Sequence_0;
        assert forall|i: int| 0 <= i < inner.len() implies (#[trigger] inner[i]).well_formed() by {}
    }
    match n.out {
        Grouping::Out(inner) => {
            lemma_lowered_well_formed(*inner, allow);
            lemma_lowered_well_formed(*inner, true);
        },
        Grouping::Sequence(ts) => {
            if ts.len() >= 3 {
                lemma_lowered_well_formed(ts[ts.len() - 3], allow);
            }
            if ts.len() >= 2 {
                lemma_lowered_well_formed(ts[ts.len() - 1], false);
                lemma_lowered_well_formed(ts[ts.len() - 2], true);
            }
            if ts.len() == 3 || ts.len() == 5 {
                lemma_lowered_well_formed(ts[0], true);
                lemma_lowered_well_formed(ts[ts.len() - 1], true);
                if lower_sequence(n) is Some {
                    let head = lower_modifier(ts[0], true)->Some_0;
                    let tail = lower_sequence(ts[ts.len() - 1])->Some_0;
                    let both = seq![head, tail];
                    assert forall|i: int| 0 <= i < both.len() implies (#[trigger] both[i]).well_formed() by {}
                    assert(Expr::Sequence(both)->Sequence_0 == both);
                    assert(Expr::Choice(both)->Choice_0 == both);
                }
            }
        },
        _ => {},
    }
}

/// The rules that nodes are lowered to are well formed.
pub proof fn lemma_lowered_rules_well_formed(rs: Seq<Node>, k: int)
    requires
        0 <= k <= rs.len(),
    ensures
        lower_rules(rs, k) matches Some(defs) ==> defs.len() == k && forall|i: int|
            0 <= i < k ==> (#[trigger] defs[i]).expr.well_formed(),
    decreases k,
{
    if k > 0 {
        lemma_lowered_rules_well_formed(rs, k - 1);
        let n = rs[k - 1];
        if lower_rule(n) is Some {
            let ts = n.out->Sequence_0;
            lemma_lowered_well_formed(ts[ts.len() - 4], true);
        }
    }
}

/// The grammar that a tree is lowered to is well formed, so that it is fit to be
/// evaluated as soon as the engine accepts its patterns.
pub proof fn lemma_lowered_grammar_well_formed(n: Node)
    ensures
        lower_grammar(n) matches Some(g) ==> g.well_formed(),
{
    if lower_grammar(n) is Some {
        let ts = n.out->Sequence_0;
        let rs = ts[ts.len() - 3].out->Sequence_0;
        lemma_lowered_rules_well_formed(rs, rs.len() as int);
    }
}

} // verus!
