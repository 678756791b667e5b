//! Every tree that the notation's parser yields stands for a grammar.

use vstd::prelude::*;
use vstd::utf8::{
    decode_utf8_encode_utf8, encode_utf8, is_ascii_chars_encode_utf8, is_continuation_byte,
    valid_utf8,
};
use crate::bootstrap::{
    atomic_expr, call, escape_expr, grammar_expr, lit, modifier_expr, non_terminal_expr,
    notation, primary_expr, regex_expr, rule_expr, sequence_expr, string_expr, terminal_expr,
};
use crate::error::Diagnostic;
use crate::expr::{Atom, Expr};
use crate::laws::lemma_eval_sound;
use crate::lower::{
    lower_atomic, lower_grammar, lower_modifier, lower_primary, lower_rule, lower_rules,
    lower_sequence, stripped,
};
use crate::parser::last_definition;
use crate::semantics::{first_frame, parse_result, Descent, Env, Frame};
use crate::shape::{
    lemma_choice_trace_node, lemma_cursor_at, lemma_eval_cut, lemma_literal_matched,
    lemma_rep_trace, lemma_seq_trace,
};
use crate::text::{lemma_between_cuts_valid, text_between};
use crate::tree::{Grouping, Node};

verus! {

/// The length and the first character of each of the notation's rule names: no two
/// names agree in both.
pub proof fn lemma_names()
    ensures
        "grammar"@.len() == 7 && "grammar"@[0] == 'g',
        "rule"@.len() == 4 && "rule"@[0] == 'r',
        "sequence"@.len() == 8 && "sequence"@[0] == 's',
        "modifier"@.len() == 8 && "modifier"@[0] == 'm',
        "primary"@.len() == 7 && "primary"@[0] == 'p',
        "atomic"@.len() == 6 && "atomic"@[0] == 'a',
        "terminal"@.len() == 8 && "terminal"@[0] == 't',
        "non_terminal"@.len() == 12 && "non_terminal"@[0] == 'n',
        "regex"@.len() == 5 && "regex"@[0] == 'r',
        "STRING"@.len() == 6 && "STRING"@[0] == 'S',
        "escape"@.len() == 6 && "escape"@[0] == 'e',
        "char"@.len() == 4 && "char"@[0] == 'c',
        "ALPHA"@.len() == 5 && "ALPHA"@[0] == 'A',
        "DIGIT"@.len() == 5 && "DIGIT"@[0] == 'D',
{
    reveal_strlit("grammar");
    reveal_strlit("rule");
    reveal_strlit("sequence");
    reveal_strlit("modifier");
    reveal_strlit("primary");
    reveal_strlit("atomic");
    reveal_strlit("terminal");
    reveal_strlit("non_terminal");
    reveal_strlit("regex");
    reveal_strlit("STRING");
    reveal_strlit("escape");
    reveal_strlit("char");
    reveal_strlit("ALPHA");
    reveal_strlit("DIGIT");
}

/// Where the notation defines its rules.
pub proof fn lemma_notation_finds()
    ensures
        notation().find("grammar"@) == Some(0int),
        notation().find("rule"@) == Some(1int),
        notation().find("sequence"@) == Some(2int),
        notation().find("modifier"@) == Some(3int),
        notation().find("primary"@) == Some(4int),
        notation().find("atomic"@) == Some(5int),
        notation().find("terminal"@) == Some(6int),
        notation().find("non_terminal"@) == Some(7int),
        notation().find("regex"@) == Some(8int),
        notation().find("STRING"@) == Some(9int),
        notation().find("escape"@) == Some(10int),
        notation().find("char"@) == Some(11int),
        notation().find("ALPHA"@) == Some(12int),
        notation().find("DIGIT"@) == Some(13int),
{
    lemma_names();
    let rules = notation().rules;
    assert(rules.len() == 14);
    assert(rules[0].name == "grammar"@);
    assert(rules[1].name == "rule"@);
    assert(rules[2].name == "sequence"@);
    assert(rules[3].name == "modifier"@);
    assert(rules[4].name == "primary"@);
    assert(rules[5].name == "atomic"@);
    assert(rules[6].name == "terminal"@);
    assert(rules[7].name == "non_terminal"@);
    assert(rules[8].name == "regex"@);
    assert(rules[9].name == "STRING"@);
    assert(rules[10].name == "escape"@);
    assert(rules[11].name == "char"@);
    assert(rules[12].name == "ALPHA"@);
    assert(rules[13].name == "DIGIT"@);
    reveal_with_fuel(last_definition, 15);
}

/// The notation's rules are well formed.
pub proof fn lemma_notation_well_formed()
    ensures
        notation().well_formed(),
{
    reveal_with_fuel(Expr::well_formed, 3);
    let either_name = seq![call("ALPHA"), call("DIGIT")];
    assert(Expr::Choice(either_name)->Choice_0 == either_name);
    let either_char = seq![call("escape"), call("char")];
    assert(Expr::Choice(either_char)->Choice_0 == either_char);
    assert(grammar_expr()->Sequence_0.len() == 3);
    assert(grammar_expr().well_formed()) by {
        let es = grammar_expr()->Sequence_0;
        assert forall|i: int| 0 <= i < es.len() implies (#[trigger] es[i]).well_formed() by {}
    }
    assert(rule_expr().well_formed()) by {
        let es = rule_expr()->Sequence_0;
        assert forall|i: int| 0 <= i < es.len() implies (#[trigger] es[i]).well_formed() by {}
    }
    assert(sequence_expr().well_formed()) by {
        let es = sequence_expr()->Choice_0;
        let a = es[0]->Sequence_0;
        assert forall|i: int| 0 <= i < a.len() implies (#[trigger] a[i]).well_formed() by {}
        let b = es[1]->Sequence_0;
        assert forall|i: int| 0 <= i < b.len() implies (#[trigger] b[i]).well_formed() by {}
        assert forall|i: int| 0 <= i < es.len() implies (#[trigger] es[i]).well_formed() by {}
    }
    assert(modifier_expr().well_formed()) by {
        let es = modifier_expr()->Choice_0;
        let a = es[0]->Sequence_0;
        assert forall|i: int| 0 <= i < a.len() implies (#[trigger] a[i]).well_formed() by {}
        let b = es[1]->Sequence_0;
        assert forall|i: int| 0 <= i < b.len() implies (#[trigger] b[i]).well_formed() by {}
        let c = es[2]->Sequence_0;
        assert forall|i: int| 0 <= i < c.len() implies (#[trigger] c[i]).well_formed() by {}
        let d = es[3]->Sequence_0;
        assert forall|i: int| 0 <= i < d.len() implies (#[trigger] d[i]).well_formed() by {}
        assert forall|i: int| 0 <= i < es.len() implies (#[trigger] es[i]).well_formed() by {}
    }
    assert(primary_expr().well_formed()) by {
        let es = primary_expr()->Choice_0;
        let a = es[0]->Sequence_0;
        assert forall|i: int| 0 <= i < a.len() implies (#[trigger] a[i]).well_formed() by {}
        assert forall|i: int| 0 <= i < es.len() implies (#[trigger] es[i]).well_formed() by {}
    }
    assert(atomic_expr().well_formed()) by {
        let es = atomic_expr()->Choice_0;
        assert forall|i: int| 0 <= i < es.len() implies (#[trigger] es[i]).well_formed() by {}
    }
    assert(regex_expr().well_formed()) by {
        let es = regex_expr()->Sequence_0;
        assert forall|i: int| 0 <= i < es.len() implies (#[trigger] es[i]).well_formed() by {}
    }
    assert(non_terminal_expr().well_formed()) by {
        let es = non_terminal_expr()->Sequence_0;
        assert forall|i: int| 0 <= i < either_name.len() implies (#[trigger] either_name[i]).well_formed() by {}
        assert(Expr::Choice(either_name).well_formed());
        assert forall|i: int| 0 <= i < es.len() implies (#[trigger] es[i]).well_formed() by {}
    }
    assert(string_expr().well_formed()) by {
        let es = string_expr()->Sequence_0;
        assert forall|i: int| 0 <= i < either_char.len() implies (#[trigger] either_char[i]).well_formed() by {}
        assert(Expr::Choice(either_char).well_formed());
        assert forall|i: int| 0 <= i < es.len() implies (#[trigger] es[i]).well_formed() by {}
    }
    assert(escape_expr().well_formed()) by {
        let es = escape_expr()->Sequence_0;
        assert forall|i: int| 0 <= i < es.len() implies (#[trigger] es[i]).well_formed() by {}
    }
    let rules = notation().rules;
    assert forall|i: int| 0 <= i < rules.len() implies (#[trigger] rules[i]).expr.well_formed() by {}
}

impl Env {
    /// The grammar is the notation's, and the text is well formed.
    pub open spec fn reads_notation(self) -> bool {
        self.grammar == notation() && valid_utf8(self.src)
    }

    /// The frame in which the body of rule `i`, entered at `c` by the name `name`,
    /// is evaluated.
    pub open spec fn entered(self, frame: Frame, name: Seq<char>, i: int, c: int) -> Frame {
        Frame {
            capture: self.grammar.rules[i].capture,
            stack: frame.stack.push(name),
            descent: Descent { count: frame.descent.at_cursor(c) + 1, at: c },
        }
    }
}

/// A reference that yields a node yields the node of the rule's body, evaluated in
/// the frame of the rule.
proof fn lemma_enter(env: Env, frame: Frame, name: Seq<char>, i: int, c: int)
    requires
        env.grammar.find(name) == Some(i),
        0 <= i < env.grammar.rules.len(),
        env.eval_atom(frame, Atom::Rule(name), c).node() is Some,
    ensures
        frame.descent.at_cursor(c) < env.grammar.rules.len(),
        env.eval_atom(frame, Atom::Rule(name), c) == env.eval(
            env.entered(frame, name, i, c),
            env.grammar.rules[i].expr,
            c,
        ),
        env.entered(frame, name, i, c).rule() == name,
        env.budget(env.entered(frame, name, i, c).descent, c) < env.budget(frame.descent, c),
{
}

/// A double quote is one byte, and no part of a longer character.
proof fn lemma_quote()
    ensures
        encode_utf8("\""@).len() == 1,
        encode_utf8("\""@)[0] == 0x22,
        !is_continuation_byte(0x22),
{
    reveal_strlit("\"");
    is_ascii_chars_encode_utf8("\""@);
}

/// What a reference to `STRING` yields: a quoted text that can be stripped of its
/// quotes.
pub proof fn lemma_yield_string(env: Env, frame: Frame, c: int)
    requires
        env.reads_notation(),
        env.cut_at(c),
    ensures
        env.eval_atom(frame, Atom::Rule("STRING"@), c).node() matches Some(n) ==> {
            &&& n.rule == "STRING"@
            &&& n.out is Terminal
            &&& stripped(n.out->Terminal_0) is Some
        },
{
    let step = env.eval_atom(frame, Atom::Rule("STRING"@), c);
    if step.node() is Some {
        lemma_notation_finds();
        lemma_notation_well_formed();
        lemma_enter(env, frame, "STRING"@, 9, c);
        let inner = env.entered(frame, "STRING"@, 9, c);
        let es = string_expr()->Sequence_0;
        assert(env.grammar.rules[9].expr == string_expr());
        assert(inner.capture);
        lemma_seq_trace(env, inner, es, c, 0, c, Seq::empty(), Seq::empty());
        let n = step.node()->Some_0;
        let end = step.end;
        assert forall|i: int| 0 <= i < es.len() implies (#[trigger] es[i]).well_formed() by {
            assert(string_expr().well_formed());
        }
        lemma_cursor_at(env, inner, es, 0, c, 1);
        lemma_cursor_at(env, inner, es, 0, c, 2);
        lemma_cursor_at(env, inner, es, 0, c, 3);
        let c1 = env.cursor_at(inner, es, 0, c, 1);
        let c2 = env.cursor_at(inner, es, 0, c, 2);
        lemma_quote();
        assert(env.item_node(inner, es, 0, c, 0) is Some);
        assert(env.item_node(inner, es, 0, c, 2) is Some);
        assert(env.cursor_at(inner, es, 0, c, 0) == c);
        lemma_literal_matched(env, inner, "\""@, c);
        lemma_literal_matched(env, inner, "\""@, c2);
        assert(c1 == c + 1);
        assert(end == c2 + 1);
        assert(env.src[c] == 0x22) by {
            assert(env.src.subrange(c, c + 1)[0] == env.src[c]);
        }
        assert(env.src[c2] == 0x22) by {
            assert(env.src.subrange(c2, c2 + 1)[0] == env.src[c2]);
        }
        let sub = env.src.subrange(c, end);
        lemma_between_cuts_valid(env.src, c, end);
        decode_utf8_encode_utf8(sub);
        assert(n.out == Grouping::Terminal(text_between(env.src, c, end)));
        assert(encode_utf8(text_between(env.src, c, end)) == sub);
        assert(sub[1] == env.src[c + 1]);
        assert(sub[sub.len() - 1] == env.src[c2]);
    }
}

/// What a reference to `non_terminal` yields: the text of a name.
pub proof fn lemma_yield_non_terminal(env: Env, frame: Frame, c: int)
    requires
        env.reads_notation(),
    ensures
        env.eval_atom(frame, Atom::Rule("non_terminal"@), c).node() matches Some(n) ==> {
            &&& n.rule == "non_terminal"@
            &&& n.out is Terminal
        },
{
    let step = env.eval_atom(frame, Atom::Rule("non_terminal"@), c);
    if step.node() is Some {
        lemma_notation_finds();
        lemma_enter(env, frame, "non_terminal"@, 7, c);
        let inner = env.entered(frame, "non_terminal"@, 7, c);
        let es = non_terminal_expr()->Sequence_0;
        assert(env.grammar.rules[7].expr == non_terminal_expr());
        assert(inner.capture);
        lemma_seq_trace(env, inner, es, c, 0, c, Seq::empty(), Seq::empty());
    }
}

/// What a reference to `terminal` yields: the node of its quoted text.
pub proof fn lemma_yield_terminal(env: Env, frame: Frame, c: int)
    requires
        env.reads_notation(),
        env.cut_at(c),
    ensures
        env.eval_atom(frame, Atom::Rule("terminal"@), c).node() matches Some(n) ==> {
            &&& n.rule == "STRING"@
            &&& n.out is Terminal
            &&& stripped(n.out->Terminal_0) is Some
        },
{
    let step = env.eval_atom(frame, Atom::Rule("terminal"@), c);
    if step.node() is Some {
        lemma_notation_finds();
        lemma_enter(env, frame, "terminal"@, 6, c);
        let inner = env.entered(frame, "terminal"@, 6, c);
        assert(env.grammar.rules[6].expr == terminal_expr());
        lemma_yield_string(env, inner, c);
    }
}

/// What a reference to `regex` yields: the mark `re` and the node of a quoted text.
pub proof fn lemma_yield_regex(env: Env, frame: Frame, c: int)
    requires
        env.reads_notation(),
        env.cut_at(c),
    ensures
        env.eval_atom(frame, Atom::Rule("regex"@), c).node() matches Some(n) ==> {
            &&& n.rule == "regex"@
            &&& n.out is Sequence
            &&& n.out->Sequence_0.len() == 2
            &&& n.out->Sequence_0[1].out is Terminal
            &&& stripped(n.out->Sequence_0[1].out->Terminal_0) is Some
        },
{
    let step = env.eval_atom(frame, Atom::Rule("regex"@), c);
    if step.node() is Some {
        lemma_notation_finds();
        lemma_notation_well_formed();
        lemma_enter(env, frame, "regex"@, 8, c);
        let inner = env.entered(frame, "regex"@, 8, c);
        let es = regex_expr()->Sequence_0;
        assert(env.grammar.rules[8].expr == regex_expr());
        assert(!inner.capture);
        lemma_seq_trace(env, inner, es, c, 0, c, Seq::empty(), Seq::empty());
        assert forall|i: int| 0 <= i < es.len() implies (#[trigger] es[i]).well_formed() by {
            assert(regex_expr().well_formed());
        }
        lemma_cursor_at(env, inner, es, 0, c, 1);
        let n = step.node()->Some_0;
        let full = n.out->Sequence_0;
        assert(Some(full[1]) == env.item_node(inner, es, 0, c, 1));
        lemma_yield_string(env, inner, env.cursor_at(inner, es, 0, c, 1));
    }
}

/// What a reference to `atomic` yields can be lowered.
pub proof fn lemma_yield_atomic(env: Env, frame: Frame, c: int)
    requires
        env.reads_notation(),
        env.cut_at(c),
    ensures
        env.eval_atom(frame, Atom::Rule("atomic"@), c).node() matches Some(n) ==> {
            &&& lower_atomic(n, true) is Some
            &&& lower_atomic(n, false) is Some
        },
{
    let step = env.eval_atom(frame, Atom::Rule("atomic"@), c);
    if step.node() is Some {
        lemma_notation_finds();
        lemma_names();
        lemma_enter(env, frame, "atomic"@, 5, c);
        let inner = env.entered(frame, "atomic"@, 5, c);
        let es = atomic_expr()->Choice_0;
        assert(env.grammar.rules[5].expr == atomic_expr());
        lemma_choice_trace_node(env, inner, es, c, 0, Seq::empty());
        let j = choose|j: int|
            0 <= j < es.len() && (#[trigger] env.eval(inner, es[j], c)).node() is Some
                && env.eval_choice(inner, es, c, 0, Seq::empty()).node()->Some_0 == inner.node(
                Grouping::Out(Box::new(env.eval(inner, es[j], c).node()->Some_0)),
            ) && env.eval_choice(inner, es, c, 0, Seq::empty()).end == env.eval(inner, es[j], c).end;
        if j == 0 {
            lemma_yield_terminal(env, inner, c);
        } else if j == 1 {
            lemma_yield_regex(env, inner, c);
        } else {
            lemma_yield_non_terminal(env, inner, c);
        }
    }
}

/// The text of a literal that is one of the notation's marks.
proof fn lemma_marks()
    ensures
        "_"@.len() == 1 && "_"@[0] == '_',
        "+"@.len() == 1 && "+"@[0] == '+',
        "*"@.len() == 1 && "*"@[0] == '*',
        "?"@.len() == 1 && "?"@[0] == '?',
        "@"@.len() == 1 && "@"@[0] == '@',
{
    reveal_strlit("_");
    reveal_strlit("+");
    reveal_strlit("*");
    reveal_strlit("?");
    reveal_strlit("@");
}

/// What a reference to `primary` yields can be lowered.
pub proof fn lemma_yield_primary(env: Env, frame: Frame, c: int)
    requires
        env.reads_notation(),
        env.cut_at(c),
    ensures
        env.eval_atom(frame, Atom::Rule("primary"@), c).node() matches Some(n) ==> {
            &&& lower_primary(n, true) is Some
            &&& lower_primary(n, false) is Some
        },
    decreases env.remaining(c), env.budget(frame.descent, c),
{
    let step = env.eval_atom(frame, Atom::Rule("primary"@), c);
    if step.node() is Some {
        lemma_notation_finds();
        lemma_notation_well_formed();
        lemma_names();
        lemma_enter(env, frame, "primary"@, 4, c);
        let inner = env.entered(frame, "primary"@, 4, c);
        let alts = primary_expr()->Choice_0;
        assert(env.grammar.rules[4].expr == primary_expr());
        lemma_choice_trace_node(env, inner, alts, c, 0, Seq::empty());
        let j = choose|j: int|
            0 <= j < alts.len() && (#[trigger] env.eval(inner, alts[j], c)).node() is Some
                && env.eval_choice(inner, alts, c, 0, Seq::empty()).node()->Some_0 == inner.node(
                Grouping::Out(Box::new(env.eval(inner, alts[j], c).node()->Some_0)),
            ) && env.eval_choice(inner, alts, c, 0, Seq::empty()).end == env.eval(
                inner,
                alts[j],
                c,
            ).end;
        let n = step.node()->Some_0;
        let m = env.eval(inner, alts[j], c).node()->Some_0;
        assert(n == inner.node(Grouping::Out(Box::new(m))));
        reveal_with_fuel(lower_primary, 2);
        if j == 0 {
            let es = alts[0]->Sequence_0;
            assert(es.len() == 5);
            lemma_seq_trace(env, inner, es, c, 0, c, Seq::empty(), Seq::empty());
            assert forall|i: int| 0 <= i < es.len() implies (#[trigger] es[i]).well_formed() by {
                assert(primary_expr().well_formed());
                assert(alts[0].well_formed());
            }
            lemma_cursor_at(env, inner, es, 0, c, 2);
            let full = m.out->Sequence_0;
            assert(Some(full[2]) == env.item_node(inner, es, 0, c, 2));
            assert(es[2] == call("sequence"));
            lemma_yield_sequence(env, inner, env.cursor_at(inner, es, 0, c, 2));
            assert(lower_sequence(full[2]) is Some);
        } else {
            assert(alts[1] == call("atomic"));
            lemma_yield_atomic(env, inner, c);
            assert(m.rule == "atomic"@);
        }
    }
}

/// What a reference to `modifier` yields can be lowered.
pub proof fn lemma_yield_modifier(env: Env, frame: Frame, c: int)
    requires
        env.reads_notation(),
        env.cut_at(c),
    ensures
        env.eval_atom(frame, Atom::Rule("modifier"@), c).node() matches Some(n) ==> {
            &&& lower_modifier(n, true) is Some
            &&& lower_modifier(n, false) is Some
        },
    decreases env.remaining(c), env.budget(frame.descent, c),
{
    let step = env.eval_atom(frame, Atom::Rule("modifier"@), c);
    if step.node() is Some {
        lemma_notation_finds();
        lemma_notation_well_formed();
        lemma_names();
        lemma_marks();
        lemma_enter(env, frame, "modifier"@, 3, c);
        let inner = env.entered(frame, "modifier"@, 3, c);
        let alts = modifier_expr()->Choice_0;
        assert(env.grammar.rules[3].expr == modifier_expr());
        lemma_choice_trace_node(env, inner, alts, c, 0, Seq::empty());
        let j = choose|j: int|
            0 <= j < alts.len() && (#[trigger] env.eval(inner, alts[j], c)).node() is Some
                && env.eval_choice(inner, alts, c, 0, Seq::empty()).node()->Some_0 == inner.node(
                Grouping::Out(Box::new(env.eval(inner, alts[j], c).node()->Some_0)),
            ) && env.eval_choice(inner, alts, c, 0, Seq::empty()).end == env.eval(
                inner,
                alts[j],
                c,
            ).end;
        let n = step.node()->Some_0;
        let m = env.eval(inner, alts[j], c).node()->Some_0;
        assert(n == inner.node(Grouping::Out(Box::new(m))));
        reveal_with_fuel(lower_modifier, 2);
        if j == 4 {
            assert(alts[4] == call("primary"));
            lemma_yield_primary(env, inner, c);
            assert(lower_primary(m, true) is Some);
            assert(m.rule == "primary"@);
        } else {
            let es = alts[j]->Sequence_0;
            assert(alts.len() == 5);
            assert(es.len() == 2) by {
                assert(alts[0]->Sequence_0.len() == 2);
                assert(alts[1]->Sequence_0.len() == 2);
                assert(alts[2]->Sequence_0.len() == 2);
                assert(alts[3]->Sequence_0.len() == 2);
            }
            assert(alts[j] == Expr::Sequence(es));
            lemma_seq_trace(env, inner, es, c, 0, c, Seq::empty(), Seq::empty());
            assert forall|i: int| 0 <= i < es.len() implies (#[trigger] es[i]).well_formed() by {
                assert(modifier_expr().well_formed());
                assert(alts[j].well_formed());
            }
            lemma_cursor_at(env, inner, es, 0, c, 1);
            let c1 = env.cursor_at(inner, es, 0, c, 1);
            let full = m.out->Sequence_0;
            assert(Some(full[0]) == env.item_node(inner, es, 0, c, 0));
            assert(Some(full[1]) == env.item_node(inner, es, 0, c, 1));
            assert(env.cursor_at(inner, es, 0, c, 0) == c);
            if j == 0 {
                assert(es[0] == lit("_"));
                assert(es[1] == call("primary"));
                lemma_literal_matched(env, inner, "_"@, c);
                lemma_yield_primary(env, inner, c1);
                assert(full[0].out == Grouping::Terminal("_"@));
                assert(lower_primary(full[1], false) is Some);
                assert(!(full[1].out is Terminal));
            } else {
                assert(es[0] == call("primary"));
                lemma_yield_primary(env, inner, c);
                assert(lower_primary(full[0], true) is Some);
                if j == 1 {
                    assert(es[1] == lit("+"));
                    lemma_literal_matched(env, inner, "+"@, c1);
                    assert(full[1].out == Grouping::Terminal("+"@));
                } else if j == 2 {
                    assert(es[1] == lit("*"));
                    lemma_literal_matched(env, inner, "*"@, c1);
                    assert(full[1].out == Grouping::Terminal("*"@));
                } else {
                    assert(es[1] == lit("?"));
                    lemma_literal_matched(env, inner, "?"@, c1);
                    assert(full[1].out == Grouping::Terminal("?"@));
                }
            }
            assert(m.rule == "modifier"@);
            assert(lower_modifier(m, true) is Some);
            assert(lower_modifier(m, false) is Some);
        }
    }
}

/// What a reference to `sequence` yields can be lowered.
pub proof fn lemma_yield_sequence(env: Env, frame: Frame, c: int)
    requires
        env.reads_notation(),
        env.cut_at(c),
    ensures
        env.eval_atom(frame, Atom::Rule("sequence"@), c).node() matches Some(n) ==> lower_sequence(
            n,
        ) is Some,
    decreases env.remaining(c), env.budget(frame.descent, c),
{
    let step = env.eval_atom(frame, Atom::Rule("sequence"@), c);
    if step.node() is Some {
        lemma_notation_finds();
        lemma_notation_well_formed();
        lemma_names();
        lemma_enter(env, frame, "sequence"@, 2, c);
        let inner = env.entered(frame, "sequence"@, 2, c);
        let alts = sequence_expr()->Choice_0;
        assert(env.grammar.rules[2].expr == sequence_expr());
        lemma_choice_trace_node(env, inner, alts, c, 0, Seq::empty());
        let j = choose|j: int|
            0 <= j < alts.len() && (#[trigger] env.eval(inner, alts[j], c)).node() is Some
                && env.eval_choice(inner, alts, c, 0, Seq::empty()).node()->Some_0 == inner.node(
                Grouping::Out(Box::new(env.eval(inner, alts[j], c).node()->Some_0)),
            ) && env.eval_choice(inner, alts, c, 0, Seq::empty()).end == env.eval(
                inner,
                alts[j],
                c,
            ).end;
        let n = step.node()->Some_0;
        let m = env.eval(inner, alts[j], c).node()->Some_0;
        assert(n == inner.node(Grouping::Out(Box::new(m))));
        reveal_with_fuel(lower_sequence, 2);
        if j == 2 {
            assert(alts[2] == call("modifier"));
            lemma_yield_modifier(env, inner, c);
            assert(lower_modifier(m, true) is Some);
            assert(m.rule == "modifier"@);
        } else {
            let es = alts[j]->Sequence_0;
            assert(alts.len() == 3);
            let last = es.len() - 1;
            assert(es.len() == 3 || es.len() == 5) by {
                assert(alts[0]->Sequence_0.len() == 3);
                assert(alts[1]->Sequence_0.len() == 5);
            }
            assert(alts[j] == Expr::Sequence(es));
            lemma_seq_trace(env, inner, es, c, 0, c, Seq::empty(), Seq::empty());
            assert forall|i: int| 0 <= i < es.len() implies (#[trigger] es[i]).well_formed() by {
                assert(sequence_expr().well_formed());
                assert(alts[j].well_formed());
            }
            lemma_cursor_at(env, inner, es, 0, c, last);
            let full = m.out->Sequence_0;
            assert(Some(full[0]) == env.item_node(inner, es, 0, c, 0));
            assert(Some(full[last]) == env.item_node(inner, es, 0, c, last));
            assert(env.cursor_at(inner, es, 0, c, 0) == c);
            assert(es[0] == call("modifier"));
            assert(es[last] == call("sequence"));
            lemma_yield_modifier(env, inner, c);
            lemma_yield_sequence(env, inner, env.cursor_at(inner, es, 0, c, last));
            assert(lower_modifier(full[0], true) is Some);
            assert(lower_sequence(full[last]) is Some);
            assert(m.rule == "sequence"@);
            assert(lower_sequence(m) is Some);
        }
    }
}

/// What a reference to `rule` yields can be lowered.
pub proof fn lemma_yield_rule(env: Env, frame: Frame, c: int)
    requires
        env.reads_notation(),
        env.cut_at(c),
    ensures
        env.eval_atom(frame, Atom::Rule("rule"@), c).node() matches Some(n) ==> lower_rule(n) is Some,
{
    let step = env.eval_atom(frame, Atom::Rule("rule"@), c);
    if step.node() is Some {
        lemma_notation_finds();
        lemma_notation_well_formed();
        lemma_names();
        lemma_marks();
        lemma_enter(env, frame, "rule"@, 1, c);
        let inner = env.entered(frame, "rule"@, 1, c);
        let es = rule_expr()->Sequence_0;
        assert(env.grammar.rules[1].expr == rule_expr());
        assert(es.len() == 10);
        lemma_seq_trace(env, inner, es, c, 0, c, Seq::empty(), Seq::empty());
        assert forall|i: int| 0 <= i < es.len() implies (#[trigger] es[i]).well_formed() by {
            assert(rule_expr().well_formed());
        }
        lemma_cursor_at(env, inner, es, 0, c, 1);
        lemma_cursor_at(env, inner, es, 0, c, 2);
        lemma_cursor_at(env, inner, es, 0, c, 6);
        let c1 = env.cursor_at(inner, es, 0, c, 1);
        let n = step.node()->Some_0;
        let full = n.out->Sequence_0;
        assert(Some(full[1]) == env.item_node(inner, es, 0, c, 1));
        assert(Some(full[2]) == env.item_node(inner, es, 0, c, 2));
        assert(Some(full[6]) == env.item_node(inner, es, 0, c, 6));
        assert(es[1] == Expr::Optional(Box::new(lit("@"))));
        assert(es[2] == call("non_terminal"));
        assert(es[6] == call("sequence"));
        lemma_literal_matched(env, inner, "@"@, c1);
        assert(env.eval(inner, lit("@"), c1) == env.eval_atom(inner, Atom::Literal("@"@), c1));
        assert(full[1].out == Grouping::Optional(None) || full[1].out == Grouping::Optional(
            Some(Box::new(Grouping::Terminal("@"@))),
        ));
        lemma_yield_non_terminal(env, inner, env.cursor_at(inner, es, 0, c, 2));
        lemma_yield_sequence(env, inner, env.cursor_at(inner, es, 0, c, 6));
        assert(full[2].out is Terminal);
        assert(lower_sequence(full[6]) is Some);
    }
}

/// Rules that can each be lowered can be lowered together.
proof fn lemma_rules_lower(rs: Seq<Node>, k: int)
    requires
        0 <= k <= rs.len(),
        forall|j: int| 0 <= j < k ==> lower_rule(#[trigger] rs[j]) is Some,
    ensures
        lower_rules(rs, k) is Some,
        lower_rules(rs, k)->Some_0.len() == k,
    decreases k,
{
    if k > 0 {
        lemma_rules_lower(rs, k - 1);
    }
}

/// Every grammar text lowers: the tree that the notation's parser yields for a
/// well-formed text stands for a grammar.
pub proof fn lemma_notation_tree_lowers(src: Seq<u8>)
    requires
        valid_utf8(src),
    ensures
        parse_result(notation(), src) matches Ok(tree) ==> lower_grammar(tree) is Some,
{
    let g = notation();
    let env = Env { grammar: g, src };
    if parse_result(g, src) is Ok {
        lemma_notation_finds();
        lemma_notation_well_formed();
        lemma_names();
        let frame = first_frame(g, false);
        assert(g.rules[0].expr == grammar_expr());
        assert(!g.rules[0].capture);
        let whole = env.eval(frame, grammar_expr(), 0);
        let tree = whole.node()->Some_0;
        assert(parse_result(g, src) == Ok::<Node, Diagnostic>(tree));
        let es = grammar_expr()->Sequence_0;
        assert(es.len() == 3);
        lemma_seq_trace(env, frame, es, 0, 0, 0, Seq::empty(), Seq::empty());
        assert(frame.rule() == "grammar"@);
        let full = tree.out->Sequence_0;
        assert(Some(full[0]) == env.item_node(frame, es, 0, 0, 0));
        assert(env.cursor_at(frame, es, 0, 0, 0) == 0);
        let body = call("rule");
        assert(es[0] == Expr::OneOrMore(Box::new(body)));
        let first = env.eval(frame, body, 0);
        lemma_eval_sound(env, frame, body, 0);
        lemma_eval_cut(env, frame, body, 0);
        let next = first.end;
        let seed = first.node()->Some_0;
        assert(env.eval(frame, es[0], 0) == env.eval_rep(frame, body, 0, next, seq![seed], Seq::empty()));
        lemma_rep_trace(env, frame, body, 0, next, seq![seed], Seq::empty());
        let rounds = env.eval_rep(frame, body, 0, next, seq![seed], Seq::empty());
        assert(full[0] == rounds.node()->Some_0);
        let rs = full[0].out->Sequence_0;
        assert(rs[0] == seq![seed][0]);
        assert forall|j: int| 0 <= j < rs.len() implies lower_rule(#[trigger] rs[j]) is Some by {
            if j == 0 {
                lemma_yield_rule(env, frame, 0);
            } else {
                assert(env.yields_from(frame, body, next, rs[j]));
                let at = choose|at: int|
                    next <= at <= env.src.len() && (env.cut_at(next) ==> env.cut_at(at)) && (
                    #[trigger] env.eval(frame, body, at)).node() == Some(rs[j]);
                lemma_yield_rule(env, frame, at);
            }
        }
        lemma_rules_lower(rs, rs.len() as int);
    }
}

} // verus!
