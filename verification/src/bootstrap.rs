//! The parser of the grammar notation itself, assembled by hand.
//!
//! ```text
//! grammar      = rule+ \s* EOF
//! rule         = \s* "@"? non_terminal \s* "=" \s* sequence \s* ";" \s*
//! sequence     = modifier \s+ sequence | modifier \s* "|" \s* sequence | modifier
//! modifier     = "_" primary | primary "+" | primary "*" | primary "?" | primary
//! primary      = "(" \s* sequence \s* ")" | atomic
//! atomic       = terminal | regex | non_terminal
//! regex        = "re" STRING
//! non_terminal = ALPHA (ALPHA | DIGIT)*          (captures)
//! terminal     = STRING
//! STRING       = "\"" (escape | char)* "\""      (captures)
//! escape       = "\\" \S
//! char         = [^|\\"]
//! ALPHA        = [a-zA-Z_]
//! DIGIT        = [0-9]
//! ```

use vstd::prelude::*;
use crate::expr::{contents, Atom, AtomicExpr, Expr, ParseExpr};
use crate::parser::{rule_defs, Grammar, Parser, RuleDef};

verus! {

/// The expression that matches the text `t` literally.
pub open spec fn lit(t: &str) -> Expr {
    Expr::Atomic(Atom::Literal(t@))
}

/// The expression that matches the regular expression `p`.
pub open spec fn pat(p: &str) -> Expr {
    Expr::Atomic(Atom::Pattern(p@))
}

/// The expression that matches what the rule `n` matches.
pub open spec fn call(n: &str) -> Expr {
    Expr::Atomic(Atom::Rule(n@))
}

/// The expression that matches the end of the input.
pub open spec fn end() -> Expr {
    Expr::Atomic(Atom::EndOfInput)
}

/// Optional white space.
pub open spec fn ws() -> Expr {
    pat("\\s*")
}

/// A grammar: rules, then optional white space up to the end of the input.
pub open spec fn grammar_expr() -> Expr {
    Expr::Sequence(seq![Expr::OneOrMore(Box::new(call("rule"))), ws(), end()])
}

/// A rule: an optional `@`, a name, `=`, a sequence and `;`, with optional white space around each.
pub open spec fn rule_expr() -> Expr {
    Expr::Sequence(
        seq![
            ws(),
            Expr::Optional(Box::new(lit("@"))),
            call("non_terminal"),
            ws(),
            lit("="),
            ws(),
            call("sequence"),
            ws(),
            lit(";"),
            ws(),
        ],
    )
}

/// A sequence: modifiers side by side, or alternatives with `|` between them.
pub open spec fn sequence_expr() -> Expr {
    Expr::Choice(
        seq![
            Expr::Sequence(seq![call("modifier"), pat("\\s+"), call("sequence")]),
            Expr::Sequence(seq![call("modifier"), ws(), lit("|"), ws(), call("sequence")]),
            call("modifier"),
        ],
    )
}

/// A modifier: a primary with `_` before it, or with `+`, `*` or `?` after it, or alone.
pub open spec fn modifier_expr() -> Expr {
    Expr::Choice(
        seq![
            Expr::Sequence(seq![lit("_"), call("primary")]),
            Expr::Sequence(seq![call("primary"), lit("+")]),
            Expr::Sequence(seq![call("primary"), lit("*")]),
            Expr::Sequence(seq![call("primary"), lit("?")]),
            call("primary"),
        ],
    )
}

/// A primary: a sequence in parentheses, or an atom.
pub open spec fn primary_expr() -> Expr {
    Expr::Choice(
        seq![
            Expr::Sequence(seq![lit("("), ws(), call("sequence"), ws(), lit(")")]),
            call("atomic"),
        ],
    )
}

/// An atom: a quoted text, a regular expression or a name.
pub open spec fn atomic_expr() -> Expr {
    Expr::Choice(seq![call("terminal"), call("regex"), call("non_terminal")])
}

/// A regular expression: `re` and a quoted text.
pub open spec fn regex_expr() -> Expr {
    Expr::Sequence(seq![lit("re"), call("STRING")])
}

/// A name: a letter or `_`, then letters, `_` and digits.
pub open spec fn non_terminal_expr() -> Expr {
    Expr::Sequence(
        seq![
            call("ALPHA"),
            Expr::ZeroOrMore(Box::new(Expr::Choice(seq![call("ALPHA"), call("DIGIT")]))),
        ],
    )
}

/// A literal: a quoted text.
pub open spec fn terminal_expr() -> Expr {
    call("STRING")
}

/// A quoted text: escapes and other characters between double quotes.
pub open spec fn string_expr() -> Expr {
    Expr::Sequence(
        seq![
            lit("\""),
            Expr::ZeroOrMore(Box::new(Expr::Choice(seq![call("escape"), call("char")]))),
            lit("\""),
        ],
    )
}

/// An escape: a backslash and a character that is not white space.
pub open spec fn escape_expr() -> Expr {
    Expr::Sequence(seq![lit("\\"), pat("\\S")])
}

/// A character that may stand unescaped in a quoted text.
pub open spec fn char_expr() -> Expr {
    pat("[^\\|\\\\\"]")
}

/// A letter or `_`.
pub open spec fn alpha_expr() -> Expr {
    pat("[a-zA-Z_]")
}

/// A digit.
pub open spec fn digit_expr() -> Expr {
    pat("[0-9]")
}

/// One rule definition.
pub open spec fn def(name: &str, expr: Expr, capture: bool) -> RuleDef {
    RuleDef { name: name@, expr, capture }
}

/// The grammar of the grammar notation.
pub open spec fn notation() -> Grammar {
    Grammar {
        rules: seq![
            def("grammar", grammar_expr(), false),
            def("rule", rule_expr(), false),
            def("sequence", sequence_expr(), false),
            def("modifier", modifier_expr(), false),
            def("primary", primary_expr(), false),
            def("atomic", atomic_expr(), false),
            def("terminal", terminal_expr(), false),
            def("non_terminal", non_terminal_expr(), true),
            def("regex", regex_expr(), false),
            def("STRING", string_expr(), true),
            def("escape", escape_expr(), false),
            def("char", char_expr(), false),
            def("ALPHA", alpha_expr(), false),
            def("DIGIT", digit_expr(), false),
        ],
        start: "grammar"@,
    }
}

/// The expression that matches the text `t` literally.
fn literal<'a>(t: &'a str) -> (e: ParseExpr<'a>)
    ensures
        e@ == lit(t),
{
    ParseExpr::Atomic(AtomicExpr::Terminal(t))
}

/// The expression that matches the regular expression `p`.
fn pattern<'a>(p: &'a str) -> (e: ParseExpr<'a>)
    ensures
        e@ == pat(p),
{
    ParseExpr::Atomic(AtomicExpr::Regex(p))
}

/// The expression that matches what the rule `n` matches.
fn reference<'a>(n: &'a str) -> (e: ParseExpr<'a>)
    ensures
        e@ == call(n),
{
    ParseExpr::Atomic(AtomicExpr::NonTerminal(n))
}

/// Optional white space.
fn space<'a>() -> (e: ParseExpr<'a>)
    ensures
        e@ == ws(),
{
    pattern("\\s*")
}

/// The sequence of `es`.
fn sequence_of<'a>(es: Vec<ParseExpr<'a>>) -> (e: ParseExpr<'a>)
    ensures
        e@ == Expr::Sequence(contents(es@)),
{
    ParseExpr::Sequence { es }
}

/// The choice between `es`.
fn choice_of<'a>(es: Vec<ParseExpr<'a>>) -> (e: ParseExpr<'a>)
    ensures
        e@ == Expr::Choice(contents(es@)),
{
    ParseExpr::Choice { es }
}

/// The expression of the rule `grammar`.
fn grammar_rule<'a>() -> (e: ParseExpr<'a>)
    ensures
        e@ == grammar_expr(),
{
    let es = vec![
        ParseExpr::OneOrMore { e: Box::new(reference("rule")) },
        space(),
        ParseExpr::Atomic(AtomicExpr::EndOfFile),
    ];
    assert(contents(es@) =~= seq![Expr::OneOrMore(Box::new(call("rule"))), ws(), end()]);
    sequence_of(es)
}

/// The expression of the rule `rule`.
fn rule_rule<'a>() -> (e: ParseExpr<'a>)
    ensures
        e@ == rule_expr(),
{
    let es = vec![
        space(),
        ParseExpr::Optional { e: Box::new(literal("@")) },
        reference("non_terminal"),
        space(),
        literal("="),
        space(),
        reference("sequence"),
        space(),
        literal(";"),
        space(),
    ];
    assert(contents(es@) =~= seq![
        ws(),
        Expr::Optional(Box::new(lit("@"))),
        call("non_terminal"),
        ws(),
        lit("="),
        ws(),
        call("sequence"),
        ws(),
        lit(";"),
        ws(),
    ]);
    sequence_of(es)
}

/// The expression of the rule `sequence`.
fn sequence_rule<'a>() -> (e: ParseExpr<'a>)
    ensures
        e@ == sequence_expr(),
{
    let spaced = vec![reference("modifier"), pattern("\\s+"), reference("sequence")];
    assert(contents(spaced@) =~= seq![call("modifier"), pat("\\s+"), call("sequence")]);
    let barred = vec![reference("modifier"), space(), literal("|"), space(), reference("sequence")];
    assert(contents(barred@) =~= seq![call("modifier"), ws(), lit("|"), ws(), call("sequence")]);
    let es = vec![sequence_of(spaced), sequence_of(barred), reference("modifier")];
    assert(contents(es@) =~= seq![
        Expr::Sequence(seq![call("modifier"), pat("\\s+"), call("sequence")]),
        Expr::Sequence(seq![call("modifier"), ws(), lit("|"), ws(), call("sequence")]),
        call("modifier"),
    ]);
    choice_of(es)
}

/// The expression of the rule `modifier`.
fn modifier_rule<'a>() -> (e: ParseExpr<'a>)
    ensures
        e@ == modifier_expr(),
{
    let bare = vec![literal("_"), reference("primary")];
    assert(contents(bare@) =~= seq![lit("_"), call("primary")]);
    let many = vec![reference("primary"), literal("+")];
    assert(contents(many@) =~= seq![call("primary"), lit("+")]);
    let any = vec![reference("primary"), literal("*")];
    assert(contents(any@) =~= seq![call("primary"), lit("*")]);
    let maybe = vec![reference("primary"), literal("?")];
    assert(contents(maybe@) =~= seq![call("primary"), lit("?")]);
    let es = vec![
        sequence_of(bare),
        sequence_of(many),
        sequence_of(any),
        sequence_of(maybe),
        reference("primary"),
    ];
    assert(contents(es@) =~= seq![
        Expr::Sequence(seq![lit("_"), call("primary")]),
        Expr::Sequence(seq![call("primary"), lit("+")]),
        Expr::Sequence(seq![call("primary"), lit("*")]),
        Expr::Sequence(seq![call("primary"), lit("?")]),
        call("primary"),
    ]);
    choice_of(es)
}

/// The expression of the rule `primary`.
fn primary_rule<'a>() -> (e: ParseExpr<'a>)
    ensures
        e@ == primary_expr(),
{
    let group = vec![literal("("), space(), reference("sequence"), space(), literal(")")];
    assert(contents(group@) =~= seq![lit("("), ws(), call("sequence"), ws(), lit(")")]);
    let es = vec![sequence_of(group), reference("atomic")];
    assert(contents(es@) =~= seq![
        Expr::Sequence(seq![lit("("), ws(), call("sequence"), ws(), lit(")")]),
        call("atomic"),
    ]);
    choice_of(es)
}

/// The expression of the rule `atomic`.
fn atomic_rule<'a>() -> (e: ParseExpr<'a>)
    ensures
        e@ == atomic_expr(),
{
    let es = vec![reference("terminal"), reference("regex"), reference("non_terminal")];
    assert(contents(es@) =~= seq![call("terminal"), call("regex"), call("non_terminal")]);
    choice_of(es)
}

/// The expression of the rule `regex`.
fn regex_rule<'a>() -> (e: ParseExpr<'a>)
    ensures
        e@ == regex_expr(),
{
    let es = vec![literal("re"), reference("STRING")];
    assert(contents(es@) =~= seq![lit("re"), call("STRING")]);
    sequence_of(es)
}

/// The expression of the rule `non_terminal`.
fn non_terminal_rule<'a>() -> (e: ParseExpr<'a>)
    ensures
        e@ == non_terminal_expr(),
{
    let either = vec![reference("ALPHA"), reference("DIGIT")];
    assert(contents(either@) =~= seq![call("ALPHA"), call("DIGIT")]);
    let es = vec![reference("ALPHA"), ParseExpr::ZeroOrMore { e: Box::new(choice_of(either)) }];
    assert(contents(es@) =~= seq![
        call("ALPHA"),
        Expr::ZeroOrMore(Box::new(Expr::Choice(seq![call("ALPHA"), call("DIGIT")]))),
    ]);
    sequence_of(es)
}

/// The expression of the rule `STRING`.
fn string_rule<'a>() -> (e: ParseExpr<'a>)
    ensures
        e@ == string_expr(),
{
    let either = vec![reference("escape"), reference("char")];
    assert(contents(either@) =~= seq![call("escape"), call("char")]);
    let es = vec![
        literal("\""),
        ParseExpr::ZeroOrMore { e: Box::new(choice_of(either)) },
        literal("\""),
    ];
    assert(contents(es@) =~= seq![
        lit("\""),
        Expr::ZeroOrMore(Box::new(Expr::Choice(seq![call("escape"), call("char")]))),
        lit("\""),
    ]);
    sequence_of(es)
}

/// The expression of the rule `escape`.
fn escape_rule<'a>() -> (e: ParseExpr<'a>)
    ensures
        e@ == escape_expr(),
{
    let es = vec![literal("\\"), pattern("\\S")];
    assert(contents(es@) =~= seq![lit("\\"), pat("\\S")]);
    sequence_of(es)
}

impl<'a> Parser<'a> {
    /// The parser of the grammar notation.
    pub fn grammar_parser() -> (r: Parser<'a>)
        ensures
            r@ == notation(),
    {
        let rules = vec![
            ("grammar", (grammar_rule(), false)),
            ("rule", (rule_rule(), false)),
            ("sequence", (sequence_rule(), false)),
            ("modifier", (modifier_rule(), false)),
            ("primary", (primary_rule(), false)),
            ("atomic", (atomic_rule(), false)),
            ("terminal", (reference("STRING"), false)),
            ("non_terminal", (non_terminal_rule(), true)),
            ("regex", (regex_rule(), false)),
            ("STRING", (string_rule(), true)),
            ("escape", (escape_rule(), false)),
            ("char", (pattern("[^\\|\\\\\"]"), false)),
            ("ALPHA", (pattern("[a-zA-Z_]"), false)),
            ("DIGIT", (pattern("[0-9]"), false)),
        ];
        assert(rule_defs(rules@) =~= notation().rules);
        Parser { rules, start: "grammar" }
    }
}

} // verus!
