use parsergen::lower::{
    atomic_into_parse_expr, modifier_into_parse_expr, primary_into_parse_expr, rule_into_parse_expr,
    sequence_into_parse_expr, strip,
};
use parsergen::{
    build_from_grammar, grammar_into_parser, try_build_from_grammar, ParseError, ParseGrouping,
    ParseOut, Parser,
};

fn node<'a>(rule: &'a str, out: ParseGrouping<'a>) -> ParseOut<'a> {
    ParseOut { rule, out }
}

fn leaf<'a>(rule: &'a str, text: &'a str) -> ParseOut<'a> {
    node(rule, ParseGrouping::Terminal(text))
}

fn wrap<'a>(rule: &'a str, inner: ParseOut<'a>) -> ParseOut<'a> {
    node(rule, ParseGrouping::Out(Box::new(inner)))
}

fn list<'a>(rule: &'a str, ts: Vec<ParseOut<'a>>) -> ParseOut<'a> {
    node(rule, ParseGrouping::Sequence { ts })
}

fn shown<T: std::fmt::Debug>(x: Option<T>) -> String {
    match x {
        Some(x) => format!("{:?}", x),
        None => String::from("none"),
    }
}

fn rules_of(grammar: &'static str) -> String {
    match try_build_from_grammar(grammar) {
        Some(Ok(parser)) => format!("{:?} from {}", parser.rules, parser.start),
        _ => panic!("grammar could not be built"),
    }
}

#[test]
fn notation_has_its_rules_and_usable_patterns() {
    let notation: Parser = Parser::grammar_parser();
    let names: Vec<&str> = notation.rules.iter().map(|r| r.0).collect();
    assert_eq!(
        names,
        vec![
            "grammar", "rule", "sequence", "modifier", "primary", "atomic", "terminal",
            "non_terminal", "regex", "STRING", "escape", "char", "ALPHA", "DIGIT"
        ]
    );
    let capturing: Vec<&str> = notation.rules.iter().filter(|r| r.1 .1).map(|r| r.0).collect();
    assert_eq!(capturing, vec!["non_terminal", "STRING"]);
    assert_eq!(notation.start, "grammar");
    assert!(notation.is_usable());
    assert_eq!(notation.lookup("primary"), Some(4));
    assert_eq!(notation.lookup("secondary"), None);
}

#[test]
fn quotes_are_stripped_by_the_byte() {
    assert_eq!(strip("\"ab\""), Some("ab"));
    assert_eq!(strip("\"\""), Some(""));
    assert_eq!(strip("xé日y"), Some("é日"));
    assert_eq!(strip("a"), None);
    assert_eq!(strip(""), None);
    assert_eq!(strip("éab"), None);
    assert_eq!(strip("abé"), None);
}

#[test]
fn atoms_are_lowered_by_their_kind() {
    let eof = wrap("atomic", leaf("non_terminal", "EOF"));
    assert_eq!(shown(atomic_into_parse_expr(eof, false)), "Atomic(EndOfFile)");
    let name = wrap("atomic", leaf("non_terminal", "expr"));
    assert_eq!(
        shown(atomic_into_parse_expr(name, true)),
        "Sequence { es: [Atomic(Regex(\"\\\\s*\")), Atomic(NonTerminal(\"expr\"))] }"
    );
    let text = wrap("atomic", leaf("STRING", "\"let\""));
    assert_eq!(shown(atomic_into_parse_expr(text, false)), "Atomic(Terminal(\"let\"))");
    let text = wrap("atomic", leaf("terminal", "\"let\""));
    assert_eq!(shown(atomic_into_parse_expr(text, false)), "Atomic(Terminal(\"let\"))");
    let pattern = wrap("atomic", list("regex", vec![leaf("regex", "re"), leaf("STRING", "\"[0-9]\"")]));
    assert_eq!(shown(atomic_into_parse_expr(pattern, false)), "Atomic(Regex(\"[0-9]\"))");
}

#[test]
fn nodes_of_another_shape_are_not_lowered() {
    assert_eq!(shown(atomic_into_parse_expr(leaf("atomic", "x"), true)), "none");
    assert_eq!(shown(atomic_into_parse_expr(wrap("primary", leaf("non_terminal", "x")), true)), "none");
    assert_eq!(shown(atomic_into_parse_expr(wrap("atomic", leaf("other", "x")), true)), "none");
    assert_eq!(shown(atomic_into_parse_expr(wrap("atomic", leaf("STRING", "x")), true)), "none");
    assert_eq!(shown(atomic_into_parse_expr(wrap("atomic", list("regex", vec![leaf("regex", "re")])), true)), "none");
    assert_eq!(shown(primary_into_parse_expr(leaf("primary", "x"), true)), "none");
    assert_eq!(shown(primary_into_parse_expr(list("primary", vec![leaf("primary", "(")]), true)), "none");
    assert_eq!(shown(modifier_into_parse_expr(leaf("modifier", "x"), true)), "none");
    assert_eq!(shown(modifier_into_parse_expr(list("modifier", vec![leaf("modifier", "+")]), true)), "none");
    assert_eq!(shown(sequence_into_parse_expr(leaf("sequence", "x"))), "none");
    assert_eq!(shown(sequence_into_parse_expr(wrap("sequence", leaf("x", "x")))), "none");
    assert_eq!(shown(rule_into_parse_expr(leaf("rule", "x"))), "none");
    assert!(grammar_into_parser(leaf("grammar", "x")).is_none());
    assert!(grammar_into_parser(list("grammar", vec![list("grammar", vec![]), leaf("grammar", ""), leaf("grammar", "EOF")])).is_none());
    assert!(grammar_into_parser(list("other", vec![])).is_none());
}

#[test]
fn modifiers_wrap_their_primary() {
    let atom = || wrap("primary", wrap("atomic", leaf("non_terminal", "x")));
    let many = wrap("modifier", list("modifier", vec![atom(), leaf("modifier", "+")]));
    assert_eq!(
        shown(modifier_into_parse_expr(many, false)),
        "OneOrMore { e: Sequence { es: [Atomic(Regex(\"\\\\s*\")), Atomic(NonTerminal(\"x\"))] } }"
    );
    let any = list("modifier", vec![atom(), leaf("modifier", "*")]);
    assert_eq!(
        shown(modifier_into_parse_expr(any, false)),
        "ZeroOrMore { e: Sequence { es: [Atomic(Regex(\"\\\\s*\")), Atomic(NonTerminal(\"x\"))] } }"
    );
    let maybe = list("modifier", vec![atom(), leaf("modifier", "?")]);
    assert_eq!(
        shown(modifier_into_parse_expr(maybe, false)),
        "Optional { e: Sequence { es: [Atomic(Regex(\"\\\\s*\")), Atomic(NonTerminal(\"x\"))] } }"
    );
    let bare = list("modifier", vec![leaf("modifier", "_"), atom()]);
    assert_eq!(shown(modifier_into_parse_expr(bare, true)), "Atomic(NonTerminal(\"x\"))");
    let plain = wrap("modifier", atom());
    assert_eq!(
        shown(modifier_into_parse_expr(plain, true)),
        "Sequence { es: [Atomic(Regex(\"\\\\s*\")), Atomic(NonTerminal(\"x\"))] }"
    );
    let unknown = list("modifier", vec![atom(), leaf("modifier", "!")]);
    assert_eq!(shown(modifier_into_parse_expr(unknown, true)), "none");
}

#[test]
fn grammar_text_is_lowered_rule_by_rule() {
    assert_eq!(
        rules_of("x = \"a\" ;"),
        "[(\"x\", (Sequence { es: [Atomic(Regex(\"\\\\s*\")), Atomic(Terminal(\"a\"))] }, false))] from x"
    );
    assert_eq!(
        rules_of(" @x = _\"a\" ;\ny=_x|_EOF;"),
        "[(\"x\", (Atomic(Terminal(\"a\")), true)), \
         (\"y\", (Choice { es: [Atomic(NonTerminal(\"x\")), Atomic(EndOfFile)] }, false))] from x"
    );
    assert_eq!(
        rules_of("x = (_re\"[0-9]\")+ (_\"b\")* (_\"c\" _\"d\")? ;"),
        "[(\"x\", (Sequence { es: [OneOrMore { e: Atomic(Regex(\"[0-9]\")) }, \
         Sequence { es: [ZeroOrMore { e: Atomic(Terminal(\"b\")) }, \
         Optional { e: Sequence { es: [Atomic(Terminal(\"c\")), Atomic(Terminal(\"d\"))] } }] }] }, false))] from x"
    );
    assert_eq!(
        rules_of("x = \"a\"+ ;"),
        "[(\"x\", (OneOrMore { e: Sequence { es: [Atomic(Regex(\"\\\\s*\")), Atomic(Terminal(\"a\"))] } }, false))] from x"
    );
}

#[test]
fn choice_takes_everything_to_its_right() {
    assert_eq!(
        rules_of("x = _\"a\" _\"b\" | _\"c\" _\"d\" ;"),
        "[(\"x\", (Sequence { es: [Atomic(Terminal(\"a\")), Choice { es: [Atomic(Terminal(\"b\")), \
         Sequence { es: [Atomic(Terminal(\"c\")), Atomic(Terminal(\"d\"))] }] }] }, false))] from x"
    );
}

#[test]
fn escapes_stay_in_the_text_of_a_literal() {
    assert_eq!(
        rules_of("x = _\"a\\\"b\" ;"),
        "[(\"x\", (Atomic(Terminal(\"a\\\\\\\"b\")), false))] from x"
    );
}

#[test]
fn tree_of_a_grammar_text_is_lowered_by_hand() {
    let notation: Parser = Parser::grammar_parser();
    let tree = notation.try_parse("a = _\"x\" ; b = _a ;").expect("usable").ok().expect("parses");
    let parser = grammar_into_parser(tree).expect("lowers");
    assert_eq!(parser.start, "a");
    assert_eq!(
        format!("{:?}", parser.rules),
        "[(\"a\", (Atomic(Terminal(\"x\")), false)), (\"b\", (Atomic(NonTerminal(\"a\")), false))]"
    );
}

#[test]
fn grammar_is_built_where_the_notation_can_be_read() {
    let notation: Parser = Parser::grammar_parser();
    assert!(notation.is_usable());
    let parser = build_from_grammar("x = _\"a\" ;").ok().expect("builds");
    assert_eq!(format!("{:?}", parser.rules), "[(\"x\", (Atomic(Terminal(\"a\")), false))]");
    match build_from_grammar("x = \"a\"") {
        Err(ParseError::BadMatchError { idx, terminals, .. }) => {
            assert_eq!(idx, 7);
            assert_eq!(terminals, vec!["*", "+", ";", "?", "\\s+", "|"]);
        }
        _ => panic!("expected a mismatch"),
    }
}
