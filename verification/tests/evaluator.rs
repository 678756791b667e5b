use parsergen::eval::pattern_found;
use parsergen::{AtomicExpr, Fallible, ParseError, ParseExpr, ParseGrouping, ParseOut, Parser};

fn lit(t: &'static str) -> ParseExpr<'static> {
    ParseExpr::Atomic(AtomicExpr::Terminal(t))
}

fn pat(p: &'static str) -> ParseExpr<'static> {
    ParseExpr::Atomic(AtomicExpr::Regex(p))
}

fn call(n: &'static str) -> ParseExpr<'static> {
    ParseExpr::Atomic(AtomicExpr::NonTerminal(n))
}

fn seq(es: Vec<ParseExpr<'static>>) -> ParseExpr<'static> {
    ParseExpr::Sequence { es }
}

fn alt(es: Vec<ParseExpr<'static>>) -> ParseExpr<'static> {
    ParseExpr::Choice { es }
}

fn parser() -> Parser<'static> {
    Parser {
        rules: vec![
            ("number", (pat("[0-9]+"), false)),
            ("pair", (seq(vec![call("number"), lit(","), call("number")]), false)),
            ("word", (seq(vec![pat("[a-z]"), ParseExpr::ZeroOrMore { e: Box::new(pat("[a-z]")) }]), true)),
        ],
        start: "pair",
    }
}

fn show_grouping(g: &ParseGrouping) -> String {
    match g {
        ParseGrouping::Terminal(t) => format!("{:?}", t),
        ParseGrouping::Sequence { ts } => {
            let parts: Vec<String> = ts.iter().map(show).collect();
            format!("[{}]", parts.join(" "))
        }
        ParseGrouping::Optional(None) => String::from("?-"),
        ParseGrouping::Optional(Some(g)) => format!("?({})", show_grouping(g)),
        ParseGrouping::Out(n) => format!("<{}>", show(n)),
    }
}

fn show(n: &ParseOut) -> String {
    format!("{}:{}", n.rule, show_grouping(&n.out))
}

fn run(
    e: &ParseExpr<'static>,
    group: bool,
    source: &'static str,
    at: usize,
) -> (Fallible<ParseOut<'static>, ParseError<&'static str>>, usize) {
    let p = parser();
    let mut rules = vec!["top"];
    let mut idx = at;
    let out = e.try_parse(&mut rules, &group, &p, source, &mut idx).expect("can be evaluated");
    assert_eq!(rules, vec!["top"]);
    (out, idx)
}

fn expect_success(r: (Fallible<ParseOut<'static>, ParseError<&'static str>>, usize)) -> (String, usize) {
    match r.0 {
        Fallible::Success(n) => (show(&n), r.1),
        Fallible::Recovered(_, e) => panic!("absorbed:\n{}", e.render()),
        Fallible::Failure(e) => panic!("failed:\n{}", e.render()),
    }
}

fn expect_recovered(
    r: (Fallible<ParseOut<'static>, ParseError<&'static str>>, usize),
) -> (String, ParseError<&'static str>, usize) {
    match r.0 {
        Fallible::Recovered(n, e) => (show(&n), e, r.1),
        Fallible::Success(n) => panic!("succeeded: {}", show(&n)),
        Fallible::Failure(e) => panic!("failed:\n{}", e.render()),
    }
}

fn expect_failure(
    r: (Fallible<ParseOut<'static>, ParseError<&'static str>>, usize),
) -> (ParseError<&'static str>, usize) {
    match r.0 {
        Fallible::Failure(e) => (e, r.1),
        Fallible::Success(n) => panic!("succeeded: {}", show(&n)),
        Fallible::Recovered(n, _) => panic!("recovered: {}", show(&n)),
    }
}

fn position(e: &ParseError<&'static str>) -> usize {
    match e {
        ParseError::BadMatchError { idx, .. } => *idx,
        other => panic!("expected a mismatch, got {}", other.render()),
    }
}

fn sentence(e: &ParseError<&'static str>) -> String {
    match e {
        ParseError::BadMatchError { msg, .. } => msg.clone(),
        other => panic!("expected a mismatch, got {}", other.render()),
    }
}

#[test]
fn literal_consumes_its_bytes() {
    assert_eq!(expect_success(run(&lit("bc"), false, "abcd", 1)), (String::from("top:\"bc\""), 3));
    assert_eq!(expect_success(run(&lit(""), false, "abcd", 4)), (String::from("top:\"\""), 4));
    assert_eq!(expect_success(run(&lit("语"), false, "a语b", 1)), (String::from("top:\"语\""), 4));
}

#[test]
fn literal_mismatch_leaves_the_cursor() {
    let (e, idx) = expect_failure(run(&lit("bd"), false, "abcd", 1));
    assert_eq!(idx, 1);
    match e {
        ParseError::BadMatchError { line, col, idx, msg, terminals, rules } => {
            assert_eq!((line, col, idx), ("abcd", 1, 1));
            assert_eq!(msg, "Expected `bd` here.");
            assert_eq!(terminals, vec!["bd"]);
            assert_eq!(rules, vec!["top"]);
        }
        other => panic!("expected a mismatch, got {}", other.render()),
    }
    let (e, idx) = expect_failure(run(&lit("cde"), false, "abcd", 2));
    assert_eq!((position(&e), idx), (2, 2));
}

#[test]
fn pattern_consumes_what_it_matches_at_the_cursor() {
    assert_eq!(expect_success(run(&pat("[0-9]+"), false, "ab123c", 2)), (String::from("top:\"123\""), 5));
    assert_eq!(expect_success(run(&pat("[0-9]*"), false, "ab", 1)), (String::from("top:\"\""), 1));
    assert_eq!(expect_success(run(&pat("\\s*"), false, "a \t\nb", 1)), (String::from("top:\" \\t\\n\""), 4));
}

#[test]
fn pattern_that_matches_only_later_fails() {
    let (e, idx) = expect_failure(run(&pat("[0-9]+"), false, "ab123c", 1));
    assert_eq!(idx, 1);
    match e {
        ParseError::BadMatchError { idx, msg, terminals, .. } => {
            assert_eq!(idx, 1);
            assert_eq!(msg, "Failed to match `[0-9]+`.");
            assert_eq!(terminals, vec!["[0-9]+"]);
        }
        other => panic!("expected a mismatch, got {}", other.render()),
    }
    let (e, _) = expect_failure(run(&pat("x"), false, "abc", 0));
    assert_eq!(sentence(&e), "Failed to match `x`.");
}

#[test]
fn end_of_input_matches_only_at_the_end() {
    let end = ParseExpr::Atomic(AtomicExpr::EndOfFile);
    assert_eq!(expect_success(run(&end, false, "ab", 2)), (String::from("top:\"EOF\""), 2));
    assert_eq!(expect_success(run(&end, false, "", 0)), (String::from("top:\"EOF\""), 0));
    let (e, idx) = expect_failure(run(&end, false, "ab", 1));
    assert_eq!((position(&e), idx), (1, 1));
    assert_eq!(sentence(&e), "Expected `EOF` here.");
    let (e, _) = expect_failure(run(&end, false, "ab", 0));
    assert_eq!(position(&e), 0);
}

#[test]
fn reference_yields_the_node_of_the_rule() {
    assert_eq!(expect_success(run(&call("number"), false, "42,7", 0)), (String::from("number:\"42\""), 2));
    assert_eq!(
        expect_success(run(&call("pair"), true, "42,7", 0)),
        (String::from("pair:[number:\"42\" pair:\",\" number:\"7\"]"), 4)
    );
    let (e, idx) = expect_failure(run(&call("number"), false, "x", 0));
    assert_eq!(idx, 0);
    match e {
        ParseError::BadMatchError { rules, .. } => assert_eq!(rules, vec!["top", "number"]),
        other => panic!("expected a mismatch, got {}", other.render()),
    }
}

#[test]
fn reference_to_a_missing_rule_is_a_fault() {
    let (e, idx) = expect_failure(run(&call("nothing"), false, "abc", 1));
    assert_eq!(idx, 1);
    assert!(matches!(e, ParseError::UnknownNonTerminal("nothing")));
}

#[test]
fn sequence_collects_its_items() {
    let e = seq(vec![lit("a"), pat("[0-9]"), lit("b")]);
    assert_eq!(expect_success(run(&e, false, "xa1b", 1)), (String::from("top:[top:\"a\" top:\"1\" top:\"b\"]"), 4));
    assert_eq!(expect_success(run(&seq(vec![]), false, "x", 1)), (String::from("top:[]"), 1));
}

#[test]
fn failed_sequence_rewinds_the_cursor() {
    let e = seq(vec![lit("a"), pat("[0-9]"), lit("b")]);
    let (d, idx) = expect_failure(run(&e, false, "xa1c", 1));
    assert_eq!(idx, 1);
    assert_eq!(position(&d), 3);
    assert_eq!(sentence(&d), "Expected `b` here.");
}

#[test]
fn sequence_in_a_capturing_rule_yields_its_text() {
    let e = seq(vec![lit("a"), pat("[0-9]"), lit("b")]);
    assert_eq!(expect_success(run(&e, true, "xa1b", 1)), (String::from("top:\"a1b\""), 4));
    let (tree, d, idx) = expect_recovered(run(&call("word"), false, "hello world", 0));
    assert_eq!((tree.as_str(), idx), ("word:\"hello\"", 5));
    assert_eq!(position(&d), 5);
}

#[test]
fn sequence_hands_on_what_its_items_absorbed() {
    let e = seq(vec![ParseExpr::Optional { e: Box::new(lit("a")) }, lit("b")]);
    let (tree, d, idx) = expect_recovered(run(&e, false, "b", 0));
    assert_eq!((tree.as_str(), idx), ("top:[top:?- top:\"b\"]", 1));
    assert_eq!(position(&d), 0);
    assert_eq!(sentence(&d), "Expected `a` here.");
}

#[test]
fn choice_takes_the_first_alternative_that_matches() {
    let e = alt(vec![lit("ab"), lit("a"), lit("abc")]);
    assert_eq!(expect_success(run(&e, false, "abc", 0)), (String::from("top:<top:\"ab\">"), 2));
    assert_eq!(expect_success(run(&e, false, "ac", 0)), (String::from("top:<top:\"a\">"), 1));
}

#[test]
fn failed_choice_reports_the_furthest_alternative() {
    let e = alt(vec![seq(vec![lit("a"), lit("b"), lit("c")]), seq(vec![lit("a"), lit("x")]), lit("q")]);
    let (d, idx) = expect_failure(run(&e, false, "abd", 0));
    assert_eq!(idx, 0);
    match d {
        ParseError::BadMatchError { idx, terminals, msg, .. } => {
            assert_eq!(idx, 2);
            assert_eq!(terminals, vec!["c"]);
            assert_eq!(msg, "Expected `c` here.");
        }
        other => panic!("expected a mismatch, got {}", other.render()),
    }
}

#[test]
fn choice_that_recovers_merges_what_failed_before() {
    let e = alt(vec![seq(vec![lit("a"), lit("x")]), ParseExpr::ZeroOrMore { e: Box::new(lit("a")) }]);
    let (tree, d, idx) = expect_recovered(run(&e, false, "aab", 0));
    assert_eq!((tree.as_str(), idx), ("top:<top:[top:\"a\" top:\"a\"]>", 2));
    match d {
        ParseError::BadMatchError { idx, terminals, .. } => {
            assert_eq!(idx, 2);
            assert_eq!(terminals, vec!["a"]);
        }
        other => panic!("expected a mismatch, got {}", other.render()),
    }
}

#[test]
fn optional_never_fails() {
    let present = ParseExpr::Optional { e: Box::new(lit("a")) };
    assert_eq!(expect_success(run(&present, false, "a", 0)), (String::from("top:?(\"a\")"), 1));
    let (tree, d, idx) = expect_recovered(run(&present, false, "b", 0));
    assert_eq!((tree.as_str(), idx), ("top:?-", 0));
    assert_eq!(sentence(&d), "Expected `a` here.");
    let missing = ParseExpr::Optional { e: Box::new(call("nothing")) };
    let (tree, d, idx) = expect_recovered(run(&missing, false, "b", 0));
    assert_eq!((tree.as_str(), idx), ("top:?-", 0));
    assert!(matches!(d, ParseError::UnknownNonTerminal("nothing")));
}

#[test]
fn fault_absorbed_by_an_optional_fails_the_sequence_around_it() {
    let e = seq(vec![lit("a"), ParseExpr::Optional { e: Box::new(call("nothing")) }, lit("b")]);
    let (d, idx) = expect_failure(run(&e, false, "ab", 0));
    assert_eq!(idx, 0);
    assert!(matches!(d, ParseError::UnknownNonTerminal("nothing")));
}

#[test]
fn repetition_ends_on_the_first_failure() {
    let e = ParseExpr::ZeroOrMore { e: Box::new(pat("[ab]")) };
    let (tree, d, idx) = expect_recovered(run(&e, false, "abbac", 0));
    assert_eq!((tree.as_str(), idx), ("top:[top:\"a\" top:\"b\" top:\"b\" top:\"a\"]", 4));
    assert_eq!(position(&d), 4);
    assert_eq!(sentence(&d), "Expected `[ab]` here.");
    let (tree, d, idx) = expect_recovered(run(&e, false, "c", 0));
    assert_eq!((tree.as_str(), idx), ("top:[]", 0));
    assert_eq!(position(&d), 0);
}

#[test]
fn one_or_more_needs_one_match() {
    let e = ParseExpr::OneOrMore { e: Box::new(lit("a")) };
    let (tree, _, idx) = expect_recovered(run(&e, false, "aab", 0));
    assert_eq!((tree.as_str(), idx), ("top:[top:\"a\" top:\"a\"]", 2));
    let (d, idx) = expect_failure(run(&e, false, "b", 0));
    assert_eq!(idx, 0);
    assert_eq!(sentence(&d), "Expected `a` here.");
}

#[test]
fn repetition_keeps_the_furthest_failure_of_its_rounds() {
    let round = seq(vec![lit("a"), ParseExpr::Optional { e: Box::new(seq(vec![lit("b"), lit("c")])) }]);
    let e = ParseExpr::ZeroOrMore { e: Box::new(round) };
    let (tree, d, idx) = expect_recovered(run(&e, false, "abcabd", 0));
    assert_eq!(idx, 4);
    assert_eq!(tree, "top:[top:[top:\"a\" top:?([top:\"b\" top:\"c\"])] top:[top:\"a\" top:?-]]");
    match d {
        ParseError::BadMatchError { idx, terminals, .. } => {
            assert_eq!(idx, 5);
            assert_eq!(terminals, vec!["c"]);
        }
        other => panic!("expected a mismatch, got {}", other.render()),
    }
}

#[test]
fn round_that_matches_nothing_ends_the_repetition() {
    let e = ParseExpr::ZeroOrMore { e: Box::new(pat("x*")) };
    assert_eq!(expect_success(run(&e, false, "abc", 1)), (String::from("top:[]"), 1));
    let e = ParseExpr::OneOrMore { e: Box::new(pat("x*")) };
    assert_eq!(expect_success(run(&e, false, "abc", 1)), (String::from("top:[top:\"\"]"), 1));
    let e = ParseExpr::ZeroOrMore { e: Box::new(ParseExpr::Optional { e: Box::new(lit("x")) }) };
    let (tree, d, idx) = expect_recovered(run(&e, false, "xxa", 0));
    assert_eq!((tree.as_str(), idx), ("top:[top:?(\"x\") top:?(\"x\")]", 2));
    assert_eq!(position(&d), 2);
}

#[test]
fn repetition_in_a_capturing_rule_yields_its_text() {
    let e = ParseExpr::ZeroOrMore { e: Box::new(pat("[ab]")) };
    let (tree, _, idx) = expect_recovered(run(&e, true, "xabbac", 1));
    assert_eq!((tree.as_str(), idx), ("top:\"abba\"", 5));
}

#[test]
fn fault_within_a_repetition_fails_it() {
    let e = ParseExpr::ZeroOrMore { e: Box::new(alt(vec![lit("a"), call("nothing")])) };
    let (d, idx) = expect_failure(run(&e, false, "aab", 0));
    assert_eq!(idx, 0);
    assert!(matches!(d, ParseError::UnknownNonTerminal("nothing")));
}

#[test]
fn atomic_expression_can_be_matched_directly() {
    let p = parser();
    let mut rules = vec!["outer", "inner"];
    let mut idx = 2;
    let atom = AtomicExpr::Regex("[0-9]+");
    match atom.try_parse(&mut rules, &p, "ab123c", &mut idx) {
        Some(Fallible::Success(n)) => {
            assert_eq!(show(&n), "inner:\"123\"");
        }
        _ => panic!("expected a match"),
    }
    assert_eq!(idx, 5);
    assert_eq!(rules, vec!["outer", "inner"]);
}

#[test]
fn nothing_is_evaluated_where_it_cannot_be() {
    let p = parser();
    let group = false;
    let mut idx = 0;
    let mut no_rules: Vec<&str> = vec![];
    assert!(lit("a").try_parse(&mut no_rules, &group, &p, "a", &mut idx).is_none());
    let mut rules = vec!["top"];
    let mut inside = 1;
    assert!(lit("a").try_parse(&mut rules, &group, &p, "éa", &mut inside).is_none());
    assert_eq!(inside, 1);
    let mut beyond = 4;
    assert!(lit("a").try_parse(&mut rules, &group, &p, "abc", &mut beyond).is_none());
    assert!(pat("(").try_parse(&mut rules, &group, &p, "(", &mut idx).is_none());
    assert!(alt(vec![]).try_parse(&mut rules, &group, &p, "(", &mut idx).is_none());
    assert!(AtomicExpr::Regex("[").try_parse(&mut rules, &p, "[", &mut idx).is_none());
    let broken = Parser { rules: vec![("x", (pat("a{"), false))], start: "x" };
    assert!(!broken.is_usable());
    assert!(lit("a").try_parse(&mut rules, &group, &broken, "a", &mut idx).is_none());
    assert!(broken.try_parse("a").is_none());
    assert_eq!(idx, 0);
}

#[test]
fn parser_starts_from_its_start_rule() {
    let p = parser();
    let tree = p.try_parse("12,345").expect("usable").ok().expect("parses");
    assert_eq!(show(&tree), "pair:[number:\"12\" pair:\",\" number:\"345\"]");
    let rest = p.try_parse("12,345 and more").expect("usable").ok().expect("parses a prefix");
    assert_eq!(show(&rest), "pair:[number:\"12\" pair:\",\" number:\"345\"]");
    let missing = Parser { rules: vec![("x", (lit("a"), false))], start: "y" };
    assert!(matches!(missing.try_parse("a"), Some(Err(ParseError::UnknownNonTerminal("y")))));
    let empty: Parser = Parser { rules: vec![], start: "y" };
    assert!(matches!(empty.try_parse(""), Some(Err(ParseError::UnknownNonTerminal("y")))));
}

#[test]
fn rule_that_calls_itself_at_once_is_a_fault() {
    let p = Parser {
        rules: vec![("x", (call("y"), false)), ("y", (call("x"), false))],
        start: "x",
    };
    assert!(matches!(p.try_parse("a"), Some(Err(ParseError::LeftRecursion(_)))));
    let deep = Parser {
        rules: vec![
            ("a", (call("b"), false)),
            ("b", (call("c"), false)),
            ("c", (lit("x"), false)),
        ],
        start: "a",
    };
    let tree = deep.try_parse("x").expect("usable").ok().expect("parses");
    assert_eq!(show(&tree), "c:\"x\"");
}

fn with_answer(
    found: Option<(usize, usize)>,
    source: &'static str,
    at: usize,
) -> (Fallible<ParseOut<'static>, ParseError<&'static str>>, usize) {
    let rules = vec!["outer", "inner"];
    let mut idx = at;
    let out = pattern_found("p+", found, &rules, source, &mut idx);
    (out, idx)
}

#[test]
fn match_at_the_cursor_is_consumed() {
    assert_eq!(expect_success(with_answer(Some((0, 2)), "abcd", 1)), (String::from("inner:\"bc\""), 3));
    assert_eq!(expect_success(with_answer(Some((0, 0)), "abcd", 4)), (String::from("inner:\"\""), 4));
    assert_eq!(expect_success(with_answer(Some((0, 3)), "a日b", 1)), (String::from("inner:\"日\""), 4));
}

#[test]
fn any_other_answer_of_the_engine_is_a_mismatch() {
    for found in [None, Some((1, 2)), Some((0, 4)), Some((0, usize::MAX)), Some((2, 1))] {
        let (e, idx) = expect_failure(with_answer(found, "abcd", 1));
        assert_eq!(idx, 1);
        match e {
            ParseError::BadMatchError { line, col, idx, msg, terminals, rules } => {
                assert_eq!((line, col, idx), ("abcd", 1, 1));
                assert_eq!(msg, "Failed to match `p+`.");
                assert_eq!(terminals, vec!["p+"]);
                assert_eq!(rules, vec!["outer", "inner"]);
            }
            other => panic!("expected a mismatch, got {}", other.render()),
        }
    }
    let (e, idx) = expect_failure(with_answer(Some((0, 1)), "a日b", 1));
    assert_eq!((position(&e), idx), (1, 1));
}

#[test]
fn missing_rule_is_reported_whatever_the_cursor_and_the_open_rules() {
    let p = parser();
    let atom = AtomicExpr::NonTerminal("nothing");
    let mut no_rules: Vec<&str> = vec![];
    let mut idx = 7;
    assert!(atom.is_ready(&no_rules, &p, "abc", 7));
    match atom.try_parse(&mut no_rules, &p, "abc", &mut idx) {
        Some(Fallible::Failure(ParseError::UnknownNonTerminal(name))) => assert_eq!(name, "nothing"),
        _ => panic!("expected an unknown rule"),
    }
    assert_eq!(idx, 7);
    assert!(no_rules.is_empty());
    let broken = Parser { rules: vec![("x", (pat("a{"), false))], start: "x" };
    let mut rules = vec!["top"];
    let mut inside = 1;
    assert!(matches!(
        atom.try_parse(&mut rules, &broken, "éa", &mut inside),
        Some(Fallible::Failure(ParseError::UnknownNonTerminal("nothing")))
    ));
    assert_eq!((inside, rules), (1, vec!["top"]));
}

#[test]
fn end_of_input_needs_only_an_open_rule_and_a_cursor_within_the_input() {
    let p = Parser { rules: vec![("x", (pat("a{"), false))], start: "x" };
    let end = AtomicExpr::EndOfFile;
    let mut rules = vec!["top"];
    let mut idx = 3;
    match end.try_parse(&mut rules, &p, "éa", &mut idx) {
        Some(Fallible::Success(n)) => assert_eq!(show(&n), "top:\"EOF\""),
        _ => panic!("expected the end of input"),
    }
    assert_eq!(idx, 3);
    let mut inside = 1;
    match end.try_parse(&mut rules, &p, "é\nab", &mut inside) {
        Some(Fallible::Failure(ParseError::BadMatchError { line, col, idx, msg, terminals, rules })) => {
            assert_eq!((line, col, idx), ("é", 1, 1));
            assert_eq!(msg, "Expected `EOF` here.");
            assert_eq!(terminals, vec!["EOF"]);
            assert_eq!(rules, vec!["top"]);
        }
        _ => panic!("expected a mismatch"),
    }
    assert_eq!(inside, 1);
    let mut beyond = 4;
    assert!(end.try_parse(&mut rules, &p, "éa", &mut beyond).is_none());
    let mut no_rules: Vec<&str> = vec![];
    assert!(end.try_parse(&mut no_rules, &p, "éa", &mut idx).is_none());
    assert!(!end.is_ready(&no_rules, &p, "éa", 3));
}

#[test]
fn literal_needs_no_usable_parser() {
    let broken = Parser { rules: vec![("x", (pat("a{"), false))], start: "x" };
    let mut rules = vec!["top"];
    let mut idx = 0;
    let atom = AtomicExpr::Terminal("é");
    assert!(matches!(atom.try_parse(&mut rules, &broken, "éa", &mut idx), Some(Fallible::Success(_))));
    assert_eq!(idx, 2);
    let mut inside = 1;
    assert!(atom.try_parse(&mut rules, &broken, "éa", &mut inside).is_none());
    assert!(AtomicExpr::NonTerminal("x").try_parse(&mut rules, &broken, "éa", &mut idx).is_none());
}
