use parsergen::{try_build_from_grammar, ParseError, ParseGrouping, ParseOut, Parser};

fn build(grammar: &'static str) -> Parser<'static> {
    match try_build_from_grammar(grammar) {
        Some(Ok(parser)) => parser,
        Some(Err(e)) => panic!("grammar rejected:\n{}", e.render()),
        None => panic!("grammar could not be built"),
    }
}

fn parse<'a>(parser: &Parser<'a>, input: &'a str) -> Result<ParseOut<'a>, ParseError<&'a str>> {
    match parser.try_parse(input) {
        Some(result) => result,
        None => panic!("parser is not usable"),
    }
}

fn show_grouping(g: &ParseGrouping, blank_space: bool) -> String {
    match g {
        ParseGrouping::Terminal(t) => {
            if blank_space && t.chars().all(|c| c.is_whitespace()) {
                String::from("\"\"")
            } else {
                format!("{:?}", t)
            }
        }
        ParseGrouping::Sequence { ts } => {
            let parts: Vec<String> = ts.iter().map(|t| show_node(t, blank_space)).collect();
            format!("[{}]", parts.join(" "))
        }
        ParseGrouping::Optional(None) => String::from("?-"),
        ParseGrouping::Optional(Some(g)) => format!("?({})", show_grouping(g, blank_space)),
        ParseGrouping::Out(n) => format!("<{}>", show_node(n, blank_space)),
    }
}

fn show_node(n: &ParseOut, blank_space: bool) -> String {
    format!("{}:{}", n.rule, show_grouping(&n.out, blank_space))
}

fn show(n: &ParseOut) -> String {
    show_node(n, false)
}

const PARAMS: &str = "
        prog       = param_list EOF ;
        param      = (type \":\" ident) ;
        param_list = (\"(\" param+ \")\" )
                   | (\"(\" type+ \")\")
                   | (\"(\" \")\")
                   ;
        type        = ident ;
        @ident     = ALPHA (_ALPHA | _DIGIT)* ;
        ALPHA      = _re\"[a-zA-Z_]\" ;
        DIGIT      = _re\"[0-9]\" ;
    ";

#[test]
fn repetition_then_end_of_input() {
    let parser = build("prog = \"a\"+ EOF ;");
    let tree = parse(&parser, "aaa").ok().expect("parses");
    assert_eq!(tree.rule, "prog");
    match &tree.out {
        ParseGrouping::Sequence { ts } => {
            assert_eq!(ts.len(), 2);
            match &ts[0].out {
                ParseGrouping::Sequence { ts: rounds } => assert_eq!(rounds.len(), 3),
                other => panic!("expected the rounds, got {:?}", other),
            }
            match &ts[1].out {
                ParseGrouping::Sequence { ts: last } => {
                    assert!(matches!(last[last.len() - 1].out, ParseGrouping::Terminal("EOF")));
                }
                other => panic!("expected the end of input, got {:?}", other),
            }
        }
        other => panic!("expected a sequence, got {:?}", other),
    }
    assert_eq!(
        show(&tree),
        "prog:[prog:[prog:[prog:\"\" prog:\"a\"] prog:[prog:\"\" prog:\"a\"] prog:[prog:\"\" prog:\"a\"]] \
         prog:[prog:\"\" prog:\"EOF\"]]"
    );
}

#[test]
fn parameter_list_with_two_parameters() {
    let parser = build(PARAMS);
    let tree = parse(&parser, "(u64: foo bool:bar)").ok().expect("parses");
    assert_eq!(
        show(&tree),
        "prog:[prog:[prog:\"\" param_list:<param_list:[param_list:[param_list:\"\" param_list:\"(\"] \
         param_list:[param_list:[\
         param_list:[param_list:\"\" param:[param:[param:\"\" type:[type:\"\" ident:\"u64\"]] \
         param:[param:[param:\"\" param:\":\"] param:[param:\" \" ident:\"foo\"]]]] \
         param_list:[param_list:\" \" param:[param:[param:\"\" type:[type:\"\" ident:\"bool\"]] \
         param:[param:[param:\"\" param:\":\"] param:[param:\"\" ident:\"bar\"]]]]] \
         param_list:[param_list:\"\" param_list:\")\"]]]>] prog:[prog:\"\" prog:\"EOF\"]]"
    );
}

#[test]
fn parameter_without_name_is_reported_where_the_colon_is_missing() {
    let parser = build(PARAMS);
    let input = "(u64: foo bool   :    bar    bat      )";
    let error = parse(&parser, input).err().expect("fails");
    match error {
        ParseError::BadMatchError { line, col, idx, msg, terminals, rules } => {
            assert_eq!(idx, 38);
            assert_eq!(&input[..idx], "(u64: foo bool   :    bar    bat      ");
            assert_eq!(col, 38);
            assert_eq!(line, input);
            assert_eq!(msg, "Expected `:` here.");
            assert_eq!(terminals, vec![":"]);
            assert_eq!(rules, vec!["prog", "param_list", "param"]);
        }
        other => panic!("expected a mismatch, got {}", other.render()),
    }
}

#[test]
fn failed_choice_expects_every_alternative() {
    let parser = build("x = \"a\" | \"b\" ;");
    match parse(&parser, "c").err().expect("fails") {
        ParseError::BadMatchError { line, col, idx, msg, terminals, rules } => {
            assert_eq!(terminals, vec!["a", "b"]);
            assert_eq!(col, 0);
            assert_eq!(idx, 0);
            assert_eq!(line, "c");
            assert_eq!(msg, "Expected one of `a` or `b`.");
            assert_eq!(rules, vec!["x"]);
        }
        other => panic!("expected a mismatch, got {}", other.render()),
    }
}

#[test]
fn optional_takes_the_absent_branch() {
    let parser = build("x = (\"a\" \"b\")? EOF ;");
    let tree = parse(&parser, "").ok().expect("parses");
    assert_eq!(show(&tree), "x:[x:?- x:[x:\"\" x:\"EOF\"]]");
}

#[test]
fn undefined_rule_is_a_grammar_fault() {
    let parser = build("x = y ;");
    match parse(&parser, "").err().expect("fails") {
        ParseError::UnknownNonTerminal(name) => assert_eq!(name, "y"),
        other => panic!("expected an unknown rule, got {}", other.render()),
    }
}

#[test]
fn parsing_twice_gives_the_same_tree_and_the_same_diagnostic() {
    let parser = build(PARAMS);
    let first = parse(&parser, "(u64: foo bool:bar)").ok().expect("parses");
    let second = parse(&parser, "(u64: foo bool:bar)").ok().expect("parses");
    assert_eq!(show(&first), show(&second));
    let first = parse(&parser, "(u64: foo bat)").err().expect("fails");
    let second = parse(&parser, "(u64: foo bat)").err().expect("fails");
    assert_eq!(first.render(), second.render());
}

#[test]
fn white_space_between_tokens_does_not_change_the_tree() {
    let parser = build(PARAMS);
    let tight = parse(&parser, "(u64:foo bool:bar)").ok().expect("parses");
    let loose = parse(&parser, " (  u64 :\tfoo\n bool  :  bar ) ").ok().expect("parses");
    assert_eq!(show_node(&tight, true), show_node(&loose, true));
}

#[test]
fn left_recursion_is_a_grammar_fault() {
    let parser = build("x = x \"a\" | \"a\" ;");
    match parse(&parser, "aa").err().expect("fails") {
        ParseError::LeftRecursion(name) => assert_eq!(name, "x"),
        other => panic!("expected left recursion, got {}", other.render()),
    }
}

#[test]
fn mutual_left_recursion_is_a_grammar_fault() {
    let parser = build("x = y \"a\" ; y = x \"b\" | \"c\" ;");
    assert!(matches!(parse(&parser, "ca"), Err(ParseError::LeftRecursion(_))));
}

#[test]
fn recursion_that_consumes_input_is_no_fault() {
    let parser = build("x = (\"(\" x \")\") | \"a\" ;");
    let tree = parse(&parser, "((a))").ok().expect("parses");
    assert_eq!(tree.rule, "x");
    assert!(parse(&parser, "((a)").is_err());
}

#[test]
fn repetition_of_an_empty_match_ends() {
    let parser = build("x = (re\"b*\")* \"a\" ;");
    let tree = parse(&parser, "bba").ok().expect("parses");
    assert_eq!(show(&tree), "x:[x:[x:[x:\"\" x:\"bb\"]] x:[x:\"\" x:\"a\"]]");
    let tree = parse(&parser, "a").ok().expect("parses");
    assert_eq!(show(&tree), "x:[x:[] x:[x:\"\" x:\"a\"]]");
}

#[test]
fn capturing_rule_yields_the_text_it_matched() {
    let parser = build("x = word EOF ; @word = (_re\"[a-z]\")+ ;");
    let tree = parse(&parser, "  hello").ok().expect("parses");
    assert_eq!(show(&tree), "x:[x:[x:\"  \" word:\"hello\"] x:[x:\"\" x:\"EOF\"]]");
}

#[test]
fn end_of_input_is_strict() {
    let parser = build("x = \"a\" EOF ;");
    assert!(parse(&parser, "a").is_ok());
    match parse(&parser, "ab").err().expect("fails") {
        ParseError::BadMatchError { idx, msg, terminals, .. } => {
            assert_eq!(idx, 1);
            assert_eq!(msg, "Expected `EOF` here.");
            assert_eq!(terminals, vec!["EOF"]);
        }
        other => panic!("expected a mismatch, got {}", other.render()),
    }
}

#[test]
fn later_definition_of_a_rule_wins() {
    let parser = build("x = y ; y = \"a\" ; y = \"b\" ;");
    assert!(parse(&parser, "b").is_ok());
    assert!(parse(&parser, "a").is_err());
    assert_eq!(parser.start, "x");
}

#[test]
fn grammar_text_outside_the_notation_is_rejected() {
    match try_build_from_grammar("x = ;") {
        Some(Err(ParseError::BadMatchError { idx, col, line, msg, terminals, rules })) => {
            assert_eq!(idx, 4);
            assert_eq!(col, 4);
            assert_eq!(line, "x = ;");
            assert_eq!(terminals, vec!["\"", "(", "[a-zA-Z_]", "_", "re"]);
            assert_eq!(msg, "Expected one of `\"`, `(`, `[a-zA-Z_]`, `_` or `re`.");
            assert_eq!(rules, vec!["grammar", "rule", "sequence", "modifier"]);
        }
        _ => panic!("expected a mismatch"),
    }
}

#[test]
fn unusable_pattern_is_found_before_parsing() {
    let parser = build("x = re\"(\" ;");
    assert!(!parser.is_usable());
    assert!(parser.try_parse("(").is_none());
}

#[test]
fn pattern_must_match_at_the_cursor() {
    let parser = build("x = \"a\" _re\"[0-9]+\" ;");
    assert!(parse(&parser, "a12").is_ok());
    match parse(&parser, "ab12").err().expect("fails") {
        ParseError::BadMatchError { idx, msg, terminals, .. } => {
            assert_eq!(idx, 1);
            assert_eq!(msg, "Expected `[0-9]+` here.");
            assert_eq!(terminals, vec!["[0-9]+"]);
        }
        other => panic!("expected a mismatch, got {}", other.render()),
    }
}

#[test]
fn text_beyond_ascii_is_cut_at_characters() {
    let parser = build("x = \"é\" word EOF ; @word = (_re\"\\S\")+ ;");
    let tree = parse(&parser, "é日本語").ok().expect("parses");
    assert_eq!(show(&tree), "x:[x:[x:\"\" x:\"é\"] x:[x:[x:\"\" word:\"日本語\"] x:[x:\"\" x:\"EOF\"]]]");
    match parse(&parser, "é日本 語").err().expect("fails") {
        ParseError::BadMatchError { idx, col, line, .. } => {
            assert_eq!(idx, 9);
            assert_eq!(col, 9);
            assert_eq!(line, "é日本 語");
        }
        other => panic!("expected a mismatch, got {}", other.render()),
    }
}
