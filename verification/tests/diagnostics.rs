use parsergen::error::{expectation_message, insert_text, layout};
use parsergen::{Fallible, ParseError};

fn mismatch<'a>(source: &'a str, idx: usize, wanted: Vec<&'a str>, rule: &'a str) -> ParseError<&'a str> {
    ParseError::new_bad_match(source, &idx, String::from("ignored"), wanted, vec![rule])
}

#[test]
fn into_result_drops_absorbed_failure() {
    let clean: Fallible<u8, u8> = Fallible::Success(1);
    let soft: Fallible<u8, u8> = Fallible::Recovered(2, 9);
    let hard: Fallible<u8, u8> = Fallible::Failure(3);
    assert_eq!(clean.into_result(), Ok(1));
    assert_eq!(soft.into_result(), Ok(2));
    assert_eq!(hard.into_result(), Err(3));
}

#[test]
fn bad_match_on_single_line() {
    let source = "abc def";
    let e = ParseError::new_bad_match(source, &4, String::from("m"), vec!["x", "a", "x"], vec!["r"]);
    match e {
        ParseError::BadMatchError { line, col, idx, msg, terminals, rules } => {
            assert_eq!(line, "abc def");
            assert_eq!(col, 4);
            assert_eq!(idx, 4);
            assert_eq!(msg, "m");
            assert_eq!(terminals, vec!["a", "x"]);
            assert_eq!(rules, vec!["r"]);
        }
        _ => panic!("expected a mismatch"),
    }
}

fn line_and_column(source: &str, idx: usize) -> (String, usize) {
    match mismatch(source, idx, vec!["x"], "r") {
        ParseError::BadMatchError { line, col, .. } => (String::from(line), col),
        _ => panic!("expected a mismatch"),
    }
}

#[test]
fn bad_match_finds_the_line_around_the_position() {
    let source = "one\ntwo\nthree";
    assert_eq!(line_and_column(source, 0), (String::from("one"), 0));
    assert_eq!(line_and_column(source, 2), (String::from("one"), 2));
    assert_eq!(line_and_column(source, 3), (String::from("one"), 3));
    assert_eq!(line_and_column(source, 4), (String::from("two"), 0));
    assert_eq!(line_and_column(source, 6), (String::from("two"), 2));
    assert_eq!(line_and_column(source, 7), (String::from("two"), 3));
    assert_eq!(line_and_column(source, 8), (String::from("three"), 0));
    assert_eq!(line_and_column(source, 13), (String::from("three"), 5));
}

#[test]
fn bad_match_at_the_edges_of_the_input() {
    assert_eq!(line_and_column("", 0), (String::from(""), 0));
    assert_eq!(line_and_column("\n", 0), (String::from(""), 0));
    assert_eq!(line_and_column("\n", 1), (String::from(""), 0));
    assert_eq!(line_and_column("a\n", 2), (String::from(""), 0));
    assert_eq!(line_and_column("a\n\nb", 2), (String::from(""), 0));
}

#[test]
fn expectations_are_kept_in_order_and_once() {
    let mut set: Vec<&str> = Vec::new();
    for x in ["m", "b", "z", "b", "a", "m", "ab", ""] {
        insert_text(&mut set, x);
    }
    assert_eq!(set, vec!["", "a", "ab", "b", "m", "z"]);
}

#[test]
fn message_names_the_expectations() {
    assert_eq!(expectation_message(&vec![]), "(no expectations)");
    assert_eq!(expectation_message(&vec!["a"]), "Expected `a` here.");
    assert_eq!(expectation_message(&vec!["a", "b"]), "Expected one of `a` or `b`.");
    assert_eq!(expectation_message(&vec!["a", "b", "c"]), "Expected one of `a`, `b` or `c`.");
    assert_eq!(
        expectation_message(&vec!["a", "b", "c", "d"]),
        "Expected one of `a`, `b`, `c` or `d`."
    );
}

#[test]
fn collecting_nothing_gives_nothing() {
    assert!(matches!(ParseError::collect_furthest(vec![]), Fallible::Success(None)));
}

#[test]
fn collecting_keeps_the_furthest_and_joins_what_it_expected() {
    let source = "ab\ncdef";
    let errors = vec![
        mismatch(source, 1, vec!["early"], "first"),
        mismatch(source, 5, vec!["y", "x"], "second"),
        mismatch(source, 3, vec!["middle"], "third"),
        mismatch(source, 5, vec!["x", "w"], "fourth"),
    ];
    match ParseError::collect_furthest(errors) {
        Fallible::Success(Some(ParseError::BadMatchError { line, col, idx, msg, terminals, rules })) => {
            assert_eq!(idx, 5);
            assert_eq!(col, 2);
            assert_eq!(line, "cdef");
            assert_eq!(terminals, vec!["w", "x", "y"]);
            assert_eq!(msg, "Expected one of `w`, `x` or `y`.");
            assert_eq!(rules, vec!["second"]);
        }
        _ => panic!("expected a merged mismatch"),
    }
}

#[test]
fn collecting_one_mismatch_rewrites_its_sentence() {
    let errors = vec![ParseError::new_bad_match("abc", &1, String::from("Failed to match `x`."), vec!["x"], vec!["r"])];
    match ParseError::collect_furthest(errors) {
        Fallible::Success(Some(ParseError::BadMatchError { idx, msg, .. })) => {
            assert_eq!(idx, 1);
            assert_eq!(msg, "Expected `x` here.");
        }
        _ => panic!("expected a merged mismatch"),
    }
}

#[test]
fn collecting_mismatches_that_expect_nothing_gives_nothing() {
    let errors = vec![mismatch("abc", 1, vec![], "r"), mismatch("abc", 0, vec!["x"], "r")];
    assert!(matches!(ParseError::collect_furthest(errors), Fallible::Success(None)));
}

#[test]
fn collecting_returns_the_first_grammar_fault() {
    let errors = vec![
        mismatch("abc", 2, vec!["x"], "r"),
        ParseError::UnknownNonTerminal("first"),
        ParseError::LeftRecursion("second"),
        ParseError::UnknownNonTerminal("third"),
    ];
    match ParseError::collect_furthest(errors) {
        Fallible::Failure(ParseError::UnknownNonTerminal(name)) => assert_eq!(name, "first"),
        _ => panic!("expected the first fault"),
    }
}

#[test]
fn mismatch_is_shown_with_a_caret_under_the_position() {
    let e = ParseError::new_bad_match(
        "first\nsecond line\nthird",
        &13,
        String::from("Expected `x` here."),
        vec!["x"],
        vec!["prog", "item"],
    );
    assert_eq!(
        e.render(),
        "Expected `x` here.\nsecond line\n       ^\nrules: [\"prog\", \"item\"]\n"
    );
    let e = ParseError::new_bad_match("abc", &0, String::from("m"), vec![], vec![]);
    assert_eq!(e.render(), "m\nabc\n^\nrules: []\n");
}

#[test]
fn grammar_faults_are_shown_in_one_line() {
    let e: ParseError<&str> = ParseError::UnknownNonTerminal("missing");
    assert_eq!(e.render(), "Grammar Error - Unknown rule: `missing`");
    let e: ParseError<&str> = ParseError::LeftRecursion("again");
    assert_eq!(e.render(), "Grammar Error - Left recursion in rule: `again`");
}

#[test]
fn owned_diagnostic_holds_the_same_text() {
    let e = ParseError::new_bad_match("a\nbc", &3, String::from("m"), vec!["y", "x"], vec!["r", "s"]);
    let shown = e.render();
    let owned: ParseError<String> = ParseError::from(e);
    assert_eq!(owned.render(), shown);
    match owned {
        ParseError::BadMatchError { line, col, idx, msg, terminals, rules } => {
            assert_eq!(line, "bc");
            assert_eq!(col, 1);
            assert_eq!(idx, 3);
            assert_eq!(msg, "m");
            assert_eq!(terminals, vec![String::from("x"), String::from("y")]);
            assert_eq!(rules, vec![String::from("r"), String::from("s")]);
        }
        _ => panic!("expected a mismatch"),
    }
    let fault: ParseError<&str> = ParseError::UnknownNonTerminal("y");
    let owned: ParseError<String> = fault.into();
    assert!(matches!(owned, ParseError::UnknownNonTerminal(name) if name == "y"));
}

#[test]
fn open_rules_are_shown_as_a_list_of_strings() {
    let e = ParseError::new_bad_match("ab", &1, String::from("Expected `b` here."), vec!["b"], vec!["x"]);
    assert_eq!(e.render(), "Expected `b` here.\nab\n ^\nrules: [\"x\"]\n");
}

#[test]
fn names_of_open_rules_are_escaped() {
    let e = ParseError::new_bad_match("ab", &0, String::from("m"), vec![], vec!["a\"b", "c\\d", "e\nf"]);
    assert_eq!(e.render(), "m\nab\n^\nrules: [\"a\\\"b\", \"c\\\\d\", \"e\\nf\"]\n");
    let owned: ParseError<String> = ParseError::from(e);
    assert_eq!(owned.render(), "m\nab\n^\nrules: [\"a\\\"b\", \"c\\\\d\", \"e\\nf\"]\n");
}

#[test]
fn mismatch_is_laid_out_in_four_lines() {
    assert_eq!(layout("sentence", "the line", 4, "[list]"), "sentence\nthe line\n    ^\nrules: [list]\n");
    assert_eq!(layout("", "", 0, ""), "\n\n^\nrules: \n");
}

#[test]
fn bad_match_within_a_character_shows_its_line() {
    assert_eq!(line_and_column("é\nab", 1), (String::from("é"), 1));
    assert_eq!(line_and_column("x\n日本", 4), (String::from("日本"), 2));
}
