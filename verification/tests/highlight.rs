use parsergen::highlight::{modify_source, Modification, TextColour};

#[test]
fn inserted_text_is_green_and_marked() {
    let source = "(u64: foo bool   :    bar    bat      )";
    let bat = source.find("bat").unwrap() + "bat".len();
    let modifications = vec![
        Modification { string: &source[0..bat], colour: TextColour::Plain, underline: ' ' },
        Modification { string: ": ident", colour: TextColour::Green, underline: '+' },
        Modification { string: &source[bat..], colour: TextColour::Plain, underline: ' ' },
    ];
    let (text, marks) = modify_source(&modifications);
    assert_eq!(text, "(u64: foo bool   :    bar    bat\x1b[32m: ident\x1b[0m      )");
    assert_eq!(marks, "                                \x1b[32m+++++++\x1b[0m       ");
}

#[test]
fn nothing_to_show_gives_two_empty_lines() {
    let (text, marks) = modify_source(&vec![]);
    assert_eq!(text, "");
    assert_eq!(marks, "");
}

#[test]
fn marks_are_counted_by_character() {
    let modifications =
        vec![Modification { string: "é日本", colour: TextColour::Green, underline: '~' }];
    let (text, marks) = modify_source(&modifications);
    assert_eq!(text, "\x1b[32mé日本\x1b[0m");
    assert_eq!(marks, "\x1b[32m~~~\x1b[0m");
}
