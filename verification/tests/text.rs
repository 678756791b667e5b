use parsergen::text::{begins_with, byte_len, same_text, slice, sorts_before};

#[test]
fn slice_takes_the_bytes_between_two_cut_points() {
    assert_eq!(slice("hello", 1, 3), "el");
    assert_eq!(slice("hello", 0, 5), "hello");
    assert_eq!(slice("hello", 2, 2), "");
    assert_eq!(slice("aé日b", 1, 6), "é日");
}

#[test]
fn length_is_counted_in_bytes() {
    assert_eq!(byte_len(""), 0);
    assert_eq!(byte_len("abc"), 3);
    assert_eq!(byte_len("é日"), 5);
}

#[test]
fn texts_are_compared_by_content() {
    assert!(same_text("", ""));
    assert!(same_text("abc", "abc"));
    assert!(!same_text("abc", "abd"));
    assert!(!same_text("abc", "ab"));
    assert!(!same_text("ab", "abc"));
    assert!(same_text(&String::from("é"), "é"));
}

#[test]
fn prefix_is_looked_for_at_the_position() {
    assert!(begins_with("abcd", 1, "bc"));
    assert!(begins_with("abcd", 4, ""));
    assert!(begins_with("abcd", 0, "abcd"));
    assert!(!begins_with("abcd", 1, "bd"));
    assert!(!begins_with("abcd", 3, "de"));
    assert!(!begins_with("abcd", 5, ""));
    assert!(!begins_with("abcd", usize::MAX, "a"));
}

#[test]
fn order_is_that_of_the_bytes() {
    assert!(sorts_before("", "a"));
    assert!(sorts_before("a", "b"));
    assert!(sorts_before("a", "ab"));
    assert!(sorts_before("ab", "b"));
    assert!(sorts_before("Z", "a"));
    assert!(sorts_before("z", "é"));
    assert!(!sorts_before("a", "a"));
    assert!(!sorts_before("b", "a"));
    assert!(!sorts_before("ab", "a"));
    assert!(!sorts_before("", ""));
    let mut words = vec!["pear", "apple", "", "fig", "apples", "Fig"];
    words.sort();
    for pair in words.windows(2) {
        assert!(sorts_before(pair[0], pair[1]));
        assert!(!sorts_before(pair[1], pair[0]));
    }
}
