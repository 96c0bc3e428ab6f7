use docstring_parser::utils::{cleandoc, expandtabs, str_split_lines};

#[test]
fn expandtabs_defaults_to_eight() {
    assert_eq!(expandtabs("a\tb", None), "a        b");
    assert_eq!(expandtabs("a\tb", Some(8)), "a        b");
}

#[test]
fn expandtabs_with_a_size() {
    assert_eq!(expandtabs("\t\tx\t", Some(2)), "    x  ");
    assert_eq!(expandtabs("a\tb", Some(0)), "ab");
    assert_eq!(expandtabs("é\tè", Some(1)), "é è");
    assert_eq!(expandtabs("", Some(4)), "");
    assert_eq!(expandtabs("no tabs", Some(4)), "no tabs");
}

#[test]
fn split_lines_keeps_an_empty_last_line() {
    assert_eq!(str_split_lines(""), vec![""]);
    assert_eq!(str_split_lines("a"), vec!["a"]);
    assert_eq!(str_split_lines("a\n"), vec!["a", ""]);
    assert_eq!(str_split_lines("a\n\nb"), vec!["a", "", "b"]);
    assert_eq!(str_split_lines("\n"), vec!["", ""]);
}

#[test]
fn cleandoc_of_nothing() {
    assert_eq!(cleandoc("", None), "");
    assert_eq!(cleandoc("\n\n\n", None), "");
    assert_eq!(cleandoc("   ", None), "");
}

#[test]
fn cleandoc_strips_the_first_line_by_itself() {
    assert_eq!(cleandoc("      first\n  second\n    third", None), "first\nsecond\n  third");
}

#[test]
fn cleandoc_ignores_blank_lines_for_the_margin() {
    assert_eq!(cleandoc("a\n    b\n \n      c\n", None), "a\nb\n\n  c");
}

#[test]
fn cleandoc_keeps_what_is_left_of_a_long_blank_line() {
    assert_eq!(cleandoc("a\n  b\n     \n  c", None), "a\nb\n   \nc");
    assert_eq!(cleandoc("a\n  b\n     ", None), "a\nb\n   ");
}

#[test]
fn cleandoc_expands_tabs_first() {
    assert_eq!(cleandoc("a\n\tb\n        c", None), "a\nb\nc");
    assert_eq!(cleandoc("a\n\tb\n  c", Some(4)), "a\n  b\nc");
}

#[test]
fn cleandoc_with_wide_whitespace() {
    assert_eq!(cleandoc("a\n\u{3000}\u{3000}b\n c", None), "a\n\u{3000}b\nc");
    assert_eq!(cleandoc("\u{a0}a\n  é\n  è", None), "a\né\nè");
}
