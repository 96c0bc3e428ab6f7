use docstring_parser::cursor::{Cursor, CursorGuard};
use docstring_parser::error::{InvalidValue, ParseError};
use docstring_parser::guard::Guard;

#[test]
fn new_cursor_starts_at_zero() {
    let cursor = Cursor::new("abc");
    assert_eq!(cursor.pos, 0);
    assert_eq!(cursor.input, "abc");
    assert!(!cursor.eof());
    assert!(Cursor::new("").eof());
}

#[test]
fn peek_does_not_move() {
    let cursor = Cursor::new("héllo");
    assert_eq!(cursor.peek(), Some('h'));
    assert_eq!(cursor.pos, 0);
    assert_eq!(Cursor::new("").peek(), None);
}

#[test]
fn peek_n_gives_up_to_n_characters() {
    let cursor = Cursor::new("héllo");
    assert_eq!(cursor.peek_n(0), Vec::<char>::new());
    assert_eq!(cursor.peek_n(3), vec!['h', 'é', 'l']);
    assert_eq!(cursor.peek_n(9), vec!['h', 'é', 'l', 'l', 'o']);
    assert_eq!(cursor.pos, 0);
}

#[test]
fn peek_while_returns_the_run() {
    let cursor = Cursor::new("  \tx y");
    assert_eq!(cursor.peek_while(|c| c == ' ' || c == '\t'), "  \t");
    assert_eq!(cursor.peek_while(|c| c == 'x'), "");
    assert_eq!(cursor.pos, 0);
}

#[test]
fn skip_n_counts_characters_not_bytes() {
    let mut cursor = Cursor::new("éèa");
    cursor.skip_n(2);
    assert_eq!(cursor.pos, 4);
    assert_eq!(cursor.peek(), Some('a'));
    cursor.skip_n(5);
    assert_eq!(cursor.pos, 5);
    assert!(cursor.eof());
}

#[test]
fn take_reads_one_character() {
    let mut cursor = Cursor::new("日本");
    assert_eq!(cursor.take(), Some('日'));
    assert_eq!(cursor.pos, 3);
    assert_eq!(cursor.take(), Some('本'));
    assert_eq!(cursor.pos, 6);
    assert_eq!(cursor.take(), None);
    assert_eq!(cursor.pos, 6);
}

#[test]
fn take_n_returns_shorter_slice_at_the_end() {
    let mut cursor = Cursor::new("héllo");
    assert_eq!(cursor.take_n(2), "hé");
    assert_eq!(cursor.pos, 3);
    assert_eq!(cursor.take_n(10), "llo");
    assert_eq!(cursor.pos, 6);
    assert_eq!(cursor.take_n(1), "");
    assert_eq!(cursor.pos, 6);
}

#[test]
fn take_while_and_take_until_are_complements() {
    let mut a = Cursor::new("abc123 rest");
    let mut b = Cursor::new("abc123 rest");
    assert_eq!(a.take_while(|c| c.is_ascii_alphanumeric()), "abc123");
    assert_eq!(b.take_until(|c| !c.is_ascii_alphanumeric()), "abc123");
    assert_eq!(a.pos, 6);
    assert_eq!(b.pos, 6);
    assert_eq!(a.take_until(|c| c == '#'), " rest");
    assert!(a.eof());
}

#[test]
fn take_until_match_any_moves_past_the_match() {
    let mut cursor = Cursor::new("one, two; three");
    assert_eq!(
        cursor.take_until_match_any(vec![";", ", "]),
        Some((", ".to_owned(), "one"))
    );
    assert_eq!(cursor.pos, 5);
    assert_eq!(
        cursor.take_until_match_any(vec![";", ", "]),
        Some((";".to_owned(), "two"))
    );
    assert_eq!(cursor.pos, 9);
    assert_eq!(cursor.take_until_match_any(vec![";", ", "]), None);
    assert_eq!(cursor.pos, 9);
}

#[test]
fn take_until_match_any_prefers_the_first_candidate() {
    let mut cursor = Cursor::new("x\nArgs:");
    assert_eq!(
        cursor.take_until_match_any(vec!["\nArgs:", "\nA"]),
        Some(("\nArgs:".to_owned(), "x"))
    );
    assert!(cursor.eof());
}

#[test]
fn take_until_match_any_starts_after_one_character() {
    let mut cursor = Cursor::new("ab ab");
    assert_eq!(
        cursor.take_until_match_any(vec!["ab"]),
        Some(("ab".to_owned(), "ab "))
    );
    assert!(cursor.eof());
    let mut empty = Cursor::new("");
    assert_eq!(empty.take_until_match_any(vec![""]), None);
}

#[test]
fn take_until_match_str_stops_before_the_match() {
    let mut cursor = Cursor::new("key => value");
    assert_eq!(cursor.take_until_match_str("=>"), Some("key "));
    assert_eq!(cursor.pos, 4);
    assert_eq!(cursor.take_until_match_str("=>"), Some(""));
    assert_eq!(cursor.pos, 4);
    assert_eq!(cursor.take_until_match_str("<="), None);
    assert_eq!(cursor.pos, 4);
    assert_eq!(cursor.take_until_match_str("é"), None);
}

#[test]
fn take_until_match_str_with_wide_characters() {
    let mut cursor = Cursor::new("日本語のテキスト");
    assert_eq!(cursor.take_until_match_str("の"), Some("日本語"));
    assert_eq!(cursor.pos, 9);
}

#[test]
fn take_until_dedent_at_the_baseline_reads_nothing() {
    let mut cursor = Cursor::new("    four\n        eight\n");
    assert_eq!(cursor.take_until_dedent(4), Vec::<&str>::new());
    assert_eq!(cursor.pos, 0);
}

#[test]
fn take_until_dedent_keeps_inner_blank_lines() {
    let mut cursor = Cursor::new("    a\n\n  \t \n    b\n\n   \nend\n");
    assert_eq!(cursor.take_until_dedent(2), vec!["  a", "", "", "  b"]);
    assert_eq!(cursor.take_remaining(), "end\n");
}

#[test]
fn take_until_dedent_reads_a_last_line_without_line_feed() {
    let mut cursor = Cursor::new("  a\n  b");
    assert_eq!(cursor.take_until_dedent(0), vec!["  a", "  b"]);
    assert!(cursor.eof());
    let mut blank = Cursor::new("  a\n   ");
    assert_eq!(blank.take_until_dedent(0), vec!["  a"]);
    assert!(blank.eof());
}

#[test]
fn take_until_dedent_counts_a_tab_as_one_character() {
    let mut cursor = Cursor::new("\t\tx\n\ty\n");
    assert_eq!(cursor.take_until_dedent(1), vec!["\tx"]);
    assert_eq!(cursor.take_remaining(), "\ty\n");
}

#[test]
fn take_remaining_moves_to_the_end() {
    let mut cursor = Cursor::new("abc");
    cursor.skip_n(1);
    assert_eq!(cursor.take_remaining(), "bc");
    assert!(cursor.eof());
    assert_eq!(cursor.take_remaining(), "");
}

#[test]
fn eat_whitespace_skips_ascii_whitespace_only() {
    let mut cursor = Cursor::new(" \t\n\r\x0C\u{a0}x");
    cursor.eat_whitespace();
    assert_eq!(cursor.pos, 5);
    assert_eq!(cursor.peek(), Some('\u{a0}'));
}

#[test]
fn eat_empty_lines_stops_at_text() {
    let mut cursor = Cursor::new("\n  \n\t\n  x\n");
    cursor.eat_empty_lines();
    assert_eq!(cursor.pos, 6);
    assert_eq!(cursor.take_remaining(), "  x\n");
}

#[test]
fn eat_empty_lines_leaves_a_last_line_without_line_feed() {
    let mut cursor = Cursor::new("\n   ");
    cursor.eat_empty_lines();
    assert_eq!(cursor.pos, 1);
    let mut wide = Cursor::new("\u{3000}\u{a0}\nx");
    wide.eat_empty_lines();
    assert_eq!(wide.pos, 6);
}

#[test]
fn eat_indent_returns_the_count() {
    let mut cursor = Cursor::new(" \t  x");
    assert_eq!(cursor.eat_indent(), 4);
    assert_eq!(cursor.pos, 4);
    assert_eq!(cursor.eat_indent(), 0);
}

#[test]
fn eat_string_moves_past_the_literal() {
    let mut cursor = Cursor::new("->x");
    assert_eq!(cursor.eat_string("->"), Ok(()));
    assert_eq!(cursor.pos, 2);
    assert_eq!(cursor.eat_string(""), Ok(()));
    assert_eq!(cursor.pos, 2);
}

#[test]
fn eat_string_fails_in_place() {
    let mut cursor = Cursor::new("ab");
    cursor.skip_n(1);
    assert_eq!(
        cursor.eat_string("->"),
        Err(ParseError::InvalidValue(InvalidValue {
            pos: 1,
            message: "Expected ->".to_string()
        }))
    );
    assert_eq!(cursor.pos, 1);
}

#[test]
fn cursor_guard_restores_the_position() {
    let mut cursor = Cursor::new("abcdef");
    cursor.skip_n(2);
    let guard = cursor.guard();
    assert_eq!(cursor.pos, 2);
    cursor.skip_n(3);
    assert_eq!(cursor.pos, 5);
    guard.restore(&mut cursor);
    assert_eq!(cursor.pos, 2);
    assert_eq!(cursor.take_remaining(), "cdef");
}

#[test]
fn cursor_guard_installs_the_given_position() {
    let text = "abcdef";
    let mut cursor = Cursor::new(text);
    let guard = CursorGuard::new(&mut cursor, Cursor { pos: 4, input: text });
    assert_eq!(cursor.pos, 4);
    guard.restore(&mut cursor);
    assert_eq!(cursor.pos, 0);
}
