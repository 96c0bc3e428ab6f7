use docstring_parser::context::{Context, ContextGuard};
use docstring_parser::cursor::Cursor;
use docstring_parser::error::{InvalidValue, ParseError, UnexpectedEnd};
use docstring_parser::guard::Guard;
use docstring_parser::indent::{calc_indent_size, is_indent_char};
use docstring_parser::parser::argument::{parse_arg, parse_args};
use docstring_parser::parser::common::{identifier, indented_paragraph, next_line};
use docstring_parser::parser::docstring::{parse_docstring, DocstringTitle};
use docstring_parser::parser::plain_paragraph::parse_plain_paragraph;
use docstring_parser::schema::{Argument, DocstringParagraph};

fn arg(name: &str, typ: Option<&str>, desc: &[&str]) -> Argument {
    Argument {
        name: name.to_string(),
        typ: typ.map(|t| t.to_string()),
        desc: desc.iter().map(|d| d.to_string()).collect(),
    }
}

fn invalid(pos: usize, message: &str) -> ParseError {
    ParseError::InvalidValue(InvalidValue {
        pos,
        message: message.to_string(),
    })
}

#[test]
fn indent_characters_are_space_and_tab() {
    assert!(is_indent_char(' '));
    assert!(is_indent_char('\t'));
    assert!(!is_indent_char('\n'));
    assert!(!is_indent_char('\u{a0}'));
}

#[test]
fn indent_size_counts_a_tab_as_four() {
    assert_eq!(calc_indent_size(""), 0);
    assert_eq!(calc_indent_size("    "), 4);
    assert_eq!(calc_indent_size("\t"), 4);
    assert_eq!(calc_indent_size(" \t \t"), 10);
    assert_eq!(calc_indent_size("ab"), 2);
}

#[test]
fn context_guard_restores_the_baseline() {
    let mut ctx = Context::new(3);
    let guard = ctx.guard(Context::new(8));
    assert_eq!(ctx.indent, 8);
    let inner = ContextGuard::new(&mut ctx, Context::new(12));
    assert_eq!(ctx.indent, 12);
    inner.restore(&mut ctx);
    assert_eq!(ctx.indent, 8);
    guard.restore(&mut ctx);
    assert_eq!(ctx.indent, 3);
}

#[test]
fn identifier_reads_letters_digits_and_underscores() {
    let mut cursor = Cursor::new("_arg_1: x");
    let mut ctx = Context::new(0);
    assert_eq!(identifier(&mut cursor, &mut ctx), Ok("_arg_1".to_string()));
    assert_eq!(cursor.pos, 6);
}

#[test]
fn identifier_accepts_a_leading_digit() {
    let mut cursor = Cursor::new("1abc rest");
    let mut ctx = Context::new(0);
    assert_eq!(identifier(&mut cursor, &mut ctx), Ok("1abc".to_string()));
    assert_eq!(cursor.pos, 4);
}

#[test]
fn identifier_stops_at_a_letter_outside_ascii() {
    let mut cursor = Cursor::new("abé");
    let mut ctx = Context::new(0);
    assert_eq!(identifier(&mut cursor, &mut ctx), Ok("ab".to_string()));
    assert_eq!(cursor.pos, 2);
}

#[test]
fn identifier_fails_on_another_character() {
    let mut cursor = Cursor::new("  -x");
    cursor.skip_n(2);
    let mut ctx = Context::new(0);
    assert_eq!(
        identifier(&mut cursor, &mut ctx),
        Err(invalid(2, "Invalid identifier start: -"))
    );
    assert_eq!(cursor.pos, 2);
    let mut wide = Cursor::new("éa");
    assert_eq!(
        identifier(&mut wide, &mut ctx),
        Err(invalid(0, "Invalid identifier start: é"))
    );
}

#[test]
fn identifier_fails_at_the_end() {
    let mut cursor = Cursor::new("ab");
    cursor.skip_n(2);
    let mut ctx = Context::new(0);
    assert_eq!(
        identifier(&mut cursor, &mut ctx),
        Err(ParseError::UnexpectedEnd(UnexpectedEnd { pos: 2 }))
    );
}

#[test]
fn next_line_consumes_the_line_feed() {
    let mut cursor = Cursor::new("first\n\nlast");
    let mut ctx = Context::new(0);
    assert_eq!(next_line(&mut cursor, &mut ctx), Ok("first".to_string()));
    assert_eq!(cursor.pos, 6);
    assert_eq!(next_line(&mut cursor, &mut ctx), Ok("".to_string()));
    assert_eq!(cursor.pos, 7);
    assert_eq!(next_line(&mut cursor, &mut ctx), Ok("last".to_string()));
    assert!(cursor.eof());
    assert_eq!(next_line(&mut cursor, &mut ctx), Ok("".to_string()));
    assert!(cursor.eof());
}

#[test]
fn indented_paragraph_dedents_to_the_least_indented_line() {
    let mut cursor = Cursor::new("        deep\n    shallow\n\n      middle\n\n\nout\n");
    let mut ctx = Context::new(2);
    assert_eq!(
        indented_paragraph(&mut cursor, &mut ctx),
        Ok(vec![
            "    deep".to_string(),
            "shallow".to_string(),
            "".to_string(),
            "  middle".to_string()
        ])
    );
    assert_eq!(cursor.take_remaining(), "out\n");
    assert_eq!(ctx.indent, 2);
}

#[test]
fn indented_paragraph_of_blank_lines_is_empty() {
    let mut cursor = Cursor::new("\n   \n");
    let mut ctx = Context::new(0);
    assert_eq!(indented_paragraph(&mut cursor, &mut ctx), Ok(Vec::<String>::new()));
    assert!(cursor.eof());
}

#[test]
fn plain_paragraph_is_an_indented_paragraph() {
    let mut cursor = Cursor::new("    one\n      two\nthree\n");
    let mut ctx = Context::new(0);
    assert_eq!(
        parse_plain_paragraph(&mut cursor, &mut ctx),
        Ok(vec!["one".to_string(), "  two".to_string()])
    );
    assert_eq!(cursor.take_remaining(), "three\n");
}

#[test]
fn parse_arg_with_type() {
    let mut cursor = Cursor::new("x (int): desc");
    let mut ctx = Context::new(0);
    assert_eq!(
        parse_arg(&mut cursor, &mut ctx),
        Ok(arg("x", Some("int"), &["desc"]))
    );
    assert!(cursor.eof());
}

#[test]
fn parse_arg_without_type() {
    let mut cursor = Cursor::new("x: desc");
    let mut ctx = Context::new(0);
    assert_eq!(parse_arg(&mut cursor, &mut ctx), Ok(arg("x", None, &["desc"])));
}

#[test]
fn parse_arg_with_continuation_lines() {
    let mut cursor = Cursor::new("x (int): d1\n    line2\n    line3\n");
    let mut ctx = Context::new(0);
    assert_eq!(
        parse_arg(&mut cursor, &mut ctx),
        Ok(arg("x", Some("int"), &["d1", "line2", "line3"]))
    );
    assert!(cursor.eof());
}

#[test]
fn parse_arg_keeps_inner_blank_lines_and_drops_trailing_ones() {
    let mut cursor = Cursor::new("x: d1\n    line2\n\n    line4\n\n\ny: next\n");
    let mut ctx = Context::new(0);
    assert_eq!(
        parse_arg(&mut cursor, &mut ctx),
        Ok(arg("x", None, &["d1", "line2", "", "line4"]))
    );
    assert_eq!(cursor.take_remaining(), "y: next\n");
}

#[test]
fn parse_arg_type_is_not_validated() {
    let mut cursor = Cursor::new("x  ( list[int] , é )  :   desc  \nnext");
    let mut ctx = Context::new(0);
    assert_eq!(
        parse_arg(&mut cursor, &mut ctx),
        Ok(arg("x", Some(" list[int] , é "), &["desc  "]))
    );
    assert_eq!(cursor.take_remaining(), "next");
}

#[test]
fn parse_arg_description_may_start_on_the_next_line() {
    let mut cursor = Cursor::new("x:\n    desc\n    more\n");
    let mut ctx = Context::new(0);
    assert_eq!(
        parse_arg(&mut cursor, &mut ctx),
        Ok(arg("x", None, &["desc", "more"]))
    );
}

#[test]
fn parse_arg_continuation_needs_more_than_the_baseline() {
    let mut cursor = Cursor::new("x: d1\n    line2\n");
    let mut ctx = Context::new(4);
    assert_eq!(parse_arg(&mut cursor, &mut ctx), Ok(arg("x", None, &["d1"])));
    assert_eq!(cursor.take_remaining(), "    line2\n");
    assert_eq!(ctx.indent, 4);
}

#[test]
fn parse_arg_missing_closing_parenthesis() {
    let mut cursor = Cursor::new("x (int desc");
    let mut ctx = Context::new(0);
    assert_eq!(parse_arg(&mut cursor, &mut ctx), Err(invalid(11, "Expected )")));
    assert_eq!(cursor.pos, 11);
    assert_eq!(ctx.indent, 0);
}

#[test]
fn parse_arg_missing_colon() {
    let mut cursor = Cursor::new("x (int) desc");
    let mut ctx = Context::new(0);
    assert_eq!(parse_arg(&mut cursor, &mut ctx), Err(invalid(8, "Expected :")));
    assert_eq!(cursor.pos, 8);
}

#[test]
fn parse_arg_missing_name() {
    let mut cursor = Cursor::new(": desc");
    let mut ctx = Context::new(0);
    assert_eq!(
        parse_arg(&mut cursor, &mut ctx),
        Err(invalid(0, "Invalid identifier start: :"))
    );
    let mut empty = Cursor::new("");
    assert_eq!(
        parse_arg(&mut empty, &mut ctx),
        Err(ParseError::UnexpectedEnd(UnexpectedEnd { pos: 0 }))
    );
}

#[test]
fn parse_args_reads_two_arguments_in_order() {
    let mut cursor = Cursor::new("    a (int): first\n    b: second\n");
    let mut ctx = Context::new(0);
    assert_eq!(
        parse_args(&mut cursor, &mut ctx),
        Ok(vec![
            arg("a", Some("int"), &["first"]),
            arg("b", None, &["second"])
        ])
    );
    assert!(cursor.eof());
    assert_eq!(ctx.indent, 0);
}

#[test]
fn parse_args_leaves_a_line_at_the_baseline() {
    let mut cursor = Cursor::new("\n\n    a: first\n\n  b: second\n");
    let mut ctx = Context::new(2);
    assert_eq!(
        parse_args(&mut cursor, &mut ctx),
        Ok(vec![arg("a", None, &["first"])])
    );
    assert_eq!(cursor.take_remaining(), "  b: second\n");
    assert_eq!(ctx.indent, 2);
}

#[test]
fn parse_args_of_nothing_is_empty() {
    let mut cursor = Cursor::new("\n  \nnext\n");
    let mut ctx = Context::new(0);
    assert_eq!(parse_args(&mut cursor, &mut ctx), Ok(Vec::<Argument>::new()));
    assert_eq!(cursor.take_remaining(), "next\n");
}

#[test]
fn parse_args_measures_a_tab_as_four_columns() {
    let mut cursor = Cursor::new("\ta: first\n");
    let mut ctx = Context::new(3);
    assert_eq!(
        parse_args(&mut cursor, &mut ctx),
        Ok(vec![arg("a", None, &["first"])])
    );
    let mut same = Cursor::new("\ta: first\n");
    let mut at_four = Context::new(4);
    assert_eq!(parse_args(&mut same, &mut at_four), Ok(Vec::<Argument>::new()));
    assert_eq!(same.pos, 0);
}

#[test]
fn parse_args_restores_the_baseline_after_an_error() {
    let mut cursor = Cursor::new("    a: first\n    b (int second\n");
    let mut ctx = Context::new(1);
    assert_eq!(parse_args(&mut cursor, &mut ctx), Err(invalid(31, "Expected )")));
    assert_eq!(ctx.indent, 1);
    assert_eq!(cursor.pos, 31);
}

#[test]
fn parse_args_fails_on_a_line_of_indentation_at_the_end() {
    let mut cursor = Cursor::new("    a: first\n        ");
    let mut outer = Context::new(0);
    assert_eq!(
        parse_args(&mut cursor, &mut outer),
        Ok(vec![arg("a", None, &["first"])])
    );
    assert!(cursor.eof());
    let mut ctx = Context::new(4);
    let mut bare = Cursor::new("      ");
    assert_eq!(
        parse_args(&mut bare, &mut ctx),
        Err(ParseError::UnexpectedEnd(UnexpectedEnd { pos: 6 }))
    );
    assert_eq!(ctx.indent, 4);
}

#[test]
fn heads_of_the_sections() {
    assert_eq!(DocstringTitle::args_heads(), ["Args", "Parameters"]);
    assert_eq!(DocstringTitle::returns_heads(), ["Returns"]);
    assert_eq!(DocstringTitle::yields_heads(), ["Yields"]);
    assert_eq!(DocstringTitle::raises_heads(), ["Raises"]);
    assert_eq!(DocstringTitle::examples_heads(), ["Examples"]);
    assert_eq!(DocstringTitle::notes_heads(), ["Notes"]);
    assert_eq!(DocstringTitle::references_heads(), ["References"]);
    assert_eq!(DocstringTitle::see_also_heads(), ["See Also"]);
    assert_eq!(DocstringTitle::warnings_heads(), ["Warnings"]);
}

#[test]
fn docstring_of_raw_lines() {
    let mut cursor = Cursor::new("Summary line.\nMore text\n  indented\nlast");
    let mut ctx = Context::new(0);
    assert_eq!(
        parse_docstring(&mut cursor, &mut ctx),
        Ok(vec![
            DocstringParagraph::Raw("Summary line.".to_string()),
            DocstringParagraph::Raw("More text".to_string()),
            DocstringParagraph::Raw("  indented".to_string()),
            DocstringParagraph::Raw("last".to_string()),
        ])
    );
    assert!(cursor.eof());
}

#[test]
fn docstring_keeps_empty_lines_as_raw_paragraphs() {
    let mut cursor = Cursor::new("a\n\nb\n");
    let mut ctx = Context::new(0);
    assert_eq!(
        parse_docstring(&mut cursor, &mut ctx),
        Ok(vec![
            DocstringParagraph::Raw("a".to_string()),
            DocstringParagraph::Raw("".to_string()),
            DocstringParagraph::Raw("b".to_string()),
        ])
    );
}

#[test]
fn docstring_of_nothing_is_empty() {
    let mut cursor = Cursor::new("");
    let mut ctx = Context::new(7);
    assert_eq!(
        parse_docstring(&mut cursor, &mut ctx),
        Ok(Vec::<DocstringParagraph>::new())
    );
    assert_eq!(ctx.indent, 7);
}

#[test]
fn docstring_with_args_and_returns() {
    let mut cursor = Cursor::new("Args:\n    x (int): d\nReturns:\n    r\n");
    let mut ctx = Context::new(0);
    assert_eq!(
        parse_docstring(&mut cursor, &mut ctx),
        Ok(vec![
            DocstringParagraph::Args(vec![arg("x", Some("int"), &["d"])]),
            DocstringParagraph::Returns(vec!["r".to_string()]),
        ])
    );
}

#[test]
fn docstring_with_parameters_and_examples() {
    let mut cursor = Cursor::new(
        "Intro\nParameters:\n  a: one\n\n  b: two\n     more\n\
         Examples:\n    >>> f(1)\n\n      2\nTail",
    );
    let mut ctx = Context::new(0);
    assert_eq!(
        parse_docstring(&mut cursor, &mut ctx),
        Ok(vec![
            DocstringParagraph::Raw("Intro".to_string()),
            DocstringParagraph::Args(vec![
                arg("a", None, &["one"]),
                arg("b", None, &["two", "more"])
            ]),
            DocstringParagraph::Examples(vec![
                ">>> f(1)".to_string(),
                "".to_string(),
                "  2".to_string()
            ]),
            DocstringParagraph::Raw("Tail".to_string()),
        ])
    );
}

#[test]
fn docstring_repeats_sections_without_merging() {
    let mut cursor = Cursor::new("Args:\n  a: one\nArgs:\n  b: two\n");
    let mut ctx = Context::new(0);
    assert_eq!(
        parse_docstring(&mut cursor, &mut ctx),
        Ok(vec![
            DocstringParagraph::Args(vec![arg("a", None, &["one"])]),
            DocstringParagraph::Args(vec![arg("b", None, &["two"])]),
        ])
    );
}

#[test]
fn docstring_matches_headings_by_prefix() {
    let mut cursor = Cursor::new("Argsort the list\n  x: one\n");
    let mut ctx = Context::new(0);
    assert_eq!(
        parse_docstring(&mut cursor, &mut ctx),
        Ok(vec![DocstringParagraph::Args(vec![arg("x", None, &["one"])])])
    );
}

#[test]
fn docstring_does_not_match_reserved_or_indented_headings() {
    let mut cursor = Cursor::new("Raises:\n  Args:\nYields:\n");
    let mut ctx = Context::new(0);
    assert_eq!(
        parse_docstring(&mut cursor, &mut ctx),
        Ok(vec![
            DocstringParagraph::Raw("Raises:".to_string()),
            DocstringParagraph::Raw("  Args:".to_string()),
            DocstringParagraph::Raw("Yields:".to_string()),
        ])
    );
}

#[test]
fn docstring_fails_on_a_malformed_section() {
    let mut cursor = Cursor::new("Intro\nArgs:\n    x (int desc\nReturns:\n    r\n");
    let mut ctx = Context::new(5);
    assert_eq!(
        parse_docstring(&mut cursor, &mut ctx),
        Err(invalid(43, "Expected )"))
    );
    assert_eq!(ctx.indent, 5);
    assert_eq!(cursor.pos, 43);
    let mut other = Cursor::new("Args:\n    x desc\n");
    assert_eq!(
        parse_docstring(&mut other, &mut ctx),
        Err(invalid(12, "Expected :"))
    );
    assert_eq!(ctx.indent, 5);
}
