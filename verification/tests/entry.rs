use docstring_parser::error::{InvalidValue, ParseError, UnexpectedEnd};
use docstring_parser::{columns_fit, parse};
use docstring_parser::schema::{Argument, DocstringParagraph};

#[test]
fn parse_reads_the_whole_text() {
    assert_eq!(
        parse(
            "Adds two numbers.\n\nArgs:\n    a (int): first\n    b (int): second\n\
             Returns:\n    The sum.\n"
        ),
        Ok(vec![
            DocstringParagraph::Raw("Adds two numbers.".to_string()),
            DocstringParagraph::Raw("".to_string()),
            DocstringParagraph::Args(vec![
                Argument {
                    name: "a".to_string(),
                    typ: Some("int".to_string()),
                    desc: vec!["first".to_string()]
                },
                Argument {
                    name: "b".to_string(),
                    typ: Some("int".to_string()),
                    desc: vec!["second".to_string()]
                },
            ]),
            DocstringParagraph::Returns(vec!["The sum.".to_string()]),
        ])
    );
}

#[test]
fn parse_of_the_empty_text() {
    assert_eq!(parse(""), Ok(Vec::<DocstringParagraph>::new()));
}

#[test]
fn parse_reports_the_byte_offset_of_an_error() {
    assert_eq!(
        parse("Übersicht\nArgs:\n    größe: x\n"),
        Err(ParseError::InvalidValue(InvalidValue {
            pos: 23,
            message: "Expected :".to_string()
        }))
    );
    assert_eq!(
        parse("Args:\n    "),
        Err(ParseError::UnexpectedEnd(UnexpectedEnd { pos: 10 }))
    );
}

#[test]
fn columns_fit_for_ordinary_texts() {
    assert!(columns_fit(""));
    assert!(columns_fit("Args:\n\tx: one\n"));
}
