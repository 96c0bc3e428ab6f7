use docstring_parser::context::Context;
use docstring_parser::cursor::Cursor;
use docstring_parser::parser::docstring::parse_docstring;
use docstring_parser::schema::{Argument, DocstringParagraph};
use docstring_parser::utils::cleandoc;

#[test]
fn test_parse_docstring() {
    let doc = cleandoc(
        "
    Args:
        arg1 (int): Description of arg1
    ",
        None,
    );
    let mut cursor = Cursor::new(&doc);
    let mut ctx = Context::new(4);
    assert_eq!(
        parse_docstring(&mut cursor, &mut ctx),
        Ok(vec![DocstringParagraph::Args(vec![Argument {
            name: "arg1".to_string(),
            typ: Some("int".to_string()),
            desc: vec!["Description of arg1".to_string()]
        }])])
    );
}

#[test]
fn test_parse_docstring_multi_line() {
    let doc = cleandoc(
        "
    Args:
        arg1 (int): Description of arg1
        arg2 (str): Description of arg2
            line 2 of arg2
            line 3 of arg2
        arg3 (float): Description of arg3
            line 2 of arg3
    ",
        None,
    );
    let mut cursor = Cursor::new(&doc);
    let mut ctx = Context::new(4);

    assert_eq!(
        parse_docstring(&mut cursor, &mut ctx),
        Ok(vec![DocstringParagraph::Args(vec![
            Argument {
                name: "arg1".to_string(),
                typ: Some("int".to_string()),
                desc: vec!["Description of arg1".to_string()]
            },
            Argument {
                name: "arg2".to_string(),
                typ: Some("str".to_string()),
                desc: vec![
                    "Description of arg2".to_string(),
                    "line 2 of arg2".to_string(),
                    "line 3 of arg2".to_string()
                ]
            },
            Argument {
                name: "arg3".to_string(),
                typ: Some("float".to_string()),
                desc: vec![
                    "Description of arg3".to_string(),
                    "line 2 of arg3".to_string()
                ]
            }
        ])])
    );
}

#[test]
fn test_parse_docstring_with_returns() {
    let doc = cleandoc(
        "
    Args:
        arg1 (int): Description of arg1
    Returns:
        Description of return value
    ",
        None,
    );
    let mut cursor = Cursor::new(&doc);
    let mut ctx = Context::new(4);
    assert_eq!(
        parse_docstring(&mut cursor, &mut ctx),
        Ok(vec![
            DocstringParagraph::Args(vec![Argument {
                name: "arg1".to_string(),
                typ: Some("int".to_string()),
                desc: vec!["Description of arg1".to_string()]
            }]),
            DocstringParagraph::Returns(vec!["Description of return value".to_string()])
        ])
    );
}

#[test]
fn test_parse_docstring_with_examples() {
    let doc = cleandoc(
        "
    Args:
        arg1 (int): Description of arg1
    Examples:

        >>> from docstring_parser import parse
        >>> parse('Args: arg1 (int): Description of arg1')
        {'Args': [{'arg1': {'type': 'int', 'description': 'Description of arg1'}}]}
    ",
        None,
    );
    let mut cursor = Cursor::new(&doc);
    let mut ctx = Context::new(4);
    assert_eq!(
        parse_docstring(&mut cursor, &mut ctx),
        Ok(vec![
            DocstringParagraph::Args(vec![Argument {
                name: "arg1".to_string(),
                typ: Some("int".to_string()),
                desc: vec!["Description of arg1".to_string()]
            }]),
            DocstringParagraph::Examples(vec![
                "".to_string(),
                ">>> from docstring_parser import parse".to_string(),
                ">>> parse('Args: arg1 (int): Description of arg1')".to_string(),
                "{'Args': [{'arg1': {'type': 'int', 'description': 'Description of arg1'}}]}"
                    .to_string()
            ])
        ])
    );
}
