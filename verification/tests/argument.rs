use docstring_parser::context::Context;
use docstring_parser::cursor::Cursor;
use docstring_parser::parser::argument::{parse_arg, parse_args};
use docstring_parser::schema::Argument;
use docstring_parser::utils::cleandoc;
use textwrap::indent;

#[test]
fn test_parse_arg() {
    let doc = "arg1 (int): Description of arg1";
    let mut cursor = Cursor::new(doc);
    let mut ctx = Context::new(4);
    assert_eq!(
        parse_arg(&mut cursor, &mut ctx),
        Ok(Argument {
            name: "arg1".to_string(),
            typ: Some("int".to_string()),
            desc: vec!["Description of arg1".to_string(),]
        })
    );
}

#[test]
fn test_parse_arg_no_type() {
    let doc = "arg1: Description of arg1\n";
    let mut cursor = Cursor::new(doc);
    let mut ctx = Context::new(4);
    assert_eq!(
        parse_arg(&mut cursor, &mut ctx),
        Ok(Argument {
            name: "arg1".to_string(),
            typ: None,
            desc: vec!["Description of arg1".to_string(),]
        })
    );
}

#[test]
fn test_parse_arg_multi_line() {
    let doc = "arg1 (int): Description of arg1\n    multi line\n    description\n";
    let mut cursor = Cursor::new(doc);
    let mut ctx = Context::new(0);
    assert_eq!(
        parse_arg(&mut cursor, &mut ctx),
        Ok(Argument {
            name: "arg1".to_string(),
            typ: Some("int".to_string()),
            desc: vec![
                "Description of arg1".to_string(),
                "multi line".to_string(),
                "description".to_string(),
            ]
        })
    );
}

#[test]
fn test_parse_args() {
    let doc = "    arg1 (int): Description of arg1\n";
    let mut cursor = Cursor::new(doc);
    let mut ctx = Context::new(0);
    assert_eq!(
        parse_args(&mut cursor, &mut ctx),
        Ok(vec![Argument {
            name: "arg1".to_string(),
            typ: Some("int".to_string()),
            desc: vec!["Description of arg1".to_string(),]
        }])
    );
}

#[test]
fn test_parse_args_multi_line() {
    let doc = "    arg1 (int): Description of arg1\n        multi line\n        description\n";
    let mut cursor = Cursor::new(doc);
    let mut ctx = Context::new(0);
    assert_eq!(
        parse_args(&mut cursor, &mut ctx),
        Ok(vec![Argument {
            name: "arg1".to_string(),
            typ: Some("int".to_string()),
            desc: vec![
                "Description of arg1".to_string(),
                "multi line".to_string(),
                "description".to_string(),
            ]
        }])
    );
}

#[test]
fn test_parse_args_multi_args() {
    let doc = "    arg1 (int): Description of arg1\n    arg2 (str): Description of arg2\n";
    let mut cursor = Cursor::new(doc);
    let mut ctx = Context::new(0);
    assert_eq!(
        parse_args(&mut cursor, &mut ctx),
        Ok(vec![
            Argument {
                name: "arg1".to_string(),
                typ: Some("int".to_string()),
                desc: vec!["Description of arg1".to_string(),]
            },
            Argument {
                name: "arg2".to_string(),
                typ: Some("str".to_string()),
                desc: vec!["Description of arg2".to_string(),]
            }
        ])
    );
}

#[test]
fn test_parse_args_multi_args_with_blank_line() {
    let doc = indent(
        &cleandoc(
            "
        arg1 (int): Description of arg1
            multi line

            description


        arg2 (str): Description of arg2
            multi line
            description",
            None,
        ),
        "    ",
    );
    let mut cursor = Cursor::new(&doc);
    let mut ctx = Context::new(0);
    assert_eq!(
        parse_args(&mut cursor, &mut ctx),
        Ok(vec![
            Argument {
                name: "arg1".to_string(),
                typ: Some("int".to_string()),
                desc: vec![
                    "Description of arg1".to_string(),
                    "multi line".to_string(),
                    "".to_string(),
                    "description".to_string(),
                ]
            },
            Argument {
                name: "arg2".to_string(),
                typ: Some("str".to_string()),
                desc: vec![
                    "Description of arg2".to_string(),
                    "multi line".to_string(),
                    "description".to_string(),
                ]
            }
        ])
    );
}
