use docstring_parser::utils::cleandoc;

#[test]
fn test_cleandoc() {
    let doc = "This is a test string";
    assert_eq!(cleandoc(doc, None), "This is a test string");
}

#[test]
fn test_cleandoc_with_indent() {
    let doc = "    This is a test string\n    This is the second line";
    assert_eq!(
        cleandoc(doc, Some(4)),
        "This is a test string\nThis is the second line"
    );
}

#[test]
fn test_cleandoc_with_tabs() {
    let doc = "\tThis is a test string\n\tThis is the second line";
    assert_eq!(
        cleandoc(doc, Some(4)),
        "This is a test string\nThis is the second line"
    );
}

#[test]
fn test_cleandoc_complex1() {
    let doc = r#"
    This is a test string
    This is the second line
    "#;
    assert_eq!(
        cleandoc(doc, Some(4)),
        "This is a test string\nThis is the second line"
    );
}

#[test]
fn test_cleandoc_complex2() {
    let doc = r#"
    The first part
        With indent


    The second part
    "#;
    assert_eq!(
        cleandoc(doc, Some(4)),
        "The first part\n    With indent\n\n\nThe second part"
    );
}

#[test]
fn test_cleandoc_complex3() {
    let doc = r#"


    The first part
        With indent

    The second part

    "#;
    assert_eq!(
        cleandoc(doc, Some(4)),
        "The first part\n    With indent\n\nThe second part"
    );
}

#[test]
fn test_cleandoc_with_tab() {
    let doc = "
    The first part
    \tWith indent
    The second part
    ";
    assert_eq!(
        cleandoc(doc, Some(2)),
        "The first part\n  With indent\nThe second part"
    );
}
