use bml::{BmlError, BmlNode, BmlParser, Rule};

fn error_of(text: &str) -> BmlError {
    match BmlNode::try_from(text) {
        Ok(_) => panic!("the text is BML"),
        Err(error) => error,
    }
}

fn place(error: &BmlError) -> (usize, usize, Rule) {
    (error.line(), error.column(), error.expected())
}

#[test]
fn inconsistent_indent_is_an_error() {
    assert_eq!(place(&error_of("a\n    b\n  c\n")), (2, 0, Rule::Node));
}

#[test]
fn indent_of_another_kind_is_an_error() {
    assert_eq!(place(&error_of("a\n  b\n\tc\n")), (2, 0, Rule::Node));
}

#[test]
fn deeper_line_behind_a_data_line_is_an_error() {
    assert_eq!(place(&error_of("a\n  :x\n    b\n")), (2, 0, Rule::Node));
}

#[test]
fn indented_first_element_is_an_error() {
    assert_eq!(place(&error_of("  a\n")), (0, 0, Rule::Node));
    assert_eq!(place(&error_of("a\n\n// c\n b\n  c\n d\n\te\n")), (6, 0, Rule::Node));
}

#[test]
fn unterminated_quote_is_an_error() {
    assert_eq!(place(&error_of("a b=\"c\n")), (0, 6, Rule::QuoteData));
    assert_eq!(
        place(&error_of("a\n  b: 1\n  c d=\"\" e=\"f g\n")),
        (2, 15, Rule::QuoteData)
    );
}

#[test]
fn data_line_without_an_element_is_an_error() {
    assert_eq!(place(&error_of(":x\n")), (0, 0, Rule::Node));
}

#[test]
fn data_line_under_data_on_the_first_line_is_an_error() {
    assert_eq!(place(&error_of("a: x\n  :y\n")), (1, 2, Rule::Node));
}

#[test]
fn missing_name_is_an_error() {
    assert_eq!(place(&error_of("$\n")), (0, 0, Rule::Name));
    assert_eq!(place(&error_of("a\n  /b\n")), (1, 2, Rule::Name));
    assert_eq!(place(&error_of("a  =x\n")), (0, 3, Rule::Name));
}

#[test]
fn missing_blank_before_an_attribute_is_an_error() {
    assert_eq!(place(&error_of("a$\n")), (0, 1, Rule::Attr));
    assert_eq!(place(&error_of("a b=\"c\"d\n")), (0, 7, Rule::Attr));
    assert_eq!(place(&error_of("a b=c\"d\n")), (0, 5, Rule::Attr));
    assert_eq!(place(&error_of("a b:c\n")), (0, 3, Rule::Attr));
}

#[test]
fn the_first_error_is_reported() {
    assert_eq!(place(&error_of("a\n$\n  :x\n")), (1, 0, Rule::Name));
    assert_eq!(place(&error_of("a b=\"\n$\n")), (0, 5, Rule::QuoteData));
}

#[test]
fn parser_and_tree_report_the_same_error() {
    let text = "a\n    b\n  c\n";
    let from_parser = match BmlParser::parse(text) {
        Ok(_) => panic!("the text is BML"),
        Err(error) => error,
    };
    assert_eq!(from_parser, error_of(text));
}

#[test]
fn no_tree_on_error() {
    assert!(BmlNode::try_from("a: 1\nb: 2\nc \"\n").is_err());
}
