use bml::{BmlIndent, BmlNode};

fn round_trip(text: &str) -> String {
    let root = BmlNode::try_from(text).unwrap();
    assert!(root.fits(0));
    let rendered = root.to_string();
    let again = BmlNode::try_from(rendered.as_str()).unwrap();
    assert!(root == again);
    assert_eq!(again.to_string(), rendered);
    rendered
}

#[test]
fn single_data_line_is_rendered_inline() {
    assert_eq!(round_trip("a: x\n"), "a: x\n");
    assert_eq!(round_trip("a\n  :x\n"), "a: x\n");
    assert_eq!(round_trip("a:\tx\n  b:y\n"), "a: x\n  b: y\n");
}

#[test]
fn several_data_lines_are_rendered_as_a_block() {
    assert_eq!(round_trip("a\n  :x\n  :y\n"), "a\n  :x\n  :y\n");
    assert_eq!(round_trip("a\n\t: x\n\t: y\n\tb\n\t: z\n"), "a\n  :x\n  :y\n  :z\n  b\n");
}

#[test]
fn data_of_an_element_with_attributes_is_rendered_as_a_block() {
    assert_eq!(round_trip("a k=v\n  :x\n"), "a k=v\n  :x\n");
    assert_eq!(round_trip("a k\n  :x\n  :y\n"), "a k\n  :x\n  :y\n");
}

#[test]
fn element_without_data_is_rendered_as_its_name() {
    assert_eq!(round_trip("a"), "a\n");
    assert_eq!(round_trip("a k"), "a k\n");
    assert_eq!(round_trip("a\n b"), "a\n  b\n");
}

#[test]
fn quoted_value_is_rendered_in_quotes() {
    assert_eq!(
        round_trip("server host=\"example.com\"\n"),
        "server host=\"example.com\"\n"
    );
    assert_eq!(round_trip("a k=\"\"\n"), "a k=\"\"\n");
    assert_eq!(round_trip("a k=\"x y\"  l=\"=\"\n"), "a k=\"x y\" l=\"=\"\n");
}

#[test]
fn bare_value_is_rendered_without_quotes() {
    assert_eq!(
        round_trip("server host=example.com\n"),
        "server host=example.com\n"
    );
    assert_eq!(round_trip("a k=\n"), "a k=\n");
    assert_eq!(round_trip("a k=x=y\tl=//\n"), "a k=x=y l=//\n");
}

#[test]
fn attribute_without_value_is_rendered_as_its_name() {
    assert_eq!(round_trip("server debug\n"), "server debug\n");
    assert_eq!(round_trip("a b  c \n"), "a b c\n");
}

#[test]
fn elements_of_the_root_are_set_apart_by_an_empty_line() {
    assert_eq!(round_trip("a\nb\nc"), "a\n\nb\n\nc\n");
    assert_eq!(round_trip("a\n  b\n  c\nd\n"), "a\n  b\n  c\n\nd\n");
}

#[test]
fn comments_are_dropped() {
    assert_eq!(round_trip("// x\na: 1 // y\n  // z\n  b\n"), "a: 1 // y\n  b\n");
}

#[test]
fn example_document_round_trip() {
    let text = [
        "server\n",
        "  path: /core/www/\n",
        "  host: example.com\n",
        "  port: 80\n",
        "  service: true\n",
        "  proxy\n",
        "    host: proxy.example.com\n",
        "    port: 8080\n",
        "    authentication: plain\n",
        "  description\n",
        "    :Primary web-facing server\n",
        "    :Provides commerce-related functionality\n",
        "\n",
        "server\n",
        "  proxy host=\"proxy.example.com\" port=\"8080\"\n",
        "    authentication: plain\n",
    ]
    .concat();
    assert_eq!(round_trip(text.as_str()), text);
}

#[test]
fn deep_nesting_round_trip() {
    let text = "a\n b\n  c\n   d k=v\n    :1\n    :2\n    e: 3\n  f\ng\n";
    assert_eq!(
        round_trip(text),
        "a\n  b\n    c\n      d k=v\n        :1\n        :2\n        e: 3\n    f\n\ng\n"
    );
}

#[test]
fn indent_of_one_tabulator() {
    let text = "a k=v\n  :x\n  b\n    c: 1\n    c\n      :2\n      :3\nd\n";
    let spaces = BmlNode::try_from(text).unwrap();
    let mut tabs = BmlNode::try_from(text).unwrap();
    tabs.set_indent("\t", 0);
    assert_eq!(
        spaces.to_string(),
        "a k=v\n  :x\n  b\n    c: 1\n    c\n      :2\n      :3\n\nd\n"
    );
    assert_eq!(
        tabs.to_string(),
        "a k=v\n\t:x\n\tb\n\t\tc: 1\n\t\tc\n\t\t\t:2\n\t\t\t:3\n\nd\n"
    );
    let from_spaces = BmlNode::try_from(spaces.to_string().as_str()).unwrap();
    let from_tabs = BmlNode::try_from(tabs.to_string().as_str()).unwrap();
    assert!(from_spaces == from_tabs);
    assert!(from_tabs == spaces);
}

#[test]
fn indent_of_the_root() {
    let mut root = BmlNode::try_from("a\n  b: 1\nc\n").unwrap();
    root.set_indent(" ", 3);
    assert_eq!(root.to_string(), "   a\n    b: 1\n\n   c\n");
    root.set_indent("", 7);
    assert_eq!(root.to_string(), "a\nb: 1\n\nc\n");
    root.set_indent("ab", 1);
    assert_eq!(root.to_string(), "aba\nababb: 1\n\nabc\n");
}

#[test]
fn text_of_an_element_has_no_name() {
    let root = BmlNode::try_from("a k=v\n  b: 1\n").unwrap();
    let nodes = root.nodes();
    assert_eq!(nodes[0].1.to_string(), " k=v\n  b: 1\n");
    assert_eq!(nodes[0].1.nodes()[0].1.to_string(), " =v");
    assert_eq!(nodes[0].1.nodes()[1].1.to_string(), ": 1\n");
}

#[test]
fn serialize_appends_at_the_indent() {
    let root = BmlNode::try_from("a k=\"v\"\n  :x\n  :y\n  b\n").unwrap();
    let nodes = root.nodes();
    let mut out = String::from(">");
    nodes[0].1.serialize(
        &mut out,
        "name",
        BmlIndent {
            string: "-",
            repeat: 2,
        },
    );
    assert_eq!(out, ">--name k=\"v\"\n---:x\n---:y\n---b\n");
    let mut attr = String::new();
    nodes[0].1.nodes()[0]
        .1
        .serialize(&mut attr, "other", BmlIndent::default());
    assert_eq!(attr, " other=\"v\"");
}

#[test]
fn levels_that_cannot_be_counted_do_not_fit() {
    let mut root = BmlNode::try_from("a\n  b\n").unwrap();
    assert!(root.fits(0));
    assert!(root.fits(usize::MAX));
    let nodes = root.nodes();
    assert!(nodes[0].1.fits(usize::MAX - 2));
    assert!(!nodes[0].1.fits(usize::MAX - 1));
    assert!(!nodes[0].1.fits(usize::MAX));
    assert!(nodes[0].1.nodes()[0].1.fits(usize::MAX - 1));
    root.set_indent("", usize::MAX - 2);
    assert!(root.fits(0));
    root.set_indent("", usize::MAX - 1);
    assert!(!root.fits(0));
}

#[test]
fn large_document_round_trip() {
    let mut text = String::new();
    for group in 0..2000 {
        text.push_str("group id=");
        text.push_str(&group.to_string());
        text.push('\n');
        for item in 0..6 {
            text.push_str("  item\n    name: n");
            text.push_str(&item.to_string());
            text.push_str("\n    note\n      :first line\n      :second line\n");
            text.push_str("    deep\n      deeper\n        deepest k=\"v\"\n");
        }
    }
    let root = BmlNode::try_from(text.as_str()).unwrap();
    assert_eq!(root.len(), 2000);
    let rendered = root.to_string();
    assert_eq!(rendered, text.replace("\ngroup", "\n\ngroup"));
    let again = BmlNode::try_from(rendered.as_str()).unwrap();
    assert!(again == root);
    assert_eq!(root.named("group").len(), 2000);
}
