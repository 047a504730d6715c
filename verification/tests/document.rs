use bml::{BmlKind, BmlNode};

fn values<'a>(nodes: &[(&'a str, &'a BmlNode)]) -> Vec<(&'a str, &'a str)> {
    nodes.iter().map(|(name, node)| (*name, node.value())).collect()
}

#[test]
fn ordered_iteration() {
    let root = BmlNode::try_from("0:a\n1:b\n2:c\n1:d\n3:e\n").unwrap();
    assert_eq!(
        root.nodes()
            .iter()
            .map(|(name, node)| (*name, node.value()))
            .collect::<Vec<_>>(),
        vec![("0", "a"), ("1", "b"), ("2", "c"), ("1", "d"), ("3", "e")]
    );
}

#[test]
fn named_children_in_order() {
    let root = BmlNode::try_from("0:a\n1:b\n2:c\n1:d\n3:e\n").unwrap();
    let found: Vec<&str> = root.named("1").iter().map(|node| node.value()).collect();
    assert_eq!(found, vec!["b", "d"]);
    let single: Vec<&str> = root.named("3").iter().map(|node| node.value()).collect();
    assert_eq!(single, vec!["e"]);
    assert!(root.named("4").is_empty());
    assert!(root.named("").is_empty());
}

#[test]
fn named_children_of_nested_elements() {
    let root = BmlNode::try_from("a\n  b: 1\n  c: 2\n  b: 3\nb: 4\n").unwrap();
    let nodes = root.nodes();
    let (_, a) = nodes[0];
    let found: Vec<&str> = a.named("b").iter().map(|node| node.value()).collect();
    assert_eq!(found, vec!["1", "3"]);
    let top: Vec<&str> = root.named("b").iter().map(|node| node.value()).collect();
    assert_eq!(top, vec!["4"]);
}

#[test]
fn example_document() {
    let text = [
        "server\n",
        "  path: /core/www/\n",
        "  host: example.com\n",
        "  port: 80\n",
        "  service: true\n",
        "  proxy\n",
        "    host: proxy.example.com\n",
        "    port: 8080\n",
        "    authentication: plain\n",
        "  description\n",
        "    :Primary web-facing server\n",
        "    :Provides commerce-related functionality\n",
        "\n",
        "server\n",
        "  // ...\n",
        "  proxy host=\"proxy.example.com\" port=\"8080\"\n",
        "    authentication: plain\n",
    ]
    .concat();
    let root = BmlNode::try_from(text.as_str()).unwrap();
    let nodes = root.nodes();
    assert_eq!(nodes.len(), 2);
    let (name, node) = nodes[0];
    assert_eq!(name, "server");
    assert_eq!(node.named("port")[0].value(), "80");
    let description = node.named("description")[0];
    assert_eq!(
        description.value(),
        "Primary web-facing server\nProvides commerce-related functionality"
    );
    assert_eq!(
        description.lines(),
        vec![
            "Primary web-facing server".to_string(),
            "Provides commerce-related functionality".to_string()
        ]
    );
    let (_, second) = nodes[1];
    let proxy = second.named("proxy")[0];
    assert_eq!(
        values(&proxy.nodes()),
        vec![
            ("host", "proxy.example.com"),
            ("port", "8080"),
            ("authentication", "plain")
        ]
    );
}

#[test]
fn empty_text_is_an_empty_root() {
    let root = BmlNode::try_from("").unwrap();
    assert!(root.nodes().is_empty());
    assert!(root.lines().is_empty());
    assert!(matches!(root.kind(), BmlKind::Root { .. }));
    assert!(root == BmlNode::default());
}

#[test]
fn comments_and_blank_lines_say_nothing() {
    let root =
        BmlNode::try_from("// first\n\na: 1\n   \n  // inside\n\t\n  b: 2\n//last").unwrap();
    let nodes = root.nodes();
    assert_eq!(values(&nodes), vec![("a", "1")]);
    assert_eq!(values(&nodes[0].1.nodes()), vec![("b", "2")]);
}

#[test]
fn element_without_data_has_no_lines() {
    let root = BmlNode::try_from("a\n").unwrap();
    let nodes = root.nodes();
    assert!(nodes[0].1.lines().is_empty());
    assert!(nodes[0].1.nodes().is_empty());
    assert_eq!(nodes[0].1.len(), 0);
}

#[test]
fn empty_data_line_is_a_line() {
    let root = BmlNode::try_from("a:\nb\n  :\n  :\n").unwrap();
    let nodes = root.nodes();
    assert_eq!(nodes[0].1.lines(), vec![String::new()]);
    assert_eq!(nodes[0].1.value(), "");
    assert_eq!(nodes[1].1.lines(), vec![String::new(), String::new()]);
    assert_eq!(nodes[1].1.value(), "\n");
}

#[test]
fn blanks_behind_the_colon_are_skipped() {
    let root = BmlNode::try_from("a:\t \tx y \nb\n  :  z\n  :\tw\n").unwrap();
    let nodes = root.nodes();
    assert_eq!(nodes[0].1.value(), "x y ");
    assert_eq!(nodes[1].1.lines(), vec!["z".to_string(), "w".to_string()]);
}

#[test]
fn data_may_hold_colons_quotes_and_slashes() {
    let root = BmlNode::try_from("a: b: \"c\" // d\n").unwrap();
    assert_eq!(root.nodes()[0].1.value(), "b: \"c\" // d");
}

#[test]
fn attributes_are_children_before_the_elements() {
    let root = BmlNode::try_from("a k=v q=\"x y\" flag\n  :data\n  b: 1\n").unwrap();
    let nodes = root.nodes();
    let (_, a) = nodes[0];
    let children = a.nodes();
    let names: Vec<&str> = children.iter().map(|(name, _)| *name).collect();
    assert_eq!(names, vec!["k", "q", "flag", "b"]);
    assert!(matches!(children[0].1.kind(), BmlKind::Attr { quote: false }));
    assert!(matches!(children[1].1.kind(), BmlKind::Attr { quote: true }));
    assert!(matches!(children[2].1.kind(), BmlKind::Attr { quote: true }));
    assert!(matches!(children[3].1.kind(), BmlKind::Elem));
    assert!(children[0].1.is_attr());
    assert!(!children[3].1.is_attr());
    assert_eq!(children[0].1.value(), "v");
    assert_eq!(children[1].1.value(), "x y");
    assert!(children[2].1.lines().is_empty());
    assert_eq!(a.value(), "data");
    assert_eq!(a.named("q")[0].value(), "x y");
}

#[test]
fn attributes_may_be_set_apart_by_tabulators() {
    let root = BmlNode::try_from("a\tk=v \t q=\"\"\t\n").unwrap();
    let nodes = root.nodes();
    let children = nodes[0].1.nodes();
    assert_eq!(values(&children), vec![("k", "v"), ("q", "")]);
}

#[test]
fn empty_value_without_quotes() {
    let root = BmlNode::try_from("a k= q\n").unwrap();
    let nodes = root.nodes();
    let children = nodes[0].1.nodes();
    assert_eq!(children[0].1.lines(), vec![String::new()]);
    assert!(matches!(children[0].1.kind(), BmlKind::Attr { quote: false }));
    assert!(children[1].1.lines().is_empty());
}

#[test]
fn names_hold_letters_digits_dots_and_dashes() {
    let root = BmlNode::try_from("A-z.09: x\n").unwrap();
    assert_eq!(values(&root.nodes()), vec![("A-z.09", "x")]);
}

#[test]
fn line_breaks_of_all_kinds() {
    let root = BmlNode::try_from("a: 1\r\nb\r\n  :x\r\n  :y\rc: 3").unwrap();
    assert_eq!(
        values(&root.nodes()),
        vec![("a", "1"), ("b", "x\ny"), ("c", "3")]
    );
}

#[test]
fn indent_of_tabulators_and_spaces() {
    let root = BmlNode::try_from("a\n\tb\n\t  c: 1\n\t  d: 2\n\te\n").unwrap();
    let nodes = root.nodes();
    let (_, a) = nodes[0];
    let children = a.nodes();
    let names: Vec<&str> = children.iter().map(|(name, _)| *name).collect();
    assert_eq!(names, vec!["b", "e"]);
    assert_eq!(values(&children[0].1.nodes()), vec![("c", "1"), ("d", "2")]);
}

#[test]
fn data_lines_behind_elements_belong_to_the_data() {
    let root = BmlNode::try_from("a\n  :x\n  b\n  :y\n").unwrap();
    let nodes = root.nodes();
    let (_, a) = nodes[0];
    assert_eq!(a.lines(), vec!["x".to_string(), "y".to_string()]);
    assert_eq!(a.len(), 1);
    assert_eq!(a.child(0).0, "b");
}

#[test]
fn equality_compares_data_and_children_only() {
    let bare = BmlNode::try_from("a k=v\n").unwrap();
    let quoted = BmlNode::try_from("a k=\"v\"\n").unwrap();
    assert!(bare == quoted);
    let block = BmlNode::try_from("a\n  :x\n").unwrap();
    let inline = BmlNode::try_from("a: x\n").unwrap();
    assert!(block == inline);
    let mut indented = BmlNode::try_from("a: x\n").unwrap();
    indented.set_indent("\t", 0);
    assert!(indented == inline);
}

#[test]
fn inequality_of_data_names_and_children() {
    let base = BmlNode::try_from("a: x\n  b\n").unwrap();
    assert!(base != BmlNode::try_from("a: y\n  b\n").unwrap());
    assert!(base != BmlNode::try_from("c: x\n  b\n").unwrap());
    assert!(base != BmlNode::try_from("a: x\n  c\n").unwrap());
    assert!(base != BmlNode::try_from("a: x\n").unwrap());
    assert!(base != BmlNode::try_from("a: x\n  b\n  b\n").unwrap());
    assert!(base != BmlNode::try_from("a: x\n  b: 1\n").unwrap());
}

#[test]
fn clone_is_equal_and_independent() {
    let root = BmlNode::try_from("a k=v\n  :x\n  b: 1\n  b: 2\nc\n").unwrap();
    let mut copy = root.clone();
    assert!(copy == root);
    assert_eq!(copy.to_string(), root.to_string());
    let found: Vec<&str> = copy.nodes()[0]
        .1
        .named("b")
        .iter()
        .map(|node| node.value())
        .collect();
    assert_eq!(found, vec!["1", "2"]);
    copy.set_indent("\t", 0);
    assert_eq!(root.to_string(), "a k=v\n  :x\n  b: 1\n  b: 2\n\nc\n");
    assert_eq!(copy.to_string(), "a k=v\n\t:x\n\tb: 1\n\tb: 2\n\nc\n");
}

#[test]
fn default_is_an_empty_root() {
    let root = BmlNode::default();
    assert!(matches!(root.kind(), BmlKind::Root { .. }));
    assert_eq!(root.len(), 0);
    assert!(root.lines().is_empty());
    assert_eq!(root.to_string(), "");
}

#[test]
fn value_joins_the_lines_by_line_feeds() {
    let root = BmlNode::try_from("a\n  :x\n  :y\n").unwrap();
    let nodes = root.nodes();
    assert_eq!(nodes[0].1.lines(), vec!["x".to_string(), "y".to_string()]);
    assert_eq!(nodes[0].1.value(), "x\ny");
}

#[test]
fn many_children_of_one_name() {
    let mut text = String::new();
    for at in 0..1000 {
        text.push_str(if at % 3 == 0 { "x: " } else { "y: " });
        text.push_str(&at.to_string());
        text.push('\n');
    }
    let root = BmlNode::try_from(text.as_str()).unwrap();
    assert_eq!(root.len(), 1000);
    let found = root.named("x");
    assert_eq!(found.len(), 334);
    for (at, node) in found.iter().enumerate() {
        assert_eq!(node.value(), (at * 3).to_string());
    }
    assert_eq!(root.named("y").len(), 666);
}

#[test]
fn kinds_and_data_of_nodes() {
    let root = BmlNode::try_from("a k=v l\n  b: 1\n").unwrap();
    assert!(root.is_root());
    assert!(!root.is_attr());
    assert!(!root.has_data());
    let nodes = root.nodes();
    let (_, a) = nodes[0];
    assert!(!a.is_root());
    assert!(!a.is_attr());
    assert!(!a.has_data());
    let children = a.nodes();
    assert!(children[0].1.is_attr());
    assert!(children[0].1.has_data());
    assert!(children[1].1.is_attr());
    assert!(!children[1].1.has_data());
    assert!(!children[2].1.is_attr());
    assert!(children[2].1.has_data());
    assert_eq!(a.child(2).0, "b");
    assert_eq!(a.child(2).1.value(), "1");
}
