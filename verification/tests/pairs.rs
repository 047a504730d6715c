use bml::builder::{build_attr, build_node};
use bml::{BmlKind, BmlNode, BmlPair, BmlParser, Rule};

fn token(rule: Rule, text: &str) -> BmlPair {
    BmlPair::token(rule, text.to_string())
}

fn data(rule: Rule, text: &str) -> BmlPair {
    BmlPair::group(Rule::Data, vec![token(rule, text)])
}

#[test]
fn productions_of_data_on_the_first_line() {
    let pairs = BmlParser::parse("a: x\n").unwrap();
    let expected = vec![
        BmlPair::group(
            Rule::Node,
            vec![token(Rule::Name, "a"), data(Rule::ColonData, "x")],
        ),
        token(Rule::Eoi, ""),
    ];
    assert_eq!(pairs, expected);
}

#[test]
fn productions_of_attributes_and_block() {
    let pairs = BmlParser::parse("a k=v q=\"w\" f\n  :x\n  b\n    c\n  :y\nd\n").unwrap();
    let expected = vec![
        BmlPair::group(
            Rule::Node,
            vec![
                token(Rule::Name, "a"),
                BmlPair::group(
                    Rule::Attr,
                    vec![token(Rule::Name, "k"), data(Rule::SpaceData, "v")],
                ),
                BmlPair::group(
                    Rule::Attr,
                    vec![token(Rule::Name, "q"), data(Rule::QuoteData, "w")],
                ),
                BmlPair::group(Rule::Attr, vec![token(Rule::Name, "f")]),
                data(Rule::ColonData, "x"),
                BmlPair::group(
                    Rule::Node,
                    vec![
                        token(Rule::Name, "b"),
                        BmlPair::group(Rule::Node, vec![token(Rule::Name, "c")]),
                    ],
                ),
                data(Rule::ColonData, "y"),
            ],
        ),
        BmlPair::group(Rule::Node, vec![token(Rule::Name, "d")]),
        token(Rule::Eoi, ""),
    ];
    assert_eq!(pairs, expected);
}

#[test]
fn productions_of_the_empty_text() {
    assert_eq!(BmlParser::parse("").unwrap(), vec![token(Rule::Eoi, "")]);
    assert_eq!(
        BmlParser::parse("\n // only a comment\n\n").unwrap(),
        vec![token(Rule::Eoi, "")]
    );
}

#[test]
fn accessors_of_a_production() {
    let pair = BmlPair::group(Rule::Attr, vec![token(Rule::Name, "k")]);
    assert_eq!(pair.as_rule(), Rule::Attr);
    assert_eq!(pair.as_str(), "");
    assert_eq!(pair.inner().len(), 1);
    assert_eq!(pair.inner()[0].as_rule(), Rule::Name);
    assert_eq!(pair.inner()[0].as_str(), "k");
    assert!(pair.inner()[0].inner().is_empty());
}

#[test]
fn tree_of_productions() {
    let pairs = vec![
        BmlPair::group(
            Rule::Node,
            vec![
                token(Rule::Name, "a"),
                BmlPair::group(
                    Rule::Attr,
                    vec![token(Rule::Name, "k"), data(Rule::SpaceData, "v")],
                ),
                data(Rule::ColonData, "x"),
                BmlPair::group(Rule::Node, vec![token(Rule::Name, "b")]),
            ],
        ),
        token(Rule::Eoi, ""),
    ];
    let root = BmlNode::from_pairs(&pairs);
    assert_eq!(root.to_string(), "a k=v\n  :x\n  b\n");
    assert!(root == BmlNode::try_from("a k=v\n  :x\n  b\n").unwrap());
}

#[test]
fn attribute_is_quoted_unless_a_value_is_bare() {
    let quoted = BmlPair::group(
        Rule::Attr,
        vec![token(Rule::Name, "k"), data(Rule::QuoteData, "v")],
    );
    let (name, attr) = build_attr(&quoted);
    assert_eq!(name, "k");
    assert!(matches!(attr.kind(), BmlKind::Attr { quote: true }));
    assert_eq!(attr.value(), "v");

    let bare = BmlPair::group(
        Rule::Attr,
        vec![token(Rule::Name, "k"), data(Rule::SpaceData, "v")],
    );
    let (_, attr) = build_attr(&bare);
    assert!(matches!(attr.kind(), BmlKind::Attr { quote: false }));

    let mixed = BmlPair::group(
        Rule::Attr,
        vec![
            token(Rule::Name, "k"),
            data(Rule::SpaceData, "v"),
            data(Rule::QuoteData, "w"),
        ],
    );
    let (_, attr) = build_attr(&mixed);
    assert!(matches!(attr.kind(), BmlKind::Attr { quote: false }));
    assert_eq!(attr.lines(), vec!["v".to_string(), "w".to_string()]);

    let alone = BmlPair::group(Rule::Attr, vec![token(Rule::Name, "k")]);
    let (_, attr) = build_attr(&alone);
    assert!(matches!(attr.kind(), BmlKind::Attr { quote: true }));
    assert!(attr.lines().is_empty());
}

#[test]
fn element_of_a_production() {
    let pair = BmlPair::group(
        Rule::Node,
        vec![
            token(Rule::Name, "a"),
            data(Rule::ColonData, "x"),
            BmlPair::group(Rule::Node, vec![token(Rule::Name, "b")]),
            data(Rule::ColonData, "y"),
            BmlPair::group(Rule::Attr, vec![token(Rule::Name, "k")]),
        ],
    );
    let (name, node) = build_node(&pair);
    assert_eq!(name, "a");
    assert!(matches!(node.kind(), BmlKind::Elem));
    assert_eq!(node.value(), "x\ny");
    let children = node.nodes();
    assert_eq!(children.len(), 2);
    assert_eq!(children[0].0, "b");
    assert_eq!(children[1].0, "k");
    assert!(children[1].1.is_attr());
}

#[test]
fn carriage_return_before_the_line_feed_ends_the_line() {
    let pair = BmlPair::group(
        Rule::Node,
        vec![
            token(Rule::Name, "a"),
            data(Rule::ColonData, "x\r"),
            data(Rule::ColonData, "\ry"),
        ],
    );
    let (_, node) = build_node(&pair);
    assert_eq!(node.lines(), vec!["x".to_string(), "\ry".to_string()]);
    assert_eq!(node.value(), "x\r\n\ry");
}

#[test]
fn attributes_behind_elements_are_rendered_where_they_stand() {
    let pairs = vec![
        BmlPair::group(
            Rule::Node,
            vec![
                token(Rule::Name, "a"),
                BmlPair::group(Rule::Node, vec![token(Rule::Name, "b")]),
                BmlPair::group(
                    Rule::Attr,
                    vec![token(Rule::Name, "k"), data(Rule::QuoteData, "v")],
                ),
            ],
        ),
        token(Rule::Eoi, ""),
    ];
    let root = BmlNode::from_pairs(&pairs);
    assert_eq!(root.to_string(), "a\n  b\n k=\"v\"");
}

#[test]
fn shapes_of_productions() {
    let name = token(Rule::Name, "a");
    assert!(name.is_token(Rule::Name));
    assert!(!name.is_token(Rule::Eoi));
    assert!(!BmlPair::group(Rule::Name, vec![token(Rule::Name, "a")]).is_token(Rule::Name));

    assert!(data(Rule::ColonData, "x").is_data());
    assert!(data(Rule::QuoteData, "x").is_data());
    assert!(data(Rule::SpaceData, "x").is_data());
    assert!(!data(Rule::Name, "x").is_data());
    assert!(!BmlPair::group(Rule::Data, vec![]).is_data());
    assert!(!BmlPair::group(
        Rule::Data,
        vec![token(Rule::ColonData, "x"), token(Rule::ColonData, "y")]
    )
    .is_data());
    assert!(!BmlPair::group(Rule::Attr, vec![token(Rule::ColonData, "x")]).is_data());

    let attr = BmlPair::group(
        Rule::Attr,
        vec![token(Rule::Name, "k"), data(Rule::QuoteData, "v")],
    );
    assert!(attr.is_attr());
    assert!(!attr.is_node());
    assert!(!BmlPair::group(Rule::Attr, vec![]).is_attr());
    assert!(!BmlPair::group(Rule::Attr, vec![data(Rule::QuoteData, "v")]).is_attr());
    assert!(!BmlPair::group(
        Rule::Attr,
        vec![token(Rule::Name, "k"), token(Rule::Name, "l")]
    )
    .is_attr());

    let node = BmlPair::group(
        Rule::Node,
        vec![
            token(Rule::Name, "a"),
            data(Rule::ColonData, "x"),
            BmlPair::group(Rule::Attr, vec![token(Rule::Name, "k")]),
            BmlPair::group(Rule::Node, vec![token(Rule::Name, "b")]),
        ],
    );
    assert!(node.is_node());
    assert!(!node.is_attr());
    assert!(!BmlPair::group(Rule::Node, vec![]).is_node());
    assert!(!BmlPair::group(
        Rule::Node,
        vec![token(Rule::Name, "a"), token(Rule::Eoi, "")]
    )
    .is_node());
    assert!(!BmlPair::group(
        Rule::Node,
        vec![
            token(Rule::Name, "a"),
            BmlPair::group(Rule::Node, vec![data(Rule::ColonData, "x")]),
        ]
    )
    .is_node());
}

#[test]
fn productions_of_a_text_are_those_of_a_document() {
    let pairs = BmlParser::parse("a k=v\n  :x\n  b\nc\n").unwrap();
    assert!(BmlPair::are_document(&pairs));
    let root = BmlNode::try_from_pairs(&pairs).unwrap();
    assert!(root == BmlNode::try_from("a k=v\n  :x\n  b\nc\n").unwrap());
    assert_eq!(root.to_string(), "a k=v\n  :x\n  b\n\nc\n");
}

#[test]
fn other_productions_are_no_document() {
    assert!(!BmlPair::are_document(&vec![]));
    assert!(BmlPair::are_document(&vec![token(Rule::Eoi, "")]));
    assert!(!BmlPair::are_document(&vec![BmlPair::group(
        Rule::Node,
        vec![token(Rule::Name, "a")]
    )]));
    assert!(!BmlPair::are_document(&vec![
        token(Rule::Eoi, ""),
        token(Rule::Eoi, "")
    ]));
    assert!(!BmlPair::are_document(&vec![
        BmlPair::group(Rule::Attr, vec![token(Rule::Name, "a")]),
        token(Rule::Eoi, "")
    ]));
    assert!(BmlNode::try_from_pairs(&vec![]).is_none());
    assert!(BmlNode::try_from_pairs(&vec![
        data(Rule::ColonData, "x"),
        token(Rule::Eoi, "")
    ])
    .is_none());
    assert!(BmlNode::try_from_pairs(&vec![token(Rule::Eoi, "")])
        .unwrap()
        .nodes()
        .is_empty());
}
