use bml::{BmlIndent, BmlKind};

#[test]
fn default_indent_is_two_spaces() {
    let indent = BmlIndent::default();
    assert_eq!(indent.string, "  ");
    assert_eq!(indent.repeat, 0);
}

#[test]
fn next_indent_is_one_level_deeper() {
    let indent = BmlIndent {
        string: "\t",
        repeat: 4,
    };
    let deeper = indent.next();
    assert_eq!(deeper.string, "\t");
    assert_eq!(deeper.repeat, 5);
    assert_eq!(BmlIndent::default().next().next().repeat, 2);
}

#[test]
fn indent_is_written_as_its_unit_repeated() {
    let mut out = String::from("x");
    BmlIndent {
        string: "ab",
        repeat: 3,
    }
    .write(&mut out);
    assert_eq!(out, "xababab");
    BmlIndent::default().write(&mut out);
    assert_eq!(out, "xababab");
    BmlIndent::default().next().write(&mut out);
    assert_eq!(out, "xababab  ");
}

#[test]
fn kinds_are_equal_by_variant() {
    let root = BmlKind::default();
    assert!(matches!(
        root,
        BmlKind::Root { indent } if indent.string == "  " && indent.repeat == 0
    ));
    let other = BmlKind::Root {
        indent: BmlIndent {
            string: "\t",
            repeat: 1,
        },
    };
    assert!(root == other);
    assert!(BmlKind::Attr { quote: true } == BmlKind::Attr { quote: false });
    assert!(BmlKind::Elem == BmlKind::Elem);
    assert!(BmlKind::Elem != BmlKind::Attr { quote: true });
    assert!(BmlKind::Elem != root);
    assert!(BmlKind::Attr { quote: true } != root);
}
