//! Building canonical trees: the builder makes of the productions of a
//! canonical tree that tree.

use crate::builder::{
    attr_of, children_of, data_of, has_space_data, lemma_children_add, lemma_children_same,
    lemma_data_add, lemma_data_same, node_of, root_of,
};
use crate::canon::{
    attr_part, attr_parts, data_block_parts, data_parts, head_parts, is_attr_node, is_elem_node,
    is_inline, is_root_node, lemma_attrs_end, node_part, node_parts,
};
use crate::grammar::{datum, token};
use crate::indent::default_indent;
use crate::node::{BmlKind, BmlTree};
use crate::pair::Rule;
use crate::render::attrs_end;
use crate::text::{join_lines, lines_of};
use vstd::prelude::*;

verus! {

/// The builder makes of the production of a canonical attribute that attribute.
pub proof fn lemma_build_attr(name: Seq<char>, tree: BmlTree)
    requires
        is_attr_node(name, tree),
    ensures
        attr_of(attr_part(name, tree)) == (name, tree),
{
    let part = attr_part(name, tree);
    let built = attr_of(part).1;
    assert(has_space_data(part.inner, 0) == false);
    assert(data_of(part.inner, 0) =~= Seq::<char>::empty());
    assert(data_of(part.inner, 1) =~= Seq::<char>::empty());
    assert(!has_space_data(part.inner, 1));
    if tree.data.len() > 0 {
        assert(data_of(part.inner, 2) =~= tree.data);
    } else {
        assert(tree.data =~= Seq::<char>::empty());
    }
    assert(built.nodes =~= tree.nodes);
    assert(built.data == tree.data);
    assert(built.kind == tree.kind);
}

/// The productions of attributes hold no data, and the builder makes of them
/// those attributes.
pub proof fn lemma_build_attrs(nodes: Seq<(Seq<char>, BmlTree)>, from: int, to: int, count: int)
    requires
        0 <= from <= to <= nodes.len(),
        0 <= count <= to - from,
        forall|i: int| from <= i < to ==> is_attr_node((#[trigger] nodes[i]).0, nodes[i].1),
    ensures
        data_of(attr_parts(nodes, from, to), count) == Seq::<char>::empty(),
        children_of(attr_parts(nodes, from, to), count) == nodes.subrange(from, from + count),
    decreases count,
{
    let parts = attr_parts(nodes, from, to);
    if count > 0 {
        lemma_build_attrs(nodes, from, to, count - 1);
        let child = nodes[from + count - 1];
        assert(is_attr_node(child.0, child.1));
        lemma_build_attr(child.0, child.1);
        assert(parts[count - 1] == attr_part(child.0, child.1));
        assert(nodes.subrange(from, from + count) =~= nodes.subrange(from, from + count - 1).push(
            child,
        ));
    } else {
        assert(nodes.subrange(from, from + count) =~= Seq::<(Seq<char>, BmlTree)>::empty());
    }
}

/// The productions of data lines hold the text of those lines and no children.
pub proof fn lemma_build_data(lines: Seq<Seq<char>>, count: int)
    requires
        0 <= count <= lines.len(),
    ensures
        data_of(data_parts(lines), count) == join_lines(lines.subrange(0, count)),
        children_of(data_parts(lines), count) == Seq::<(Seq<char>, BmlTree)>::empty(),
    decreases count,
{
    if count > 0 {
        lemma_build_data(lines, count - 1);
        assert(lines.subrange(0, count).drop_last() =~= lines.subrange(0, count - 1));
        assert(data_parts(lines)[count - 1] == datum(Rule::ColonData, lines[count - 1]));
        assert(data_of(data_parts(lines), count) =~= join_lines(lines.subrange(0, count)));
    } else {
        assert(join_lines(lines.subrange(0, count)) =~= Seq::<char>::empty());
    }
}

/// The builder makes of the production of a canonical element that element.
pub proof fn lemma_build_elem(name: Seq<char>, tree: BmlTree)
    requires
        is_elem_node(name, tree),
    ensures
        node_of(node_part(name, tree)) == (name, tree),
    decreases tree, 0nat,
{
    let attrs = attrs_end(tree.nodes, 0);
    let count = tree.nodes.len() as int;
    let lines = lines_of(tree.data);
    let head = head_parts(name, tree);
    let block = data_block_parts(tree);
    let below = node_parts(tree.nodes, attrs, count);
    let part = node_part(name, tree);
    let built = node_of(part).1;
    let title = seq![token(Rule::Name, name)];
    lemma_attrs_end(tree.nodes, 0);
    assert(part.inner == head + block + below);
    lemma_data_add(head + block, below);
    lemma_data_add(head, block);
    lemma_children_add(head + block, below);
    lemma_children_add(head, block);
    lemma_build_elems(tree.nodes, attrs, count, count - attrs);
    assert(tree.nodes.subrange(attrs, attrs + (count - attrs)) =~= tree.nodes.subrange(
        attrs,
        count,
    ));
    assert(data_of(title, 0) =~= Seq::<char>::empty());
    assert(data_of(title, 1) =~= Seq::<char>::empty());
    assert(children_of(title, 0) =~= Seq::<(Seq<char>, BmlTree)>::empty());
    assert(children_of(title, 1) =~= Seq::<(Seq<char>, BmlTree)>::empty());
    if is_inline(tree) {
        assert(lines =~= seq![lines[0]]);
        crate::text::lemma_join_one(lines[0]);
        assert(data_of(head, 1) =~= Seq::<char>::empty()) by {
            lemma_data_same(head, title, 1);
        }
        assert(data_of(head, 2) =~= lines[0] + seq!['\n']);
        assert(children_of(head, 1) =~= Seq::<(Seq<char>, BmlTree)>::empty()) by {
            lemma_children_same(head, title, 1);
        }
        assert(children_of(head, 2) =~= Seq::<(Seq<char>, BmlTree)>::empty());
        assert(data_of(block, 0) =~= Seq::<char>::empty());
        assert(children_of(block, 0) =~= Seq::<(Seq<char>, BmlTree)>::empty());
        assert(built.data =~= tree.data);
        assert(built.nodes =~= tree.nodes);
    } else {
        let marks = attr_parts(tree.nodes, 0, attrs);
        assert forall|i: int| 0 <= i < attrs implies is_attr_node(
            (#[trigger] tree.nodes[i]).0,
            tree.nodes[i].1,
        ) by {}
        lemma_build_attrs(tree.nodes, 0, attrs, attrs);
        lemma_data_add(title, marks);
        lemma_children_add(title, marks);
        lemma_build_data(lines, lines.len() as int);
        assert(lines.subrange(0, lines.len() as int) =~= lines);
        assert(built.data =~= tree.data);
        assert(built.nodes =~= tree.nodes.subrange(0, attrs) + tree.nodes.subrange(attrs, count));
        assert(built.nodes =~= tree.nodes);
    }
}

/// The productions of elements hold no data, and the builder makes of them
/// those elements.
pub proof fn lemma_build_elems(nodes: Seq<(Seq<char>, BmlTree)>, from: int, to: int, count: int)
    requires
        0 <= from <= to <= nodes.len(),
        0 <= count <= to - from,
        forall|i: int| from <= i < to ==> is_elem_node((#[trigger] nodes[i]).0, nodes[i].1),
    ensures
        data_of(node_parts(nodes, from, to), count) == Seq::<char>::empty(),
        children_of(node_parts(nodes, from, to), count) == nodes.subrange(from, from + count),
    decreases nodes, count,
{
    let parts = node_parts(nodes, from, to);
    if count > 0 {
        lemma_build_elems(nodes, from, to, count - 1);
        let child = nodes[from + count - 1];
        assert(is_elem_node(child.0, child.1));
        lemma_build_elem(child.0, child.1);
        assert(parts[count - 1] == node_part(child.0, child.1));
        assert(nodes.subrange(from, from + count) =~= nodes.subrange(from, from + count - 1).push(
            child,
        ));
    } else {
        assert(nodes.subrange(from, from + count) =~= Seq::<(Seq<char>, BmlTree)>::empty());
    }
}

/// The builder makes of the productions of a canonical document that document,
/// with the default indent.
pub proof fn lemma_build_root(tree: BmlTree)
    requires
        is_root_node(tree),
    ensures
        root_of(
            node_parts(tree.nodes, 0, tree.nodes.len() as int).push(
                token(Rule::Eoi, Seq::empty()),
            ),
        ) == (BmlTree { kind: BmlKind::Root { indent: default_indent() }, ..tree }),
{
    let count = tree.nodes.len() as int;
    let parts = node_parts(tree.nodes, 0, count);
    let all = parts.push(token(Rule::Eoi, Seq::empty()));
    lemma_build_elems(tree.nodes, 0, count, count);
    lemma_children_same(all, parts, count);
    assert(tree.nodes.subrange(0, count) =~= tree.nodes);
    assert(tree.data =~= Seq::<char>::empty());
}

} // verus!
