//! The laws of reading and rendering.
//!
//! What a text reads as is a canonical document
//! ([`lemma_read_canonical`](crate::parsing::lemma_read_canonical)) that can be
//! rendered ([`lemma_read_fits`](crate::parsing::lemma_read_fits)), and what is
//! rendered of it reads as the same document.

use crate::builder::read;
use crate::building::lemma_build_root;
use crate::canon::{attrs_text, is_root_node, is_unit, lemma_attrs_end, lemma_render_attrs};
use crate::error::Fault;
use crate::indent::{default_indent, repeated, BmlIndent};
use crate::node::{nodes_named, positions_named, BmlTree};
use crate::parsing::lemma_read_canonical;
use crate::reading::lemma_read_root;
use crate::render::{attrs_end, render, render_block, render_run, text_of};
use crate::text::lines_of;
use vstd::prelude::*;

verus! {

/// Reading what was rendered: the text of a canonical document, rendered with a
/// unit of one or more blanks and without an indent of the root, reads as that
/// document with the default indent.
pub proof fn lemma_read_rendered(tree: BmlTree)
    requires
        is_root_node(tree),
        is_unit(tree.kind->indent.string@),
        tree.kind->indent.repeat == 0,
    ensures
        read(text_of(tree)) == Ok::<BmlTree, Fault>(tree.with_indent(default_indent())),
{
    lemma_read_root(tree.nodes, tree.kind->indent.string@);
    lemma_build_root(tree);
}

/// Round trip: where a text reads as a tree, the text of that tree reads as the
/// same tree, and so as an equal one.
pub proof fn lemma_round_trip(text: Seq<char>)
    requires
        read(text) is Ok,
    ensures
        read(text_of(read(text)->Ok_0)) == read(text),
        read(text_of(read(text)->Ok_0))->Ok_0.content() == read(text)->Ok_0.content(),
{
    let tree = read(text)->Ok_0;
    reveal_strlit("  ");
    assert(is_unit(default_indent().string@));
    lemma_read_canonical(text);
    lemma_read_rendered(tree);
}

/// Round trip at any indent: where a text reads as a tree, the text of that
/// tree with a unit of one or more blanks and without an indent of the root
/// reads as the same tree as the text.
pub proof fn lemma_round_trip_indent(text: Seq<char>, unit: &'static str)
    requires
        read(text) is Ok,
        is_unit(unit@),
    ensures
        read(text_of(read(text)->Ok_0.with_indent(BmlIndent { string: unit, repeat: 0 }))) == read(
            text,
        ),
{
    let tree = read(text)->Ok_0;
    lemma_read_canonical(text);
    lemma_read_rendered(tree.with_indent(BmlIndent { string: unit, repeat: 0 }));
}

/// Named lookup: the children of a name are the children at the positions of
/// that name, which are all the positions of children of that name, each once
/// and in rising order.
pub proof fn lemma_named(nodes: Seq<(Seq<char>, BmlTree)>, name: Seq<char>)
    ensures
        nodes_named(nodes, name).len() == positions_named(nodes, name).len(),
        forall|j: int|
            0 <= j < positions_named(nodes, name).len() ==> {
                let at = #[trigger] positions_named(nodes, name)[j];
                &&& 0 <= at < nodes.len()
                &&& nodes[at].0 == name
                &&& nodes_named(nodes, name)[j] == nodes[at].1
            },
        forall|j: int, k: int|
            0 <= j < k < positions_named(nodes, name).len() ==> positions_named(nodes, name)[j]
                < positions_named(nodes, name)[k],
        forall|i: int|
            0 <= i < nodes.len() && (#[trigger] nodes[i]).0 == name ==> positions_named(
                nodes,
                name,
            ).contains(i),
    decreases nodes.len(),
{
    if nodes.len() > 0 {
        let fewer = nodes.drop_last();
        let last = nodes.len() - 1;
        let before = positions_named(fewer, name);
        let all = positions_named(nodes, name);
        lemma_named(fewer, name);
        assert forall|j: int| 0 <= j < all.len() implies {
            let at = #[trigger] all[j];
            &&& 0 <= at < nodes.len()
            &&& nodes[at].0 == name
            &&& nodes_named(nodes, name)[j] == nodes[at].1
        } by {
            if j < before.len() {
                assert(all[j] == before[j]);
                assert(fewer[before[j]] == nodes[before[j]]);
            }
        }
        assert forall|j: int, k: int| 0 <= j < k < all.len() implies all[j] < all[k] by {
            assert(all[j] == before[j]);
            if k < before.len() {
                assert(all[k] == before[k]);
            }
        }
        assert forall|i: int| 0 <= i < nodes.len() && (#[trigger] nodes[i]).0
            == name implies all.contains(i) by {
            if i < last {
                assert(fewer[i] == nodes[i]);
                assert(before.contains(i));
                let j = choose|j: int| 0 <= j < before.len() && before[j] == i;
                assert(all[j] == i);
            } else {
                assert(all[all.len() - 1] == i);
            }
        }
    }
}

/// Inline rendering: an element without attributes and with exactly one data
/// line renders that line on its first line, behind its name, a colon and a
/// space.
pub proof fn lemma_render_inline(tree: BmlTree, name: Seq<char>, unit: Seq<char>, level: nat)
    requires
        tree.kind is Elem,
        tree.nodes.len() == 0 || !(tree.nodes[0].1.kind is Attr),
        lines_of(tree.data).len() == 1,
    ensures
        render(tree, name, unit, level) == repeated(unit, level) + name + seq![':', ' ']
            + lines_of(tree.data)[0] + seq!['\n'] + render_run(
            tree.nodes,
            0,
            tree.nodes.len() as int,
            unit,
            level + 1,
        ),
{
    assert(render_run(tree.nodes, 0, 0, unit, level + 1) =~= Seq::<char>::empty());
    assert(render(tree, name, unit, level) =~= repeated(unit, level) + name + seq![':', ' ']
        + lines_of(tree.data)[0] + seq!['\n'] + render_run(
        tree.nodes,
        0,
        tree.nodes.len() as int,
        unit,
        level + 1,
    ));
}

/// Block rendering: an element with an attribute, or with another number of
/// data lines than one, renders its name and its attributes on its first line,
/// and each data line on a line of its own, one level deeper, behind a colon.
pub proof fn lemma_render_blocked(tree: BmlTree, name: Seq<char>, unit: Seq<char>, level: nat)
    requires
        tree.kind is Elem,
        (tree.nodes.len() > 0 && tree.nodes[0].1.kind is Attr) || lines_of(tree.data).len() != 1,
    ensures
        render(tree, name, unit, level) == repeated(unit, level) + name + attrs_text(
            tree.nodes,
            0,
            attrs_end(tree.nodes, 0),
        ) + seq!['\n'] + render_block(
            lines_of(tree.data),
            lines_of(tree.data).len() as int,
            repeated(unit, level + 1),
        ) + render_run(
            tree.nodes,
            attrs_end(tree.nodes, 0),
            tree.nodes.len() as int,
            unit,
            level + 1,
        ),
{
    let attrs = attrs_end(tree.nodes, 0);
    lemma_attrs_end(tree.nodes, 0);
    lemma_render_attrs(tree.nodes, 0, attrs, unit, level + 1);
    assert(render(tree, name, unit, level) =~= repeated(unit, level) + name + attrs_text(
        tree.nodes,
        0,
        attrs,
    ) + seq!['\n'] + render_block(
        lines_of(tree.data),
        lines_of(tree.data).len() as int,
        repeated(unit, level + 1),
    ) + render_run(tree.nodes, attrs, tree.nodes.len() as int, unit, level + 1));
}

} // verus!
