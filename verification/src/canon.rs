//! Canonical trees: the trees that texts give, with the lines and the
//! productions of each.

use crate::grammar::{datum, group, token};
use crate::indent::repeated;
use crate::node::{BmlKind, BmlTree};
use crate::pair::{Production, Rule};
use crate::render::{
    attrs_end, render, render_attr, render_block, render_data, render_run, render_separated,
};
use crate::text::{
    all_in_class, is_space, join_lines, lemma_join_add, lemma_join_one, lines_of, CharClass,
};
use vstd::prelude::*;

verus! {

/// Whether `name` is a name: one or more characters of names.
pub open spec fn is_name(name: Seq<char>) -> bool {
    name.len() > 0 && all_in_class(name, CharClass::Name)
}

/// Whether `unit` can render one level of nesting: one or more blanks.
pub open spec fn is_unit(unit: Seq<char>) -> bool {
    unit.len() > 0 && all_in_class(unit, CharClass::Space)
}

/// Whether `line` is a canonical data line: without line breaks and without a
/// blank at its start.
pub open spec fn is_data_line(line: Seq<char>) -> bool {
    all_in_class(line, CharClass::Line) && (line.len() > 0 ==> !is_space(line[0]))
}

/// Whether `data` is made of canonical data lines, each with a line feed behind
/// it.
pub open spec fn is_elem_data(data: Seq<char>) -> bool {
    &&& data == join_lines(lines_of(data))
    &&& forall|i: int| 0 <= i < lines_of(data).len() ==> is_data_line(#[trigger] lines_of(data)[i])
}

/// Whether the tree is a canonical attribute: a leaf with a name and at most
/// one value, which fits the way it is written; without a value it counts as
/// quoted.
pub open spec fn is_attr_node(name: Seq<char>, tree: BmlTree) -> bool {
    &&& is_name(name)
    &&& tree.nodes.len() == 0
    &&& tree.kind matches BmlKind::Attr { quote }
    &&& if tree.data.len() == 0 {
        quote
    } else {
        tree.data.last() == '\n' && all_in_class(
            tree.data.drop_last(),
            if quote {
                CharClass::Quoted
            } else {
                CharClass::Bare
            },
        )
    }
}

/// Whether the tree is a canonical element: it has a name and data lines, and
/// its children are attributes first and elements behind them.
pub open spec fn is_elem_node(name: Seq<char>, tree: BmlTree) -> bool
    decreases tree,
{
    &&& is_name(name)
    &&& tree.kind is Elem
    &&& is_elem_data(tree.data)
    &&& forall|i: int|
        0 <= i < tree.nodes.len() ==> {
            let child = #[trigger] tree.nodes[i];
            if i < attrs_end(tree.nodes, 0) {
                is_attr_node(child.0, child.1)
            } else {
                is_elem_node(child.0, child.1)
            }
        }
}

/// Whether the tree is a canonical document: a root without data whose children
/// are elements.
pub open spec fn is_root_node(tree: BmlTree) -> bool {
    &&& tree.kind is Root
    &&& tree.data.len() == 0
    &&& forall|i: int|
        0 <= i < tree.nodes.len() ==> is_elem_node(
            (#[trigger] tree.nodes[i]).0,
            tree.nodes[i].1,
        )
}

/// Whether the element holds its data on its first line.
pub open spec fn is_inline(tree: BmlTree) -> bool {
    attrs_end(tree.nodes, 0) == 0 && lines_of(tree.data).len() == 1
}

/// The text of an attribute on the line of its element.
pub open spec fn attr_text(name: Seq<char>, tree: BmlTree) -> Seq<char> {
    render_attr(name, lines_of(tree.data), tree.kind->quote)
}

/// The texts of the attributes from `from` up to `to`, one behind the other.
pub open spec fn attrs_text(nodes: Seq<(Seq<char>, BmlTree)>, from: int, to: int) -> Seq<char>
    decreases to - from,
{
    if 0 <= from < to <= nodes.len() {
        attr_text(nodes[from].0, nodes[from].1) + attrs_text(nodes, from + 1, to)
    } else {
        Seq::empty()
    }
}

/// The first line of an element, without its line feed.
pub open spec fn head_line(tree: BmlTree, name: Seq<char>, indent: Seq<char>) -> Seq<char> {
    if is_inline(tree) {
        indent + name + seq![':', ' '] + lines_of(tree.data)[0]
    } else {
        indent + name + attrs_text(tree.nodes, 0, attrs_end(tree.nodes, 0))
    }
}

/// The data lines `lines` as lines of a block at `indent`.
pub open spec fn block_lines(lines: Seq<Seq<char>>, indent: Seq<char>) -> Seq<Seq<char>> {
    Seq::new(lines.len(), |i: int| indent + seq![':'] + lines[i])
}

/// The data lines of an element that stand in its block at `indent`.
pub open spec fn data_block(tree: BmlTree, indent: Seq<char>) -> Seq<Seq<char>> {
    if is_inline(tree) {
        Seq::empty()
    } else {
        block_lines(lines_of(tree.data), indent)
    }
}

/// The lines of an element at the level `level`, without their line feeds.
pub open spec fn elem_lines(tree: BmlTree, name: Seq<char>, unit: Seq<char>, level: nat) -> Seq<
    Seq<char>,
>
    decreases tree, 0nat,
{
    seq![head_line(tree, name, repeated(unit, level))] + data_block(
        tree,
        repeated(unit, level + 1),
    ) + run_lines(
        tree.nodes,
        attrs_end(tree.nodes, 0),
        tree.nodes.len() as int,
        unit,
        level + 1,
    )
}

/// The lines of the elements from `from` up to `to` at the level `level`.
pub open spec fn run_lines(
    nodes: Seq<(Seq<char>, BmlTree)>,
    from: int,
    to: int,
    unit: Seq<char>,
    level: nat,
) -> Seq<Seq<char>>
    decreases nodes, to - from,
{
    if 0 <= from < to <= nodes.len() {
        elem_lines(nodes[from].1, nodes[from].0, unit, level) + run_lines(
            nodes,
            from + 1,
            to,
            unit,
            level,
        )
    } else {
        Seq::empty()
    }
}

/// The production of a canonical attribute.
pub open spec fn attr_part(name: Seq<char>, tree: BmlTree) -> Production {
    if tree.data.len() == 0 {
        group(Rule::Attr, seq![token(Rule::Name, name)])
    } else {
        group(
            Rule::Attr,
            seq![
                token(Rule::Name, name),
                datum(
                    if tree.kind->quote {
                        Rule::QuoteData
                    } else {
                        Rule::SpaceData
                    },
                    tree.data.drop_last(),
                ),
            ],
        )
    }
}

/// The productions of the attributes from `from` up to `to`.
pub open spec fn attr_parts(nodes: Seq<(Seq<char>, BmlTree)>, from: int, to: int) -> Seq<
    Production,
> {
    Seq::new((to - from) as nat, |i: int| attr_part(nodes[from + i].0, nodes[from + i].1))
}

/// The productions of the data lines `lines`.
pub open spec fn data_parts(lines: Seq<Seq<char>>) -> Seq<Production> {
    Seq::new(lines.len(), |i: int| datum(Rule::ColonData, lines[i]))
}

/// The productions of the first line of an element: its name and behind it its
/// data line, if it holds it, or its attributes.
pub open spec fn head_parts(name: Seq<char>, tree: BmlTree) -> Seq<Production> {
    if is_inline(tree) {
        seq![token(Rule::Name, name), datum(Rule::ColonData, lines_of(tree.data)[0])]
    } else {
        seq![token(Rule::Name, name)] + attr_parts(tree.nodes, 0, attrs_end(tree.nodes, 0))
    }
}

/// The productions of the data lines of an element that stand in its block.
pub open spec fn data_block_parts(tree: BmlTree) -> Seq<Production> {
    if is_inline(tree) {
        Seq::empty()
    } else {
        data_parts(lines_of(tree.data))
    }
}

/// The production of a canonical element.
pub open spec fn node_part(name: Seq<char>, tree: BmlTree) -> Production
    decreases tree,
{
    group(
        Rule::Node,
        head_parts(name, tree) + data_block_parts(tree) + node_parts(
            tree.nodes,
            attrs_end(tree.nodes, 0),
            tree.nodes.len() as int,
        ),
    )
}

/// The productions of the elements from `from` up to `to`.
pub open spec fn node_parts(nodes: Seq<(Seq<char>, BmlTree)>, from: int, to: int) -> Seq<
    Production,
>
    decreases nodes,
{
    Seq::new(
        (to - from) as nat,
        |i: int|
            if 0 <= from + i < nodes.len() {
                node_part(nodes[from + i].0, nodes[from + i].1)
            } else {
                arbitrary()
            },
    )
}

/// The lines of the first `count` elements of a document, with an empty line
/// between each two elements.
pub open spec fn root_lines(nodes: Seq<(Seq<char>, BmlTree)>, count: int, unit: Seq<char>) -> Seq<
    Seq<char>,
>
    decreases count,
{
    if count <= 0 || count > nodes.len() {
        Seq::empty()
    } else if count == 1 {
        elem_lines(nodes[0].1, nodes[0].0, unit, 0)
    } else {
        root_lines(nodes, count - 1, unit) + seq![Seq::<char>::empty()] + elem_lines(
            nodes[count - 1].1,
            nodes[count - 1].0,
            unit,
            0,
        )
    }
}

/// What `attrs_end` returns: the run lies within the nodes, holds attributes
/// only, and ends at the end of the nodes or before a node that is none.
pub proof fn lemma_attrs_end(nodes: Seq<(Seq<char>, BmlTree)>, from: int)
    requires
        0 <= from <= nodes.len(),
    ensures
        from <= attrs_end(nodes, from) <= nodes.len(),
        forall|i: int| from <= i < attrs_end(nodes, from) ==> (#[trigger] nodes[i]).1.kind is Attr,
        attrs_end(nodes, from) < nodes.len() ==> !(nodes[attrs_end(nodes, from)].1.kind is Attr),
    decreases nodes.len() - from,
{
    if from < nodes.len() && nodes[from].1.kind is Attr {
        lemma_attrs_end(nodes, from + 1);
    }
}

/// A run of attributes that ends at `to`, the end of the nodes or a node that
/// is none, is the run that `attrs_end` finds.
pub proof fn lemma_attrs_end_is(nodes: Seq<(Seq<char>, BmlTree)>, from: int, to: int)
    requires
        0 <= from <= to <= nodes.len(),
        forall|i: int| from <= i < to ==> (#[trigger] nodes[i]).1.kind is Attr,
        to < nodes.len() ==> !(nodes[to].1.kind is Attr),
    ensures
        attrs_end(nodes, from) == to,
    decreases to - from,
{
    if from < to {
        lemma_attrs_end_is(nodes, from + 1, to);
    }
}

/// The texts of nodes, one behind the other, are the text of the first and the
/// texts of the others.
pub proof fn lemma_render_run_first(
    nodes: Seq<(Seq<char>, BmlTree)>,
    from: int,
    to: int,
    unit: Seq<char>,
    level: nat,
)
    requires
        0 <= from < to <= nodes.len(),
    ensures
        render_run(nodes, from, to, unit, level) == render(
            nodes[from].1,
            nodes[from].0,
            unit,
            level,
        ) + render_run(nodes, from + 1, to, unit, level),
    decreases to - from,
{
    let first = render(nodes[from].1, nodes[from].0, unit, level);
    if from + 1 == to {
        assert(render_run(nodes, from, to - 1, unit, level) =~= Seq::<char>::empty());
        assert(render_run(nodes, from + 1, to, unit, level) =~= Seq::<char>::empty());
        assert(render_run(nodes, from, to, unit, level) =~= first + Seq::<char>::empty());
    } else {
        lemma_render_run_first(nodes, from, to - 1, unit, level);
        let last = render(nodes[to - 1].1, nodes[to - 1].0, unit, level);
        assert(render_run(nodes, from, to, unit, level) =~= first + (render_run(
            nodes,
            from + 1,
            to - 1,
            unit,
            level,
        ) + last));
    }
}

/// The rendered attributes are their texts.
pub proof fn lemma_render_attrs(
    nodes: Seq<(Seq<char>, BmlTree)>,
    from: int,
    to: int,
    unit: Seq<char>,
    level: nat,
)
    requires
        0 <= from <= to <= nodes.len(),
        forall|i: int| from <= i < to ==> (#[trigger] nodes[i]).1.kind is Attr,
    ensures
        render_run(nodes, from, to, unit, level) == attrs_text(nodes, from, to),
    decreases to - from,
{
    if from < to {
        lemma_render_run_first(nodes, from, to, unit, level);
        lemma_render_attrs(nodes, from + 1, to, unit, level);
        assert(nodes[from].1.kind is Attr);
    }
}

/// A rendered block of data lines is the text of its lines.
pub proof fn lemma_render_block(lines: Seq<Seq<char>>, count: int, indent: Seq<char>)
    requires
        0 <= count <= lines.len(),
    ensures
        render_block(lines, count, indent) == join_lines(
            block_lines(lines, indent).subrange(0, count),
        ),
    decreases count,
{
    let block = block_lines(lines, indent);
    if count == 0 {
        assert(join_lines(block.subrange(0, 0)) =~= Seq::<char>::empty());
    } else {
        lemma_render_block(lines, count - 1, indent);
        assert(block.subrange(0, count).drop_last() =~= block.subrange(0, count - 1));
        assert(block.subrange(0, count).last() == indent + seq![':'] + lines[count - 1]);
        assert(render_block(lines, count, indent) =~= join_lines(block.subrange(0, count)));
    }
}

/// The text of a canonical element is the text of its lines.
pub proof fn lemma_render_elem(tree: BmlTree, name: Seq<char>, unit: Seq<char>, level: nat)
    requires
        is_elem_node(name, tree),
    ensures
        render(tree, name, unit, level) == join_lines(elem_lines(tree, name, unit, level)),
    decreases tree, 0nat,
{
    let attrs = attrs_end(tree.nodes, 0);
    let count = tree.nodes.len() as int;
    let lines = lines_of(tree.data);
    let indent = repeated(unit, level);
    let deeper = repeated(unit, level + 1);
    let head = head_line(tree, name, indent);
    let block = data_block(tree, deeper);
    let below = run_lines(tree.nodes, attrs, count, unit, level + 1);
    lemma_attrs_end(tree.nodes, 0);
    lemma_render_attrs(tree.nodes, 0, attrs, unit, level + 1);
    lemma_render_elems(tree.nodes, attrs, count, unit, level + 1);
    lemma_render_block(lines, lines.len() as int, deeper);
    assert(block_lines(lines, deeper).subrange(0, lines.len() as int) =~= block_lines(
        lines,
        deeper,
    ));
    lemma_join_add(seq![head], block);
    lemma_join_add(seq![head] + block, below);
    lemma_join_one(head);
    if is_inline(tree) {
        assert(attrs_text(tree.nodes, 0, 0) =~= Seq::<char>::empty());
        assert(join_lines(block) =~= Seq::<char>::empty());
        assert(render(tree, name, unit, level) =~= join_lines(
            elem_lines(tree, name, unit, level),
        ));
    } else {
        assert(render_data(lines, attrs == 0, deeper) == seq!['\n'] + join_lines(block));
        assert(render(tree, name, unit, level) =~= join_lines(
            elem_lines(tree, name, unit, level),
        ));
    }
}

/// The texts of canonical elements are the text of their lines.
pub proof fn lemma_render_elems(
    nodes: Seq<(Seq<char>, BmlTree)>,
    from: int,
    to: int,
    unit: Seq<char>,
    level: nat,
)
    requires
        0 <= from <= to <= nodes.len(),
        forall|i: int| from <= i < to ==> is_elem_node((#[trigger] nodes[i]).0, nodes[i].1),
    ensures
        render_run(nodes, from, to, unit, level) == join_lines(
            run_lines(nodes, from, to, unit, level),
        ),
    decreases nodes, to - from,
{
    if from < to {
        lemma_render_run_first(nodes, from, to, unit, level);
        lemma_render_elem(nodes[from].1, nodes[from].0, unit, level);
        lemma_render_elems(nodes, from + 1, to, unit, level);
        lemma_join_add(
            elem_lines(nodes[from].1, nodes[from].0, unit, level),
            run_lines(nodes, from + 1, to, unit, level),
        );
    } else {
        assert(join_lines(run_lines(nodes, from, to, unit, level)) =~= Seq::<char>::empty());
    }
}

/// The text of the elements of a canonical document is the text of their lines.
pub proof fn lemma_render_root(nodes: Seq<(Seq<char>, BmlTree)>, count: int, unit: Seq<char>)
    requires
        0 <= count <= nodes.len(),
        forall|i: int| 0 <= i < count ==> is_elem_node((#[trigger] nodes[i]).0, nodes[i].1),
    ensures
        render_separated(nodes, count, unit, 0) == join_lines(root_lines(nodes, count, unit)),
    decreases count,
{
    if count == 0 {
        assert(join_lines(root_lines(nodes, count, unit)) =~= Seq::<char>::empty());
    } else {
        let last = elem_lines(nodes[count - 1].1, nodes[count - 1].0, unit, 0);
        assert(is_elem_node(nodes[count - 1].0, nodes[count - 1].1));
        lemma_render_elem(nodes[count - 1].1, nodes[count - 1].0, unit, 0);
        if count > 1 {
            let before = root_lines(nodes, count - 1, unit);
            let gap = seq![Seq::<char>::empty()];
            lemma_render_root(nodes, count - 1, unit);
            lemma_join_add(before + gap, last);
            lemma_join_add(before, gap);
            lemma_join_one(Seq::<char>::empty());
            assert(Seq::<char>::empty() + seq!['\n'] =~= seq!['\n']);
        }
    }
}

/// The lines of elements are those of all but the last and those of the last.
pub proof fn lemma_run_lines_last(
    nodes: Seq<(Seq<char>, BmlTree)>,
    from: int,
    to: int,
    unit: Seq<char>,
    level: nat,
)
    requires
        0 <= from < to <= nodes.len(),
    ensures
        run_lines(nodes, from, to, unit, level) == run_lines(nodes, from, to - 1, unit, level)
            + elem_lines(nodes[to - 1].1, nodes[to - 1].0, unit, level),
    decreases to - from,
{
    let last = elem_lines(nodes[to - 1].1, nodes[to - 1].0, unit, level);
    if from + 1 == to {
        assert(run_lines(nodes, from + 1, to, unit, level) =~= Seq::<Seq<char>>::empty());
        assert(run_lines(nodes, from, to - 1, unit, level) =~= Seq::<Seq<char>>::empty());
        assert(run_lines(nodes, from, to, unit, level) =~= run_lines(
            nodes,
            from,
            to - 1,
            unit,
            level,
        ) + last);
    } else {
        lemma_run_lines_last(nodes, from + 1, to, unit, level);
        let first = elem_lines(nodes[from].1, nodes[from].0, unit, level);
        assert(run_lines(nodes, from, to, unit, level) =~= (first + run_lines(
            nodes,
            from + 1,
            to - 1,
            unit,
            level,
        )) + last);
    }
}

} // verus!
