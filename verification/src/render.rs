//! The serializer: the canonical text of a tree.

use crate::indent::{default_indent, repeated, BmlIndent};
use crate::node::{BmlKind, BmlNode, BmlTree};
use crate::text::{lines_of, texts};
use vstd::prelude::*;

verus! {

/// The end of the run of attributes among `nodes` that starts at `from`.
pub open spec fn attrs_end(nodes: Seq<(Seq<char>, BmlTree)>, from: int) -> int
    decreases nodes.len() - from,
{
    if 0 <= from < nodes.len() && nodes[from].1.kind is Attr {
        attrs_end(nodes, from + 1)
    } else {
        from
    }
}

/// The text of an attribute on the line of its element: a space and the name, then,
/// if there is a data line, `=` and the first line, in double quotes if `quote`.
pub open spec fn render_attr(name: Seq<char>, lines: Seq<Seq<char>>, quote: bool) -> Seq<char> {
    if lines.len() == 0 {
        seq![' '] + name
    } else if quote {
        seq![' '] + name + seq!['=', '"'] + lines[0] + seq!['"']
    } else {
        seq![' '] + name + seq!['='] + lines[0]
    }
}

/// The first `count` of `lines` as a block: each on a line of its own, behind
/// `indent` and a colon.
pub open spec fn render_block(lines: Seq<Seq<char>>, count: int, indent: Seq<char>) -> Seq<char>
    decreases count,
{
    if count <= 0 {
        Seq::empty()
    } else {
        render_block(lines, count - 1, indent) + indent + seq![':'] + lines[count - 1] + seq!['\n']
    }
}

/// The data lines of an element and what ends its first line: a single line of
/// an element without attributes stands on the first line, behind `: `;
/// otherwise the first line ends and the lines follow as a block behind `indent`.
pub open spec fn render_data(lines: Seq<Seq<char>>, bare: bool, indent: Seq<char>) -> Seq<char> {
    if bare && lines.len() == 1 {
        seq![':', ' '] + lines[0] + seq!['\n']
    } else {
        seq!['\n'] + render_block(lines, lines.len() as int, indent)
    }
}

/// The text of `tree` under the name `name`, where one level of nesting is
/// rendered as `unit` and the node stands at the level `level`.
///
/// A root renders its children at its own indent, with one empty line between
/// them. An element renders as a line that starts with its name behind the indent,
/// carries its leading attributes and, where it has none and a single data line,
/// that line behind `: `; otherwise the data lines follow as a block one level
/// deeper. The other children follow one level deeper.
pub open spec fn render(tree: BmlTree, name: Seq<char>, unit: Seq<char>, level: nat) -> Seq<char>
    decreases tree, 0nat,
{
    match tree.kind {
        BmlKind::Root { indent } => render_separated(
            tree.nodes,
            tree.nodes.len() as int,
            indent.string@,
            indent.repeat as nat,
        ),
        BmlKind::Elem => {
            let attrs = attrs_end(tree.nodes, 0);
            repeated(unit, level) + name + render_run(tree.nodes, 0, attrs, unit, level + 1)
                + render_data(lines_of(tree.data), attrs == 0, repeated(unit, level + 1))
                + render_run(tree.nodes, attrs, tree.nodes.len() as int, unit, level + 1)
        },
        BmlKind::Attr { quote } => render_attr(name, lines_of(tree.data), quote),
    }
}

/// The texts of the nodes from `from` up to `to`, one behind the other.
pub open spec fn render_run(
    nodes: Seq<(Seq<char>, BmlTree)>,
    from: int,
    to: int,
    unit: Seq<char>,
    level: nat,
) -> Seq<char>
    decreases nodes, to - from,
{
    if 0 <= from < to <= nodes.len() {
        render_run(nodes, from, to - 1, unit, level) + render(
            nodes[to - 1].1,
            nodes[to - 1].0,
            unit,
            level,
        )
    } else {
        Seq::empty()
    }
}

/// The texts of the first `count` nodes with a line feed between each two.
pub open spec fn render_separated(
    nodes: Seq<(Seq<char>, BmlTree)>,
    count: int,
    unit: Seq<char>,
    level: nat,
) -> Seq<char>
    decreases nodes, count,
{
    if 1 < count <= nodes.len() {
        render_separated(nodes, count - 1, unit, level) + seq!['\n'] + render(
            nodes[count - 1].1,
            nodes[count - 1].0,
            unit,
            level,
        )
    } else if count == 1 && nodes.len() >= 1 {
        render(nodes[0].1, nodes[0].0, unit, level)
    } else {
        Seq::empty()
    }
}

/// The text of `tree`: that of a root at its own indent, that of another node
/// without a name at the default indent.
pub open spec fn text_of(tree: BmlTree) -> Seq<char> {
    render(tree, Seq::empty(), default_indent().string@, 0)
}

/// Whether the level of every element of `tree` can be counted in a `usize`,
/// where `tree` stands at the level `level`.
pub open spec fn fits(tree: BmlTree, level: nat) -> bool
    decreases tree,
{
    match tree.kind {
        BmlKind::Root { indent } => forall|i: int|
            0 <= i < tree.nodes.len() ==> fits((#[trigger] tree.nodes[i]).1, indent.repeat as nat),
        BmlKind::Elem => level < usize::MAX && forall|i: int|
            0 <= i < tree.nodes.len() ==> fits((#[trigger] tree.nodes[i]).1, level + 1),
        BmlKind::Attr { .. } => true,
    }
}

/// Appends the text of an attribute of the name `name` with the data lines `lines` to `out`.
fn write_attr(out: &mut String, name: &str, lines: &Vec<String>, quote: bool)
    ensures
        final(out)@ == old(out)@ + render_attr(name@, texts(lines@), quote),
{
    proof {
        reveal_strlit(" ");
        reveal_strlit("=");
        reveal_strlit("=\"");
        reveal_strlit("\"");
    }
    out.append(" ");
    out.append(name);
    if lines.len() > 0 {
        if quote {
            out.append("=\"");
            out.append(lines[0].as_str());
            out.append("\"");
        } else {
            out.append("=");
            out.append(lines[0].as_str());
        }
    }
    assert(out@ =~= old(out)@ + render_attr(name@, texts(lines@), quote));
}

/// Appends the data lines `lines` of an element to `out`, on its first line if
/// there is one line and the element is `bare` of attributes, else as a block at `indent`.
fn write_data(out: &mut String, lines: &Vec<String>, bare: bool, indent: BmlIndent)
    ensures
        final(out)@ == old(out)@ + render_data(texts(lines@), bare, indent.text()),
{
    proof {
        reveal_strlit("\n");
        reveal_strlit(": ");
    }
    if bare && lines.len() == 1 {
        out.append(": ");
        out.append(lines[0].as_str());
        out.append("\n");
        assert(out@ =~= old(out)@ + (seq![':', ' '] + texts(lines@)[0] + seq!['\n']));
    } else {
        out.append("\n");
        let ghost head = out@;
        let mut line: usize = 0;
        while line < lines.len()
            invariant
                line <= lines.len(),
                out@ == head + render_block(texts(lines@), line as int, indent.text()),
            decreases lines.len() - line,
        {
            proof {
                reveal_strlit("\n");
                reveal_strlit(":");
            }
            let ghost prior = render_block(texts(lines@), line as int, indent.text());
            indent.write(out);
            out.append(":");
            out.append(lines[line].as_str());
            out.append("\n");
            line = line + 1;
            assert(render_block(texts(lines@), line as int, indent.text()) == prior + indent.text()
                + seq![':'] + texts(lines@)[line - 1] + seq!['\n']);
            assert(out@ =~= head + render_block(texts(lines@), line as int, indent.text()));
        }
        assert(out@ =~= old(out)@ + (seq!['\n'] + render_block(
            texts(lines@),
            lines.len() as int,
            indent.text(),
        )));
    }
}

impl BmlNode {
    /// Appends the texts of the children from `from` up to `to` at `indent` to `out`.
    fn write_run(&self, out: &mut String, from: usize, to: usize, indent: BmlIndent)
        requires
            from <= to <= self@.nodes.len(),
            forall|i: int|
                from <= i < to ==> fits((#[trigger] self@.nodes[i]).1, indent.repeat as nat),
        ensures
            final(out)@ == old(out)@ + render_run(
                self@.nodes,
                from as int,
                to as int,
                indent.string@,
                indent.repeat as nat,
            ),
        decreases self@, 0nat,
    {
        let ghost unit = indent.string@;
        let ghost level = indent.repeat as nat;
        let mut at = from;
        while at < to
            invariant
                from <= at <= to <= self@.nodes.len(),
                forall|i: int| from <= i < to ==> fits((#[trigger] self@.nodes[i]).1, level),
                unit == indent.string@,
                level == indent.repeat as nat,
                out@ == old(out)@ + render_run(self@.nodes, from as int, at as int, unit, level),
            decreases to - at,
        {
            let (name, child) = self.child(at);
            assert(fits(self@.nodes[at as int].1, level));
            child.serialize(out, name, indent);
            at = at + 1;
            assert(out@ =~= old(out)@ + render_run(
                self@.nodes,
                from as int,
                at as int,
                unit,
                level,
            ));
        }
    }

    /// Appends the texts of the children at `indent` to `out`, with a line feed
    /// between each two.
    fn write_separated(&self, out: &mut String, indent: BmlIndent)
        requires
            forall|i: int|
                0 <= i < self@.nodes.len() ==> fits(
                    (#[trigger] self@.nodes[i]).1,
                    indent.repeat as nat,
                ),
        ensures
            final(out)@ == old(out)@ + render_separated(
                self@.nodes,
                self@.nodes.len() as int,
                indent.string@,
                indent.repeat as nat,
            ),
        decreases self@, 0nat,
    {
        let ghost unit = indent.string@;
        let ghost level = indent.repeat as nat;
        let count = self.len();
        let mut at: usize = 0;
        while at < count
            invariant
                at <= count == self@.nodes.len(),
                forall|i: int| 0 <= i < count ==> fits((#[trigger] self@.nodes[i]).1, level),
                unit == indent.string@,
                level == indent.repeat as nat,
                out@ == old(out)@ + render_separated(self@.nodes, at as int, unit, level),
            decreases count - at,
        {
            if at > 0 {
                proof {
                    reveal_strlit("\n");
                }
                out.append("\n");
            }
            let (name, child) = self.child(at);
            assert(fits(self@.nodes[at as int].1, level));
            child.serialize(out, name, indent);
            at = at + 1;
            assert(out@ =~= old(out)@ + render_separated(self@.nodes, at as int, unit, level));
        }
    }

    /// The number of attributes that lead the children.
    fn count_attrs(&self) -> (attrs: usize)
        ensures
            attrs == attrs_end(self@.nodes, 0),
            attrs <= self@.nodes.len(),
    {
        let count = self.len();
        let mut attrs: usize = 0;
        while attrs < count && self.child(attrs).1.is_attr()
            invariant
                attrs <= count == self@.nodes.len(),
                attrs_end(self@.nodes, 0) == attrs_end(self@.nodes, attrs as int),
            decreases count - attrs,
        {
            attrs = attrs + 1;
        }
        attrs
    }

    /// Whether the level of every element of the node can be counted in a `usize`,
    /// where the node stands at the level `level`.
    pub fn fits(&self, level: usize) -> (yes: bool)
        ensures
            yes == fits(self@, level as nat),
        decreases self@,
    {
        let inner = match self.kind() {
            BmlKind::Root { indent } => indent.repeat,
            BmlKind::Elem => {
                if level == usize::MAX {
                    return false;
                }
                level + 1
            },
            BmlKind::Attr { .. } => {
                return true;
            },
        };
        let count = self.len();
        let mut at: usize = 0;
        while at < count
            invariant
                at <= count == self@.nodes.len(),
                !(self@.kind is Attr),
                self@.kind is Root ==> inner == self@.kind->indent.repeat,
                self@.kind is Elem ==> level < usize::MAX && inner == level + 1,
                forall|i: int| 0 <= i < at ==> fits((#[trigger] self@.nodes[i]).1, inner as nat),
            decreases count - at,
        {
            if !self.child(at).1.fits(inner) {
                assert(!fits(self@.nodes[at as int].1, inner as nat));
                return false;
            }
            at = at + 1;
        }
        true
    }

    /// The text of the node: that of a root at its own indent, that of another
    /// node without a name at the default indent.
    ///
    /// The levels of the elements must fit, as those of the tree of a text do at
    /// the default indent.
    pub fn to_string(&self) -> (text: String)
        requires
            fits(self@, 0),
        ensures
            text@ == text_of(self@),
    {
        let mut text = String::new();
        let empty = String::new();
        self.serialize(&mut text, empty.as_str(), BmlIndent::default());
        assert(text@ =~= text_of(self@));
        text
    }

    /// Appends the text of the node under the name `name` at the indent `indent`
    /// to `out`.
    ///
    /// The levels of the elements must fit.
    pub fn serialize(&self, out: &mut String, name: &str, indent: BmlIndent)
        requires
            fits(self@, indent.repeat as nat),
        ensures
            final(out)@ == old(out)@ + render(self@, name@, indent.string@, indent.repeat as nat),
        decreases self@, 1nat,
    {
        match self.kind() {
            BmlKind::Root { indent: own } => {
                self.write_separated(out, own);
            },
            BmlKind::Elem => {
                indent.write(out);
                out.append(name);
                let inner = indent.next();
                let attrs = self.count_attrs();
                self.write_run(out, 0, attrs, inner);
                let lines = self.lines();
                write_data(out, &lines, attrs == 0, inner);
                self.write_run(out, attrs, self.len(), inner);
                assert(out@ =~= old(out)@ + render(
                    self@,
                    name@,
                    indent.string@,
                    indent.repeat as nat,
                ));
            },
            BmlKind::Attr { quote } => {
                let lines = self.lines();
                write_attr(out, name, &lines, quote);
            },
        }
    }
}

} // verus!
