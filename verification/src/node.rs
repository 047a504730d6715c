//! The node model: a tree of root, element and attribute nodes.

use crate::indent::{default_indent, BmlIndent};
use crate::index::{append_index, entries, get_all_index, new_index, values_of};
use crate::text::{chars_of, lines_of, split_lines, texts};
use ordered_multimap::ListOrderedMultimap;
use vstd::pervasive::unreached;
use vstd::prelude::*;

verus! {

/// What a node is.
#[derive(Debug, Clone, Copy)]
pub enum BmlKind {
    /// The top-level container of a document, with the indent policy of its rendering.
    Root { indent: BmlIndent },
    /// A named node with data lines, attributes and nested elements.
    Elem,
    /// A named leaf of an element, with the flag whether its value is rendered in quotes.
    Attr { quote: bool },
}

impl BmlKind {
    /// Whether `self` and `other` are the same variant, whatever they carry.
    pub open spec fn same_variant(self, other: BmlKind) -> bool {
        ||| self is Root && other is Root
        ||| self is Elem && other is Elem
        ||| self is Attr && other is Attr
    }
}

impl PartialEq for BmlKind {
    /// Kinds are equal where they are the same variant.
    fn eq(&self, other: &BmlKind) -> (equal: bool) {
        match (self, other) {
            (BmlKind::Root { .. }, BmlKind::Root { .. }) => true,
            (BmlKind::Elem, BmlKind::Elem) => true,
            (BmlKind::Attr { .. }, BmlKind::Attr { .. }) => true,
            _ => false,
        }
    }
}

impl vstd::std_specs::cmp::PartialEqSpecImpl for BmlKind {
    open spec fn obeys_eq_spec() -> bool {
        true
    }

    open spec fn eq_spec(&self, other: &BmlKind) -> bool {
        self.same_variant(*other)
    }
}

impl Eq for BmlKind {

}

impl Default for BmlKind {
    /// The root kind with the default indent.
    fn default() -> (kind: Self)
        ensures
            kind == (BmlKind::Root { indent: default_indent() }),
    {
        BmlKind::Root { indent: BmlIndent::default() }
    }
}

/// The mathematical value of a node: its kind, its data and its named children in
/// the order in which they were appended.
pub struct BmlTree {
    pub kind: BmlKind,
    pub data: Seq<char>,
    pub nodes: Seq<(Seq<char>, BmlTree)>,
}

/// What equality of nodes compares: the data and the named children, without the kinds.
pub struct BmlContent {
    pub data: Seq<char>,
    pub nodes: Seq<(Seq<char>, BmlContent)>,
}

/// Those of `nodes` whose name is `name`, in the order of `nodes`.
pub open spec fn nodes_named(nodes: Seq<(Seq<char>, BmlTree)>, name: Seq<char>) -> Seq<BmlTree>
    decreases nodes.len(),
{
    if nodes.len() == 0 {
        Seq::empty()
    } else if nodes.last().0 == name {
        nodes_named(nodes.drop_last(), name).push(nodes.last().1)
    } else {
        nodes_named(nodes.drop_last(), name)
    }
}

/// The positions of those of `nodes` whose name is `name`, in order.
pub open spec fn positions_named(nodes: Seq<(Seq<char>, BmlTree)>, name: Seq<char>) -> Seq<int>
    decreases nodes.len(),
{
    if nodes.len() == 0 {
        Seq::empty()
    } else if nodes.last().0 == name {
        positions_named(nodes.drop_last(), name).push(nodes.len() - 1)
    } else {
        positions_named(nodes.drop_last(), name)
    }
}

impl BmlTree {
    /// The tree without its kinds.
    pub open spec fn content(self) -> BmlContent
        decreases self,
    {
        BmlContent {
            data: self.data,
            nodes: Seq::new(
                self.nodes.len(),
                |i: int|
                    if 0 <= i < self.nodes.len() {
                        (self.nodes[i].0, self.nodes[i].1.content())
                    } else {
                        arbitrary()
                    },
            ),
        }
    }

    /// The tree as a root with the indent `indent`.
    pub open spec fn with_indent(self, indent: BmlIndent) -> BmlTree {
        BmlTree { kind: BmlKind::Root { indent }, ..self }
    }

    /// The data lines.
    pub open spec fn lines(self) -> Seq<Seq<char>> {
        lines_of(self.data)
    }

    /// The children of the name `name`, in order.
    pub open spec fn named(self, name: Seq<char>) -> Seq<BmlTree> {
        nodes_named(self.nodes, name)
    }
}

/// BML node comprising data lines and named child nodes.
///
/// Attributes are child nodes as well; their kind marks them for rendering only.
#[derive(Debug)]
pub struct BmlNode {
    kind: BmlKind,
    /// Whether there is a data line.
    filled: bool,
    /// The data lines with a line feed between each two.
    value: String,
    node: Vec<(String, BmlNode)>,
    index: ListOrderedMultimap<String, usize>,
}

/// The data of the lines `value`, if `filled`: every line with a line feed behind it.
spec fn data_of(filled: bool, value: Seq<char>) -> Seq<char> {
    if filled {
        value.push('\n')
    } else {
        Seq::empty()
    }
}

/// The entries that the index of the children `node` holds: each name with its position.
spec fn index_of(node: Seq<(String, BmlNode)>) -> Seq<(Seq<char>, usize)> {
    Seq::new(node.len(), |i: int| (node[i].0@, i as usize))
}

/// The positions that the index gives for a name are those of the children of that name.
proof fn lemma_positions(
    node: Seq<(String, BmlNode)>,
    nodes: Seq<(Seq<char>, BmlTree)>,
    name: Seq<char>,
)
    requires
        node.len() == nodes.len(),
        node.len() <= usize::MAX,
        forall|i: int| 0 <= i < node.len() ==> (#[trigger] nodes[i]) == (node[i].0@, node[i].1@),
    ensures
        values_of(index_of(node), name).len() == nodes_named(nodes, name).len(),
        forall|j: int|
            0 <= j < nodes_named(nodes, name).len() ==> {
                let at = #[trigger] values_of(index_of(node), name)[j];
                &&& 0 <= at < node.len()
                &&& node[at as int].1@ == nodes_named(nodes, name)[j]
            },
    decreases node.len(),
{
    if node.len() > 0 {
        lemma_positions(node.drop_last(), nodes.drop_last(), name);
        assert(index_of(node).drop_last() =~= index_of(node.drop_last()));
    }
}

/// The value of `node`.
spec fn tree_of(node: BmlNode) -> BmlTree
    decreases node,
{
    BmlTree {
        kind: node.kind,
        data: data_of(node.filled, node.value@),
        nodes: Seq::new(
            node.node.len() as nat,
            |i: int|
                if 0 <= i < node.node.len() {
                    (node.node[i].0@, tree_of(node.node[i].1))
                } else {
                    arbitrary()
                },
        ),
    }
}

/// Two trees have the same content where their data are the same and their
/// children agree, one by one, in name and content.
pub proof fn lemma_same_content(left: BmlTree, right: BmlTree)
    ensures
        left.content() == right.content() <==> {
            &&& left.data == right.data
            &&& left.nodes.len() == right.nodes.len()
            &&& forall|i: int|
                0 <= i < left.nodes.len() ==> (#[trigger] left.nodes[i]).0 == right.nodes[i].0
                    && left.nodes[i].1.content() == right.nodes[i].1.content()
        },
{
    if left.content() == right.content() {
        assert(left.content().nodes.len() == right.content().nodes.len());
        assert forall|i: int| 0 <= i < left.nodes.len() implies (#[trigger] left.nodes[i]).0
            == right.nodes[i].0 && left.nodes[i].1.content() == right.nodes[i].1.content() by {
            assert(left.content().nodes[i] == right.content().nodes[i]);
        }
    }
    if left.data == right.data && left.nodes.len() == right.nodes.len() && (forall|i: int|
        0 <= i < left.nodes.len() ==> (#[trigger] left.nodes[i]).0 == right.nodes[i].0
            && left.nodes[i].1.content() == right.nodes[i].1.content()) {
        assert(left.content().nodes =~= right.content().nodes);
    }
}

impl View for BmlNode {
    type V = BmlTree;

    closed spec fn view(&self) -> BmlTree {
        tree_of(*self)
    }
}

impl BmlNode {
    /// The index holds each child's name with the child's position, in order, and
    /// has room for them; without a data line there is no value.
    #[verifier::type_invariant]
    spec fn well_formed(self) -> bool {
        &&& entries(self.index) =~= index_of(self.node@)
        &&& self.node.len() < usize::MAX
        &&& (!self.filled ==> self.value@.len() == 0)
    }

    /// A root without data and children, with the default indent.
    pub(crate) fn root() -> (node: Self)
        ensures
            node@ == (BmlTree {
                kind: BmlKind::Root { indent: default_indent() },
                data: Seq::empty(),
                nodes: Seq::empty(),
            }),
    {
        let node = BmlNode {
            kind: BmlKind::Root { indent: BmlIndent::default() },
            filled: false,
            value: String::new(),
            node: Vec::new(),
            index: new_index(),
        };
        assert(node@.nodes =~= Seq::empty());
        node
    }

    /// An element without data and children.
    pub(crate) fn elem() -> (node: Self)
        ensures
            node@ == (BmlTree { kind: BmlKind::Elem, data: Seq::empty(), nodes: Seq::empty() }),
    {
        let node = BmlNode {
            kind: BmlKind::Elem,
            filled: false,
            value: String::new(),
            node: Vec::new(),
            index: new_index(),
        };
        assert(node@.nodes =~= Seq::empty());
        node
    }

    /// An attribute without data, whose value is to be quoted.
    pub(crate) fn attr() -> (node: Self)
        ensures
            node@ == (BmlTree {
                kind: BmlKind::Attr { quote: true },
                data: Seq::empty(),
                nodes: Seq::empty(),
            }),
    {
        let node = BmlNode {
            kind: BmlKind::Attr { quote: true },
            filled: false,
            value: String::new(),
            node: Vec::new(),
            index: new_index(),
        };
        assert(node@.nodes =~= Seq::empty());
        node
    }

    /// The node with `node` under `name` appended as its last child.
    pub(crate) fn append(self, name: String, node: BmlNode) -> (parent: Self)
        requires
            self@.nodes.len() + 1 < usize::MAX,
        ensures
            parent@ == (BmlTree { nodes: self@.nodes.push((name@, node@)), ..self@ }),
    {
        proof {
            use_type_invariant(&self);
        }
        let ghost before = self@;
        let ghost child = node@;
        let BmlNode { kind, filled, value, node: mut children, mut index } = self;
        let at = children.len();
        append_index(&mut index, name.clone(), at);
        children.push((name, node));
        assert(entries(index) =~= index_of(children@));
        let parent = BmlNode { kind, filled, value, node: children, index };
        assert(parent@.nodes =~= before.nodes.push((name@, child)));
        parent
    }

    /// The node with `line` appended as its last data line.
    pub(crate) fn push_line(self, line: &str) -> (node: Self)
        ensures
            node@ == (BmlTree { data: self@.data + line@ + seq!['\n'], ..self@ }),
    {
        proof {
            use_type_invariant(&self);
        }
        let ghost before = self@;
        let BmlNode { kind, filled, mut value, node, index } = self;
        let ghost lines = value@;
        if filled {
            value.push('\n');
        }
        value.append(line);
        assert(value@.push('\n') =~= data_of(filled, lines) + line@ + seq!['\n']);
        let node = BmlNode { kind, filled: true, value, node, index };
        assert(node@.nodes =~= before.nodes);
        node
    }

    /// Sets whether the value of the attribute is rendered in quotes.
    pub(crate) fn set_quote(&mut self, quote: bool)
        requires
            old(self)@.kind is Attr,
        ensures
            final(self)@ == (BmlTree { kind: BmlKind::Attr { quote }, ..old(self)@ }),
    {
        proof {
            use_type_invariant(&*self);
        }
        self.kind = BmlKind::Attr { quote };
        assert(self@.nodes =~= old(self)@.nodes);
    }

    /// Whether the node is the root of a document.
    pub fn is_root(&self) -> (yes: bool)
        ensures
            yes == (self@.kind is Root),
    {
        match self.kind {
            BmlKind::Root { .. } => true,
            _ => false,
        }
    }

    /// Whether the node is an attribute.
    pub fn is_attr(&self) -> (yes: bool)
        ensures
            yes == (self@.kind is Attr),
    {
        match self.kind {
            BmlKind::Attr { .. } => true,
            _ => false,
        }
    }

    /// Whether the node has a data line.
    pub fn has_data(&self) -> (yes: bool)
        ensures
            yes == (self@.data.len() > 0),
    {
        self.filled
    }

    /// What the node is.
    pub fn kind(&self) -> (kind: BmlKind)
        ensures
            kind == self@.kind,
    {
        self.kind
    }

    /// The number of children.
    pub fn len(&self) -> (len: usize)
        ensures
            len == self@.nodes.len(),
    {
        self.node.len()
    }

    /// The child at position `at` with its name.
    pub fn child(&self, at: usize) -> (child: (&str, &BmlNode))
        requires
            at < self@.nodes.len(),
        ensures
            child.0@ == self@.nodes[at as int].0,
            child.1@ == self@.nodes[at as int].1,
    {
        (self.node[at].0.as_str(), &self.node[at].1)
    }

    /// Value comprising the data lines, with the line feed of the last line removed.
    ///
    /// The node must have a data line: a node without data has no value.
    pub fn value(&self) -> (value: &str)
        requires
            self@.data.len() > 0,
        ensures
            value@ == self@.data.drop_last(),
            self@.data == value@.push('\n'),
    {
        if !self.filled {
            unreached()
        }
        let value = self.value.as_str();
        assert(value@.push('\n').drop_last() =~= value@);
        value
    }

    /// The data lines, each without its line ending.
    pub fn lines(&self) -> (lines: Vec<String>)
        ensures
            texts(lines@) == self@.lines(),
    {
        proof {
            use_type_invariant(self);
        }
        let mut data = chars_of(self.value.as_str());
        if self.filled {
            data.push('\n');
        }
        assert(data@ =~= self@.data);
        split_lines(&data)
    }

    /// The child nodes with their names, in the order in which they were appended.
    pub fn nodes(&self) -> (nodes: Vec<(&str, &BmlNode)>)
        ensures
            nodes.len() == self@.nodes.len(),
            forall|i: int|
                0 <= i < nodes.len() ==> (#[trigger] nodes[i]).0@ == self@.nodes[i].0 && nodes[i].1@
                    == self@.nodes[i].1,
    {
        let mut nodes: Vec<(&str, &BmlNode)> = Vec::new();
        let mut at: usize = 0;
        while at < self.node.len()
            invariant
                at <= self.node.len(),
                nodes.len() == at,
                forall|i: int|
                    0 <= i < nodes.len() ==> (#[trigger] nodes[i]).0@ == self@.nodes[i].0
                        && nodes[i].1@ == self@.nodes[i].1,
            decreases self.node.len() - at,
        {
            nodes.push((self.node[at].0.as_str(), &self.node[at].1));
            at = at + 1;
        }
        nodes
    }

    /// The child nodes of the name `name`, in the order in which they were appended.
    ///
    /// The index finds the positions of the group in time that does not grow with the
    /// number of children of other names.
    pub fn named(&self, name: &str) -> (nodes: Vec<&BmlNode>)
        ensures
            nodes.len() == self@.named(name@).len(),
            forall|i: int| 0 <= i < nodes.len() ==> (#[trigger] nodes[i])@ == self@.named(name@)[i],
    {
        proof {
            use_type_invariant(self);
            lemma_positions(self.node@, self@.nodes, name@);
        }
        let positions = get_all_index(&self.index, name);
        let mut nodes: Vec<&BmlNode> = Vec::new();
        let mut at: usize = 0;
        while at < positions.len()
            invariant
                at <= positions.len(),
                nodes.len() == at,
                positions.len() == self@.named(name@).len(),
                forall|j: int|
                    0 <= j < positions.len() ==> 0 <= (#[trigger] positions[j]) < self.node.len()
                        && self.node[positions[j] as int].1@ == self@.named(name@)[j],
                forall|i: int|
                    0 <= i < nodes.len() ==> (#[trigger] nodes[i])@ == self@.named(name@)[i],
            decreases positions.len() - at,
        {
            nodes.push(&self.node[positions[at]].1);
            at = at + 1;
        }
        nodes
    }

    /// Whether the two nodes have the same data and the same children, by name and
    /// content, whatever their kinds.
    fn same(&self, other: &BmlNode) -> (same: bool)
        ensures
            same == (self@.content() == other@.content()),
        decreases self,
    {
        proof {
            lemma_same_content(self@, other@);
        }
        proof {
            use_type_invariant(self);
            use_type_invariant(other);
        }
        if self.filled != other.filled || self.value != other.value {
            assert(self@.data != other@.data) by {
                let left = self.value@;
                let right = other.value@;
                if self.filled && other.filled {
                    assert(left.push('\n').drop_last() =~= left);
                    assert(right.push('\n').drop_last() =~= right);
                } else if self.filled {
                    assert(left.push('\n').len() > 0);
                } else if other.filled {
                    assert(right.push('\n').len() > 0);
                } else {
                    assert(left =~= right);
                }
            }
            return false;
        }
        if self.node.len() != other.node.len() {
            return false;
        }
        let mut at: usize = 0;
        while at < self.node.len()
            invariant
                at <= self.node.len() == other.node.len(),
                forall|i: int|
                    0 <= i < at ==> (#[trigger] self@.nodes[i]).0 == other@.nodes[i].0
                        && self@.nodes[i].1.content() == other@.nodes[i].1.content(),
            decreases self.node.len() - at,
        {
            if self.node[at].0 != other.node[at].0 || !self.node[at].1.same(&other.node[at].1) {
                proof {
                    lemma_same_content(self@, other@);
                }
                assert(!(self@.nodes[at as int].0 == other@.nodes[at as int].0
                    && self@.nodes[at as int].1.content() == other@.nodes[at as int].1.content()));
                return false;
            }
            at = at + 1;
        }
        true
    }

    /// A node of the same value.
    fn copy(&self) -> (copy: BmlNode)
        ensures
            copy@ == self@,
        decreases self,
    {
        proof {
            use_type_invariant(self);
        }
        let mut copy = BmlNode {
            kind: self.kind,
            filled: self.filled,
            value: self.value.clone(),
            node: Vec::new(),
            index: new_index(),
        };
        assert(copy@.nodes =~= self@.nodes.subrange(0, 0));
        let mut at: usize = 0;
        while at < self.node.len()
            invariant
                at <= self.node.len() < usize::MAX,
                copy@ == (BmlTree { nodes: self@.nodes.subrange(0, at as int), ..self@ }),
            decreases self.node.len() - at,
        {
            let child = self.node[at].1.copy();
            copy = copy.append(self.node[at].0.clone(), child);
            at = at + 1;
            assert(self@.nodes.subrange(0, at as int) =~= self@.nodes.subrange(0, at - 1).push(
                self@.nodes[at - 1],
            ));
        }
        assert(self@.nodes.subrange(0, at as int) =~= self@.nodes);
        copy
    }

    /// Sets the indent of the rendering: `string` for each level, and `repeat` times
    /// `string` before the nodes of the root.
    ///
    /// The default is two spaces and no root indent. The usual alternative is a
    /// tabulator and no root indent.
    ///
    /// The node must be a root: no other node has an indent of its own.
    pub fn set_indent(&mut self, string: &'static str, repeat: usize)
        requires
            old(self)@.kind is Root,
        ensures
            final(self)@ == old(self)@.with_indent(BmlIndent { string, repeat }),
    {
        proof {
            use_type_invariant(&*self);
        }
        match self.kind {
            BmlKind::Root { .. } => {
                self.kind = BmlKind::Root { indent: BmlIndent { string, repeat } };
            },
            _ => unreached(),
        }
        assert(self@.nodes =~= old(self)@.nodes);
    }
}

impl PartialEq for BmlNode {
    /// Nodes are equal where their data and their children are; the kinds and the
    /// indent are not compared.
    fn eq(&self, other: &BmlNode) -> (equal: bool) {
        self.same(other)
    }
}

impl vstd::std_specs::cmp::PartialEqSpecImpl for BmlNode {
    open spec fn obeys_eq_spec() -> bool {
        true
    }

    open spec fn eq_spec(&self, other: &BmlNode) -> bool {
        self@.content() == other@.content()
    }
}

impl Eq for BmlNode {

}

impl Clone for BmlNode {
    fn clone(&self) -> (copy: Self)
        ensures
            copy@ == self@,
    {
        self.copy()
    }
}

impl Default for BmlNode {
    /// A root without data and children, with the default indent.
    fn default() -> (node: Self)
        ensures
            node@ == (BmlTree {
                kind: BmlKind::Root { indent: default_indent() },
                data: Seq::empty(),
                nodes: Seq::empty(),
            }),
    {
        BmlNode::root()
    }
}

} // verus!
