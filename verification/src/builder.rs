//! The tree builder: from the productions of a document to its tree.

use crate::canon::is_root_node;
use crate::error::{BmlError, Fault};
use crate::grammar::parse;
use crate::indent::default_indent;
use crate::node::{BmlKind, BmlNode, BmlTree};
use crate::pair::{is_document, productions, BmlPair, Production, Rule};
use crate::parser::BmlParser;
use crate::parsing::{lemma_read_canonical, lemma_read_fits};
use crate::render::fits;
use vstd::pervasive::unreached;
use vstd::prelude::*;

verus! {

/// The data that the first `count` of `parts` give: the text of each data line
/// or value with a line feed behind it.
pub open spec fn data_of(parts: Seq<Production>, count: int) -> Seq<char>
    decreases count,
{
    if count <= 0 {
        Seq::empty()
    } else if parts[count - 1].rule == Rule::Data {
        data_of(parts, count - 1) + parts[count - 1].inner[0].text + seq!['\n']
    } else {
        data_of(parts, count - 1)
    }
}

/// Whether one of the first `count` of `parts` is a value without quotes.
pub open spec fn has_space_data(parts: Seq<Production>, count: int) -> bool
    decreases count,
{
    if count <= 0 {
        false
    } else {
        has_space_data(parts, count - 1) || (parts[count - 1].rule == Rule::Data && parts[count
            - 1].inner[0].rule == Rule::SpaceData)
    }
}

/// The name and the tree of the attribute `part`: its values are its data, and it
/// is quoted unless one of them was written without quotes.
pub open spec fn attr_of(part: Production) -> (Seq<char>, BmlTree) {
    (
        part.inner[0].text,
        BmlTree {
            kind: BmlKind::Attr { quote: !has_space_data(part.inner, part.inner.len() as int) },
            data: data_of(part.inner, part.inner.len() as int),
            nodes: Seq::empty(),
        },
    )
}

/// The name and the tree of the element `part`: its data lines in order, and as
/// children its attributes and elements in the order in which they stand.
pub open spec fn node_of(part: Production) -> (Seq<char>, BmlTree)
    decreases part, 0nat,
{
    (
        part.inner[0].text,
        BmlTree {
            kind: BmlKind::Elem,
            data: data_of(part.inner, part.inner.len() as int),
            nodes: children_of(part.inner, part.inner.len() as int),
        },
    )
}

/// The children that the first `count` of `parts` give, in order.
pub open spec fn children_of(parts: Seq<Production>, count: int) -> Seq<(Seq<char>, BmlTree)>
    decreases parts, count,
{
    if 0 < count <= parts.len() {
        let rest = children_of(parts, count - 1);
        match parts[count - 1].rule {
            Rule::Attr => rest.push(attr_of(parts[count - 1])),
            Rule::Node => rest.push(node_of(parts[count - 1])),
            _ => rest,
        }
    } else {
        Seq::empty()
    }
}

/// The tree of the document with the productions `parts`: a root with the default
/// indent, whose children are the elements.
pub open spec fn root_of(parts: Seq<Production>) -> BmlTree {
    BmlTree {
        kind: BmlKind::Root { indent: default_indent() },
        data: Seq::empty(),
        nodes: children_of(parts, parts.len() as int),
    }
}

/// The tree of the text `text`, or the first place at which it is not BML.
pub open spec fn read(text: Seq<char>) -> Result<BmlTree, Fault> {
    match parse(text) {
        Ok(parts) => Ok(root_of(parts)),
        Err(fault) => Err(fault),
    }
}

/// The data of the first `count` productions is the same where those productions are.
pub proof fn lemma_data_same(first: Seq<Production>, second: Seq<Production>, count: int)
    requires
        count <= first.len(),
        count <= second.len(),
        forall|i: int| 0 <= i < count ==> first[i] == second[i],
    ensures
        data_of(first, count) == data_of(second, count),
    decreases count,
{
    if count > 0 {
        lemma_data_same(first, second, count - 1);
    }
}

/// The data of productions behind productions is the data of the first and
/// behind it that of the others.
pub proof fn lemma_data_add(first: Seq<Production>, second: Seq<Production>)
    ensures
        data_of(first + second, (first + second).len() as int) == data_of(
            first,
            first.len() as int,
        ) + data_of(second, second.len() as int),
    decreases second.len(),
{
    let all = first + second;
    let count = all.len() as int;
    if second.len() == 0 {
        assert(all =~= first);
        assert(data_of(first, first.len() as int) + data_of(second, 0) =~= data_of(
            first,
            first.len() as int,
        ));
    } else {
        let fewer = second.drop_last();
        lemma_data_add(first, fewer);
        lemma_data_same(all, first + fewer, count - 1);
        lemma_data_same(second, fewer, second.len() - 1);
        assert(all[count - 1] == second.last());
        assert(data_of(all, count) =~= data_of(first, first.len() as int) + data_of(
            second,
            second.len() as int,
        ));
    }
}

/// The children of the first `count` productions are the same where those
/// productions are.
pub proof fn lemma_children_same(first: Seq<Production>, second: Seq<Production>, count: int)
    requires
        count <= first.len(),
        count <= second.len(),
        forall|i: int| 0 <= i < count ==> first[i] == second[i],
    ensures
        children_of(first, count) == children_of(second, count),
    decreases count,
{
    if count > 0 {
        lemma_children_same(first, second, count - 1);
    }
}

/// The children of productions behind productions are those of the first and
/// behind them those of the others.
pub proof fn lemma_children_add(first: Seq<Production>, second: Seq<Production>)
    ensures
        children_of(first + second, (first + second).len() as int) == children_of(
            first,
            first.len() as int,
        ) + children_of(second, second.len() as int),
    decreases second.len(),
{
    let all = first + second;
    let count = all.len() as int;
    if second.len() == 0 {
        assert(all =~= first);
        assert(children_of(first, first.len() as int) + children_of(second, 0) =~= children_of(
            first,
            first.len() as int,
        ));
    } else {
        let fewer = second.drop_last();
        lemma_children_add(first, fewer);
        lemma_children_same(all, first + fewer, count - 1);
        lemma_children_same(second, fewer, second.len() - 1);
        assert(all[count - 1] == second.last());
        assert(children_of(all, count) =~= children_of(first, first.len() as int) + children_of(
            second,
            second.len() as int,
        ));
    }
}

/// No more children than productions.
pub proof fn lemma_children_len(parts: Seq<Production>, count: int)
    requires
        count <= parts.len(),
    ensures
        children_of(parts, count).len() <= if count < 0 { 0 } else { count },
        count >= 1 && parts[0].rule == Rule::Name ==> children_of(parts, count).len() < count,
    decreases count,
{
    if count > 0 {
        lemma_children_len(parts, count - 1);
    }
}

/// The name and the node of the attribute `pair`, which must be an attribute: a
/// name, then values.
pub fn build_attr(pair: &BmlPair) -> (attr: (String, BmlNode))
    requires
        pair@.is_attr(),
    ensures
        (attr.0@, attr.1@) == attr_of(pair@),
{
    let parts = pair.inner();
    let name = parts[0].text.clone();
    let mut attr = BmlNode::attr();
    let mut quote = true;
    let mut at: usize = 1;
    assert(parts[0]@ == pair@.inner[0]);
    assert(data_of(pair@.inner, 0) =~= Seq::empty() && !has_space_data(pair@.inner, 0));
    assert(data_of(pair@.inner, 1) =~= Seq::empty() && !has_space_data(pair@.inner, 1));
    while at < parts.len()
        invariant
            1 <= at <= parts.len(),
            productions(parts@) == pair@.inner,
            pair@.is_attr(),
            attr@.kind == (BmlKind::Attr { quote: true }),
            attr@.data == data_of(pair@.inner, at as int),
            attr@.nodes == Seq::<(Seq<char>, BmlTree)>::empty(),
            quote == !has_space_data(pair@.inner, at as int),
        decreases parts.len() - at,
    {
        let part = &parts[at];
        assert(part@ == pair@.inner[at as int]);
        if !part.is_data() {
            unreached()
        }
        let token = &part.inner()[0];
        assert(token@ == part@.inner[0]);
        if token.as_rule() == Rule::SpaceData {
            quote = false;
        }
        attr = attr.push_line(token.as_str());
        at = at + 1;
    }
    attr.set_quote(quote);
    (name, attr)
}

/// The name and the node of the element `pair`, which must be an element: a
/// name, then data lines, attributes and elements.
pub fn build_node(pair: &BmlPair) -> (node: (String, BmlNode))
    requires
        pair@.is_node(),
    ensures
        (node.0@, node.1@) == node_of(pair@),
    decreases pair@,
{
    let parts = pair.inner();
    let name = parts[0].text.clone();
    let mut node = BmlNode::elem();
    let mut at: usize = 1;
    assert(parts[0]@ == pair@.inner[0]);
    assert(data_of(pair@.inner, 0) =~= Seq::empty());
    assert(data_of(pair@.inner, 1) =~= Seq::empty());
    assert(children_of(pair@.inner, 0) =~= Seq::empty());
    assert(children_of(pair@.inner, 1) =~= Seq::empty());
    while at < parts.len()
        invariant
            1 <= at <= parts.len(),
            productions(parts@) == pair@.inner,
            pair@.is_node(),
            node@.kind == BmlKind::Elem,
            node@.data == data_of(pair@.inner, at as int),
            node@.nodes == children_of(pair@.inner, at as int),
        decreases parts.len() - at,
    {
        let part = &parts[at];
        assert(part@ == pair@.inner[at as int]);
        let ghost shaped = pair@.inner[at as int];
        assert(shaped.is_data() || shaped.is_attr() || shaped.is_node());
        proof {
            lemma_children_len(pair@.inner, at as int);
        }
        match part.as_rule() {
            Rule::Data => {
                let token = &part.inner()[0];
                assert(token@ == part@.inner[0]);
                node = node.push_line(token.as_str());
            },
            Rule::Attr => {
                let (name, attr) = build_attr(part);
                node = node.append(name, attr);
            },
            Rule::Node => {
                let (name, child) = build_node(part);
                node = node.append(name, child);
            },
            _ => unreached(),
        }
        at = at + 1;
    }
    (name, node)
}

impl BmlNode {
    /// The tree of the document with the productions `pairs`, which must be those
    /// of a document: elements, then the end of the input.
    pub fn from_pairs(pairs: &Vec<BmlPair>) -> (root: BmlNode)
        requires
            is_document(productions(pairs@)),
        ensures
            root@ == root_of(productions(pairs@)),
    {
        let ghost parts = productions(pairs@);
        assert(pairs.len() > 0 && pairs[pairs.len() - 1]@ == parts.last());
        if pairs.len() == 0 || !pairs[pairs.len() - 1].is_token(Rule::Eoi) {
            unreached()
        }
        let mut root = BmlNode::root();
        let mut at: usize = 0;
        while at + 1 < pairs.len()
            invariant
                at + 1 <= pairs.len(),
                parts == productions(pairs@),
                is_document(parts),
                root@ == (BmlTree { nodes: children_of(parts, at as int), ..root_of(parts) }),
            decreases pairs.len() - at,
        {
            let pair = &pairs[at];
            assert(pair@ == parts[at as int]);
            assert(parts[at as int].is_node());
            proof {
                lemma_children_len(parts, at as int);
            }
            match pair.as_rule() {
                Rule::Node => {
                    let (name, child) = build_node(pair);
                    root = root.append(name, child);
                },
                _ => unreached(),
            }
            at = at + 1;
        }
        assert(children_of(parts, parts.len() as int) == children_of(parts, parts.len() - 1));
        root
    }

    /// The tree of the document with the productions `pairs`, if they are those
    /// of a document.
    pub fn try_from_pairs(pairs: &Vec<BmlPair>) -> (root: Option<BmlNode>)
        ensures
            match root {
                Some(root) => is_document(productions(pairs@)) && root@ == root_of(
                    productions(pairs@),
                ),
                None => !is_document(productions(pairs@)),
            },
    {
        if BmlPair::are_document(pairs) {
            Some(BmlNode::from_pairs(pairs))
        } else {
            None
        }
    }
}

impl vstd::std_specs::convert::TryFromSpecImpl<&str> for BmlNode {
    /// A node is known by its value alone, so no node is named as the result.
    open spec fn obeys_try_from_spec() -> bool {
        false
    }

    open spec fn try_from_spec(bml: &str) -> Result<BmlNode, BmlError> {
        arbitrary()
    }
}

impl TryFrom<&str> for BmlNode {
    type Error = BmlError;

    /// The tree of the text `bml`, a canonical document that can be rendered, or
    /// the first place at which the text is not BML.
    fn try_from(bml: &str) -> (tree: Result<BmlNode, BmlError>)
        ensures
            match read(bml@) {
                Ok(root) => tree is Ok && tree->Ok_0@ == root,
                Err(fault) => tree is Err && tree->Err_0@ == fault,
            },
            tree matches Ok(root) ==> is_root_node(root@) && fits(root@, 0),
    {
        let found = BmlParser::parse(bml);
        proof {
            lemma_read_fits(bml@);
            lemma_read_canonical(bml@);
        }
        match found {
            Ok(pairs) => Ok(BmlNode::from_pairs(&pairs)),
            Err(error) => Err(error),
        }
    }
}

} // verus!
