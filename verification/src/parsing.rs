//! Parsing gives canonical trees: the builder makes of the productions that the
//! grammar finds in a text a canonical tree.

use crate::builder::{
    attr_of, children_of, data_of, has_space_data, lemma_children_add, node_of, read,
};
use crate::canon::{
    is_attr_node, is_data_line, is_elem_data, is_elem_node, is_name, is_root_node,
    lemma_attrs_end_is,
};
use crate::grammar::{
    attr_at, attrs_from, block_end, colon_data, content_lines, extends, group, head_at, items,
    lemma_attr_end, lemma_block_end, lines_of_text, raw_lines, token, Line,
};
use crate::pair::{Production, Rule};
use crate::render::{attrs_end, fits};
use crate::text::{
    all_in_class, in_class, join_lines, lemma_lines_of_join, lemma_scan, scan, CharClass,
};
use vstd::prelude::*;

verus! {

/// Whether the production is a data line as the grammar finds it.
pub open spec fn is_data_part(part: Production) -> bool {
    &&& part.rule == Rule::Data
    &&& part.inner.len() == 1
    &&& part.inner[0].rule == Rule::ColonData
    &&& is_data_line(part.inner[0].text)
}

/// Whether the production is an attribute of which the builder makes a
/// canonical attribute.
pub open spec fn is_attr_part(part: Production) -> bool {
    part.rule == Rule::Attr && is_attr_node(attr_of(part).0, attr_of(part).1)
}

/// Whether the production is an element of which the builder makes a canonical
/// element.
pub open spec fn is_node_part(part: Production) -> bool {
    part.rule == Rule::Node && is_elem_node(node_of(part).0, node_of(part).1)
}

/// The texts of the data lines among the first `count` of `parts`.
pub open spec fn data_lines(parts: Seq<Production>, count: int) -> Seq<Seq<char>>
    decreases count,
{
    if count <= 0 {
        Seq::empty()
    } else if parts[count - 1].rule == Rule::Data {
        data_lines(parts, count - 1).push(parts[count - 1].inner[0].text)
    } else {
        data_lines(parts, count - 1)
    }
}

/// The data of productions whose data lines are as the grammar finds them is
/// canonical data.
pub proof fn lemma_data_lines(parts: Seq<Production>, count: int)
    requires
        0 <= count <= parts.len(),
        forall|i: int|
            0 <= i < count && (#[trigger] parts[i]).rule == Rule::Data ==> is_data_part(parts[i]),
    ensures
        data_of(parts, count) == join_lines(data_lines(parts, count)),
        forall|i: int|
            0 <= i < data_lines(parts, count).len() ==> is_data_line(
                #[trigger] data_lines(parts, count)[i],
            ),
        is_elem_data(data_of(parts, count)),
    decreases count,
{
    let lines = data_lines(parts, count);
    if count > 0 {
        lemma_data_lines(parts, count - 1);
        if parts[count - 1].rule == Rule::Data {
            assert(is_data_part(parts[count - 1]));
            assert(lines.drop_last() =~= data_lines(parts, count - 1));
        }
    }
    assert(data_of(parts, count) =~= join_lines(lines));
    lemma_lines_of_join(lines);
}

/// An attribute that the grammar finds in a line without line breaks is one of
/// which the builder makes a canonical attribute.
pub proof fn lemma_attr_part(line: Seq<char>, from: int)
    requires
        0 <= from <= line.len(),
        all_in_class(line, CharClass::Line),
    ensures
        attr_at(line, from) matches Ok((attr, end)) ==> is_attr_part(attr),
{
    let name_end = scan(line, from, CharClass::Name);
    let name = line.subrange(from, name_end);
    lemma_scan(line, from, CharClass::Name);
    if let Ok((attr, end)) = attr_at(line, from) {
        assert(is_name(name)) by {
            assert forall|i: int| 0 <= i < name.len() implies in_class(
                #[trigger] name[i],
                CharClass::Name,
            ) by {
                assert(name[i] == line[from + i]);
            }
        }
        let built = attr_of(attr).1;
        assert(data_of(attr.inner, 0) =~= Seq::<char>::empty());
        assert(data_of(attr.inner, 1) =~= Seq::<char>::empty());
        assert(!has_space_data(attr.inner, 0));
        assert(!has_space_data(attr.inner, 1));
        if attr.inner.len() == 2 {
            let value = attr.inner[1].inner[0].text;
            assert(built.data =~= value + seq!['\n']);
            assert(built.data.drop_last() =~= value);
            if name_end + 1 < line.len() && line[name_end + 1] == '"' {
                lemma_scan(line, name_end + 2, CharClass::Quoted);
                assert forall|i: int| 0 <= i < value.len() implies in_class(
                    #[trigger] value[i],
                    CharClass::Quoted,
                ) by {
                    assert(value[i] == line[name_end + 2 + i]);
                }
            } else {
                lemma_scan(line, name_end + 1, CharClass::Bare);
                assert forall|i: int| 0 <= i < value.len() implies in_class(
                    #[trigger] value[i],
                    CharClass::Bare,
                ) by {
                    assert(value[i] == line[name_end + 1 + i]);
                }
            }
        }
    }
}

/// The attributes that the grammar finds in a line without line breaks are such
/// of which the builder makes canonical attributes.
pub proof fn lemma_attr_parts(line: Seq<char>, from: int)
    requires
        all_in_class(line, CharClass::Line),
    ensures
        attrs_from(line, from) matches Ok(attrs) ==> forall|i: int|
            0 <= i < attrs.len() ==> is_attr_part(#[trigger] attrs[i]),
    decreases line.len() - from,
{
    let start = scan(line, from, CharClass::Space);
    if 0 <= from < line.len() && from < start < line.len() {
        lemma_scan(line, from, CharClass::Space);
        lemma_attr_end(line, start);
        lemma_attr_part(line, start);
        if let Ok((attr, end)) = attr_at(line, start) {
            lemma_attr_parts(line, end);
        }
    }
}

/// The data behind a colon in a line without line breaks is a data line as the
/// grammar finds it.
pub proof fn lemma_colon_part(line: Seq<char>, colon: int)
    requires
        0 <= colon < line.len(),
        all_in_class(line, CharClass::Line),
    ensures
        is_data_part(colon_data(line, colon)),
{
    let from = scan(line, colon + 1, CharClass::Space);
    let data = line.subrange(from, line.len() as int);
    lemma_scan(line, colon + 1, CharClass::Space);
    assert forall|i: int| 0 <= i < data.len() implies in_class(
        #[trigger] data[i],
        CharClass::Line,
    ) by {
        assert(data[i] == line[from + i]);
    }
    if data.len() > 0 {
        assert(data[0] == line[from]);
    }
}

/// The children of a name and attributes of which the builder makes canonical
/// attributes are canonical attributes.
pub proof fn lemma_attr_children(parts: Seq<Production>, count: int)
    requires
        0 <= count <= parts.len(),
        forall|i: int|
            0 <= i < count ==> (#[trigger] parts[i]).rule != Rule::Node && (parts[i].rule
                == Rule::Attr ==> is_attr_part(parts[i])),
    ensures
        forall|j: int|
            0 <= j < children_of(parts, count).len() ==> is_attr_node(
                (#[trigger] children_of(parts, count)[j]).0,
                children_of(parts, count)[j].1,
            ),
    decreases count,
{
    if count > 0 {
        lemma_attr_children(parts, count - 1);
        let fewer = children_of(parts, count - 1);
        let all = children_of(parts, count);
        assert(parts[count - 1].rule == Rule::Attr ==> is_attr_part(parts[count - 1]));
        assert forall|j: int| 0 <= j < all.len() implies is_attr_node(
            (#[trigger] all[j]).0,
            all[j].1,
        ) by {
            if j < fewer.len() {
                assert(all[j] == fewer[j]);
            }
        }
    }
}

/// The children of data lines and elements of which the builder makes canonical
/// elements are canonical elements.
pub proof fn lemma_elem_children(parts: Seq<Production>, count: int)
    requires
        0 <= count <= parts.len(),
        forall|i: int|
            0 <= i < count ==> (#[trigger] parts[i]).rule != Rule::Attr && (parts[i].rule
                == Rule::Node ==> is_node_part(parts[i])),
    ensures
        forall|j: int|
            0 <= j < children_of(parts, count).len() ==> is_elem_node(
                (#[trigger] children_of(parts, count)[j]).0,
                children_of(parts, count)[j].1,
            ),
    decreases count,
{
    if count > 0 {
        lemma_elem_children(parts, count - 1);
        let fewer = children_of(parts, count - 1);
        let all = children_of(parts, count);
        assert(parts[count - 1].rule == Rule::Node ==> is_node_part(parts[count - 1]));
        assert forall|j: int| 0 <= j < all.len() implies is_elem_node(
            (#[trigger] all[j]).0,
            all[j].1,
        ) by {
            if j < fewer.len() {
                assert(all[j] == fewer[j]);
            }
        }
    }
}

/// Whether the productions are a head as the grammar finds it: a name, and
/// behind it data lines and attributes as it finds them.
pub open spec fn is_head(head: Seq<Production>) -> bool {
    &&& head.len() >= 1
    &&& head[0].rule == Rule::Name
    &&& is_name(head[0].text)
    &&& forall|i: int|
        1 <= i < head.len() ==> is_data_part(#[trigger] head[i]) || is_attr_part(head[i])
}

/// Whether the productions are a block as the grammar finds it: data lines and
/// elements as it finds them.
pub open spec fn is_block(block: Seq<Production>, data_ok: bool) -> bool {
    forall|i: int|
        0 <= i < block.len() ==> is_node_part(#[trigger] block[i]) || (data_ok && is_data_part(
            block[i],
        ))
}

/// The head that the grammar finds in a line without line breaks is a head as
/// the grammar finds it.
pub proof fn lemma_head_parts(line: Seq<char>, start: int)
    requires
        0 <= start <= line.len(),
        all_in_class(line, CharClass::Line),
    ensures
        head_at(line, start) matches Ok((head, inline)) ==> is_head(head),
{
    let name_end = scan(line, start, CharClass::Name);
    let name = line.subrange(start, name_end);
    lemma_scan(line, start, CharClass::Name);
    if let Ok((head, inline)) = head_at(line, start) {
        assert(is_name(name)) by {
            assert forall|i: int| 0 <= i < name.len() implies in_class(
                #[trigger] name[i],
                CharClass::Name,
            ) by {
                assert(name[i] == line[start + i]);
            }
        }
        if inline {
            lemma_colon_part(line, name_end);
        } else {
            lemma_attr_parts(line, name_end);
            let attrs = attrs_from(line, name_end)->Ok_0;
            assert forall|i: int| 1 <= i < head.len() implies is_data_part(#[trigger] head[i])
                || is_attr_part(head[i]) by {
                assert(head[i] == attrs[i - 1]);
            }
        }
    }
}

/// The builder makes of a head and a block as the grammar finds them a
/// canonical element.
pub proof fn lemma_node_part(head: Seq<Production>, block: Seq<Production>)
    requires
        is_head(head),
        is_block(block, true),
    ensures
        is_node_part(group(Rule::Node, head + block)),
{
    let part = group(Rule::Node, head + block);
    let all = head + block;
    let count = all.len() as int;
    let tree = node_of(part).1;
    let marks = children_of(head, head.len() as int);
    let below = children_of(block, block.len() as int);
    assert(part.inner == all);
    assert(all[0] == head[0]);
    assert forall|i: int|
        0 <= i < count && (#[trigger] all[i]).rule == Rule::Data implies is_data_part(all[i]) by {
        if i < head.len() {
            assert(all[i] == head[i]);
        } else {
            assert(all[i] == block[i - head.len()]);
        }
    }
    lemma_data_lines(all, count);
    lemma_children_add(head, block);
    assert forall|i: int| 0 <= i < head.len() implies (#[trigger] head[i]).rule != Rule::Node && (
    head[i].rule == Rule::Attr ==> is_attr_part(head[i])) by {
        if i > 0 {
            assert(is_data_part(head[i]) || is_attr_part(head[i]));
        }
    }
    lemma_attr_children(head, head.len() as int);
    assert forall|i: int| 0 <= i < block.len() implies (#[trigger] block[i]).rule != Rule::Attr && (
    block[i].rule == Rule::Node ==> is_node_part(block[i])) by {
        assert(is_node_part(block[i]) || is_data_part(block[i]));
    }
    lemma_elem_children(block, block.len() as int);
    assert(tree.nodes == marks + below);
    assert(attrs_end(tree.nodes, 0) == marks.len()) by {
        assert forall|i: int| 0 <= i < marks.len() implies (
        #[trigger] tree.nodes[i]).1.kind is Attr by {
            assert(tree.nodes[i] == marks[i]);
            assert(is_attr_node(marks[i].0, marks[i].1));
        }
        if marks.len() < tree.nodes.len() {
            assert(tree.nodes[marks.len() as int] == below[0]);
            assert(is_elem_node(below[0].0, below[0].1));
        }
        lemma_attrs_end_is(tree.nodes, 0, marks.len() as int);
    }
    assert forall|i: int| 0 <= i < tree.nodes.len() implies {
        let child = #[trigger] tree.nodes[i];
        if i < attrs_end(tree.nodes, 0) {
            is_attr_node(child.0, child.1)
        } else {
            is_elem_node(child.0, child.1)
        }
    } by {
        if i < marks.len() {
            assert(tree.nodes[i] == marks[i]);
        } else {
            assert(tree.nodes[i] == below[i - marks.len()]);
        }
    }
}

/// Whether every line holds no line break and says something.
pub open spec fn all_sound(lines: Seq<Line>) -> bool {
    forall|i: int|
        0 <= i < lines.len() ==> all_in_class((#[trigger] lines[i]).text, CharClass::Line)
            && crate::grammar::is_content(lines[i].text)
}

/// The items that the grammar finds in a block of lines are data lines and
/// elements as it finds them.
pub proof fn lemma_items_parts(lines: Seq<Line>, indent: Seq<char>, data_ok: bool)
    requires
        all_sound(lines),
    ensures
        items(lines, indent, data_ok) matches Ok(parts) ==> is_block(parts, data_ok),
    decreases lines.len(),
{
    if lines.len() > 0 && lines[0].indent() == indent {
        let line = lines[0].text;
        let start = lines[0].start();
        let count = lines.len() as int;
        lemma_scan(line, 0, CharClass::Space);
        assert(all_in_class(line, CharClass::Line) && crate::grammar::is_content(line));
        if line[start] == ':' {
            let rest = lines.subrange(1, count);
            assert(all_sound(rest));
            lemma_items_parts(rest, indent, data_ok);
            lemma_colon_part(line, start);
            if let (true, Ok(found)) = (data_ok, items(rest, indent, data_ok)) {
                let parts = seq![colon_data(line, start)] + found;
                assert forall|i: int| 0 <= i < parts.len() implies is_node_part(
                    #[trigger] parts[i],
                ) || (data_ok && is_data_part(parts[i])) by {
                    if i > 0 {
                        assert(parts[i] == found[i - 1]);
                    }
                }
            }
        } else if let Ok((head, inline)) = head_at(line, start) {
            let end = block_end(lines, 1, indent);
            lemma_block_end(lines, 1, indent);
            let inside = lines.subrange(1, end);
            let rest = lines.subrange(end, count);
            assert(all_sound(inside));
            assert(all_sound(rest));
            lemma_head_parts(line, start);
            lemma_items_parts(inside, lines[1].indent(), !inline);
            lemma_items_parts(rest, indent, data_ok);
            if let Ok(block) = items(inside, lines[1].indent(), !inline) {
                lemma_node_part(head, block);
                if let Ok(found) = items(rest, indent, data_ok) {
                    let parts = seq![group(Rule::Node, head + block)] + found;
                    assert forall|i: int| 0 <= i < parts.len() implies is_node_part(
                        #[trigger] parts[i],
                    ) || (data_ok && is_data_part(parts[i])) by {
                        if i > 0 {
                            assert(parts[i] == found[i - 1]);
                        }
                    }
                }
            }
        }
    }
}

/// The lines of a text hold no line breaks.
pub proof fn lemma_raw_lines(text: Seq<char>, from: int)
    requires
        0 <= from,
    ensures
        forall|i: int|
            0 <= i < raw_lines(text, from).len() ==> all_in_class(
                #[trigger] raw_lines(text, from)[i],
                CharClass::Line,
            ),
    decreases text.len() - from,
{
    if from < text.len() {
        let end = scan(text, from, CharClass::Line);
        let first = text.subrange(from, end);
        lemma_scan(text, from, CharClass::Line);
        assert forall|i: int| 0 <= i < first.len() implies in_class(
            #[trigger] first[i],
            CharClass::Line,
        ) by {
            assert(first[i] == text[from + i]);
        }
        if end < text.len() {
            let next = end + crate::grammar::break_len(text, end);
            let rest = raw_lines(text, next);
            lemma_raw_lines(text, next);
            assert forall|i: int| 0 <= i < raw_lines(text, from).len() implies all_in_class(
                #[trigger] raw_lines(text, from)[i],
                CharClass::Line,
            ) by {
                if i > 0 {
                    assert(raw_lines(text, from)[i] == rest[i - 1]);
                }
            }
        }
    }
}

/// The lines that say something among lines without line breaks are sound.
pub proof fn lemma_content_sound(raws: Seq<Seq<char>>, count: int)
    requires
        0 <= count <= raws.len(),
        forall|i: int| 0 <= i < raws.len() ==> all_in_class(#[trigger] raws[i], CharClass::Line),
    ensures
        all_sound(content_lines(raws, count)),
    decreases count,
{
    if count > 0 {
        lemma_content_sound(raws, count - 1);
    }
}

/// Whether no line is longer than `limit`.
pub open spec fn all_within(lines: Seq<Line>, limit: int) -> bool {
    forall|i: int| 0 <= i < lines.len() ==> (#[trigger] lines[i]).text.len() <= limit
}

/// The children of productions fit where the attributes and elements do of
/// which the builder makes them.
pub proof fn lemma_children_fit(parts: Seq<Production>, count: int, level: nat)
    requires
        0 <= count <= parts.len(),
        forall|i: int|
            0 <= i < count && (#[trigger] parts[i]).rule == Rule::Node ==> fits(
                node_of(parts[i]).1,
                level,
            ),
    ensures
        forall|j: int|
            0 <= j < children_of(parts, count).len() ==> fits(
                (#[trigger] children_of(parts, count)[j]).1,
                level,
            ),
    decreases count,
{
    if count > 0 {
        lemma_children_fit(parts, count - 1, level);
        let fewer = children_of(parts, count - 1);
        let all = children_of(parts, count);
        assert forall|j: int| 0 <= j < all.len() implies fits((#[trigger] all[j]).1, level) by {
            if j < fewer.len() {
                assert(all[j] == fewer[j]);
            }
        }
    }
}

/// The levels of the elements that the grammar finds in a block of lines can be
/// counted up to the length of a line: each level of nesting takes a character
/// of indent.
pub proof fn lemma_items_fit(
    lines: Seq<Line>,
    indent: Seq<char>,
    data_ok: bool,
    level: nat,
    limit: int,
)
    requires
        all_sound(lines),
        all_within(lines, limit),
        level <= indent.len(),
        limit <= usize::MAX,
    ensures
        items(lines, indent, data_ok) matches Ok(parts) ==> forall|i: int|
            0 <= i < parts.len() && (#[trigger] parts[i]).rule == Rule::Node ==> fits(
                node_of(parts[i]).1,
                level,
            ),
    decreases lines.len(),
{
    if lines.len() > 0 && lines[0].indent() == indent {
        let line = lines[0].text;
        let start = lines[0].start();
        let count = lines.len() as int;
        lemma_scan(line, 0, CharClass::Space);
        assert(crate::grammar::is_content(line));
        assert(line.len() <= limit);
        if line[start] == ':' {
            let rest = lines.subrange(1, count);
            assert(all_sound(rest));
            assert(all_within(rest, limit));
            lemma_items_fit(rest, indent, data_ok, level, limit);
            if let (true, Ok(found)) = (data_ok, items(rest, indent, data_ok)) {
                let parts = seq![colon_data(line, start)] + found;
                assert forall|i: int|
                    0 <= i < parts.len() && (#[trigger] parts[i]).rule == Rule::Node implies fits(
                    node_of(parts[i]).1,
                    level,
                ) by {
                    if i > 0 {
                        assert(parts[i] == found[i - 1]);
                    }
                }
            }
        } else if let Ok((head, inline)) = head_at(line, start) {
            let end = block_end(lines, 1, indent);
            lemma_block_end(lines, 1, indent);
            let inside = lines.subrange(1, end);
            let rest = lines.subrange(end, count);
            assert(all_sound(inside));
            assert(all_sound(rest));
            assert(all_within(inside, limit));
            assert(all_within(rest, limit));
            lemma_head_parts(line, start);
            lemma_items_fit(rest, indent, data_ok, level, limit);
            if let Ok(block) = items(inside, lines[1].indent(), !inline) {
                let node = group(Rule::Node, head + block);
                let tree = node_of(node).1;
                if end > 1 {
                    assert(extends(indent, lines[1].indent()));
                    lemma_items_fit(inside, lines[1].indent(), !inline, level + 1, limit);
                }
                assert(fits(tree, level)) by {
                    assert forall|i: int|
                        0 <= i < head.len() && (#[trigger] head[i]).rule == Rule::Node implies fits(
                        node_of(head[i]).1,
                        level + 1,
                    ) by {
                        if i > 0 {
                            assert(is_data_part(head[i]) || is_attr_part(head[i]));
                        }
                    }
                    lemma_children_fit(head, head.len() as int, level + 1);
                    lemma_children_fit(block, block.len() as int, level + 1);
                    lemma_children_add(head, block);
                    let marks = children_of(head, head.len() as int);
                    let below = children_of(block, block.len() as int);
                    assert(tree.nodes == marks + below);
                    assert forall|i: int| 0 <= i < tree.nodes.len() implies fits(
                        (#[trigger] tree.nodes[i]).1,
                        level + 1,
                    ) by {
                        if i < marks.len() {
                            assert(tree.nodes[i] == marks[i]);
                        } else {
                            assert(tree.nodes[i] == below[i - marks.len()]);
                        }
                    }
                }
                if let Ok(found) = items(rest, indent, data_ok) {
                    let parts = seq![node] + found;
                    assert forall|i: int|
                        0 <= i < parts.len() && (#[trigger] parts[i]).rule
                            == Rule::Node implies fits(node_of(parts[i]).1, level) by {
                        if i > 0 {
                            assert(parts[i] == found[i - 1]);
                        }
                    }
                }
            }
        }
    }
}

/// No line of a text is longer than the text.
pub proof fn lemma_raw_lines_within(text: Seq<char>, from: int)
    requires
        0 <= from,
    ensures
        forall|i: int|
            0 <= i < raw_lines(text, from).len() ==> (#[trigger] raw_lines(text, from)[i]).len()
                <= text.len(),
    decreases text.len() - from,
{
    if from < text.len() {
        let end = scan(text, from, CharClass::Line);
        lemma_scan(text, from, CharClass::Line);
        if end < text.len() {
            let next = end + crate::grammar::break_len(text, end);
            let rest = raw_lines(text, next);
            lemma_raw_lines_within(text, next);
            assert forall|i: int| 0 <= i < raw_lines(text, from).len() implies (
            #[trigger] raw_lines(text, from)[i]).len() <= text.len() by {
                if i > 0 {
                    assert(raw_lines(text, from)[i] == rest[i - 1]);
                }
            }
        }
    }
}

/// The lines that say something among lines of a length are of that length.
pub proof fn lemma_content_within(raws: Seq<Seq<char>>, count: int, limit: int)
    requires
        0 <= count <= raws.len(),
        forall|i: int| 0 <= i < raws.len() ==> (#[trigger] raws[i]).len() <= limit,
    ensures
        all_within(content_lines(raws, count), limit),
    decreases count,
{
    if count > 0 {
        lemma_content_within(raws, count - 1, limit);
    }
}

/// The levels of the elements of the tree of a text can be counted, where the
/// characters of the text can.
pub proof fn lemma_read_fits(text: Seq<char>)
    requires
        text.len() <= usize::MAX,
    ensures
        read(text) matches Ok(tree) ==> fits(tree, 0),
{
    let raws = raw_lines(text, 0);
    let lines = lines_of_text(text);
    lemma_raw_lines(text, 0);
    lemma_raw_lines_within(text, 0);
    lemma_content_sound(raws, raws.len() as int);
    lemma_content_within(raws, raws.len() as int, text.len() as int);
    lemma_items_fit(lines, Seq::empty(), false, 0, text.len() as int);
    if let Ok(found) = items(lines, Seq::empty(), false) {
        let parts = found.push(token(Rule::Eoi, Seq::empty()));
        let count = found.len() as int;
        assert forall|i: int|
            0 <= i < count + 1 && (#[trigger] parts[i]).rule == Rule::Node implies fits(
            node_of(parts[i]).1,
            0,
        ) by {
            if i < count {
                assert(parts[i] == found[i]);
            }
        }
        lemma_children_fit(parts, count + 1, 0);
    }
}

/// The tree of a text is a canonical document.
pub proof fn lemma_read_canonical(text: Seq<char>)
    ensures
        read(text) matches Ok(tree) ==> is_root_node(tree),
{
    let raws = raw_lines(text, 0);
    let lines = lines_of_text(text);
    lemma_raw_lines(text, 0);
    lemma_content_sound(raws, raws.len() as int);
    lemma_items_parts(lines, Seq::empty(), false);
    if let Ok(found) = items(lines, Seq::empty(), false) {
        let parts = found.push(token(Rule::Eoi, Seq::empty()));
        let count = found.len() as int;
        assert forall|i: int| 0 <= i < count + 1 implies (#[trigger] parts[i]).rule
            != Rule::Attr && (parts[i].rule == Rule::Node ==> is_node_part(parts[i])) by {
            if i < count {
                assert(parts[i] == found[i]);
                assert(is_node_part(found[i]));
            }
        }
        lemma_elem_children(parts, count + 1);
    }
}

} // verus!
