//! Reading canonical lines: the grammar finds in the lines of a canonical tree
//! the productions of that tree.

use crate::canon::{
    attr_part, attr_parts, attr_text, attrs_text, data_block, data_block_parts, elem_lines,
    head_line, head_parts, is_attr_node, is_data_line, is_elem_node, is_inline, is_name, is_unit,
    lemma_attrs_end, lemma_render_root, lemma_run_lines_last, node_part, node_parts, root_lines,
    run_lines,
};
use crate::error::Fault;
use crate::grammar::{
    attr_at, attrs_from, block_end, colon_data, content_lines, datum, extends, group, head_at,
    indent_of, is_content, items, lemma_block_end_is, lemma_content_same, lines_of_text, parse,
    raw_lines, token, Line,
};
use crate::indent::repeated;
use crate::node::BmlTree;
use crate::pair::{Production, Rule};
use crate::render::{attrs_end, render_separated};
use crate::text::{
    all_in_class, in_class, is_name_char, is_space, join_lines, lemma_join_first, lemma_scan_is,
    lemma_scan_run, lines_of, scan, CharClass,
};
use vstd::prelude::*;

verus! {

/// Whether no line of `lines` holds a line break.
pub open spec fn unbroken(lines: Seq<Seq<char>>) -> bool {
    forall|i: int| 0 <= i < lines.len() ==> all_in_class(#[trigger] lines[i], CharClass::Line)
}

/// The texts of `lines`.
pub open spec fn texts_of(lines: Seq<Line>) -> Seq<Seq<char>> {
    Seq::new(lines.len(), |i: int| lines[i].text)
}

/// Whether every line of `lines` says something.
pub open spec fn all_content(lines: Seq<Seq<char>>) -> bool {
    forall|i: int| 0 <= i < lines.len() ==> is_content(#[trigger] lines[i])
}

/// The lines of the text of lines without line breaks are those lines.
pub proof fn lemma_raw_lines_join(before: Seq<char>, lines: Seq<Seq<char>>)
    requires
        unbroken(lines),
    ensures
        raw_lines(before + join_lines(lines), before.len() as int) == lines,
    decreases lines.len(),
{
    let text = before + join_lines(lines);
    let from = before.len() as int;
    if lines.len() == 0 {
        assert(raw_lines(text, from) =~= lines);
    } else {
        let first = lines[0];
        let rest = lines.drop_first();
        let tail = seq!['\n'] + join_lines(rest);
        lemma_join_first(lines);
        assert(text =~= before + first + tail);
        assert(all_in_class(first, CharClass::Line));
        assert(tail[0] == '\n');
        lemma_scan_run(before, first, tail, CharClass::Line);
        let end = from + first.len();
        assert(text[end] == '\n');
        assert(text.subrange(from, end) =~= first);
        let next = before + first + seq!['\n'];
        assert(text =~= next + join_lines(rest));
        assert(unbroken(rest)) by {
            assert forall|i: int| 0 <= i < rest.len() implies all_in_class(
                #[trigger] rest[i],
                CharClass::Line,
            ) by {
                assert(rest[i] == lines[i + 1]);
            }
        }
        lemma_raw_lines_join(next, rest);
        assert(raw_lines(text, from) =~= seq![first] + rest);
        assert(seq![first] + rest =~= lines);
    }
}

/// Of lines behind lines, those that say something are those of the first
/// behind those of the others.
pub proof fn lemma_content_add(first: Seq<Seq<char>>, second: Seq<Seq<char>>)
    ensures
        texts_of(content_lines(first + second, (first + second).len() as int)) == texts_of(
            content_lines(first, first.len() as int),
        ) + texts_of(content_lines(second, second.len() as int)),
    decreases second.len(),
{
    let all = first + second;
    let count = (first + second).len() as int;
    if second.len() == 0 {
        assert(all =~= first);
        assert(texts_of(content_lines(second, 0)) =~= Seq::<Seq<char>>::empty());
        assert(texts_of(content_lines(all, count)) =~= texts_of(
            content_lines(first, first.len() as int),
        ) + texts_of(content_lines(second, 0)));
    } else {
        let fewer = second.drop_last();
        lemma_content_add(first, fewer);
        lemma_content_same(all, first + fewer, count - 1);
        lemma_content_same(second, fewer, second.len() - 1);
        assert(all[count - 1] == second.last());
        let kept = content_lines(first + fewer, count - 1);
        let kept_second = content_lines(fewer, fewer.len() as int);
        assert(content_lines(all, count - 1) == kept);
        assert(content_lines(second, second.len() - 1) == kept_second);
        if is_content(second.last()) {
            let line = Line { number: count - 1, text: second.last() };
            let other = Line { number: second.len() - 1, text: second.last() };
            assert(content_lines(all, count) == kept.push(line));
            assert(content_lines(second, second.len() as int) == kept_second.push(other));
            assert(texts_of(kept.push(line)) =~= texts_of(kept).push(second.last()));
            assert(texts_of(kept_second.push(other)) =~= texts_of(kept_second).push(
                second.last(),
            ));
        }
        assert(texts_of(content_lines(all, count)) =~= texts_of(
            content_lines(first, first.len() as int),
        ) + texts_of(content_lines(second, second.len() as int)));
    }
}

/// Lines that all say something are all kept.
pub proof fn lemma_content_all(lines: Seq<Seq<char>>, count: int)
    requires
        0 <= count <= lines.len(),
        all_content(lines),
    ensures
        texts_of(content_lines(lines, count)) == lines.subrange(0, count),
    decreases count,
{
    if count > 0 {
        lemma_content_all(lines, count - 1);
        let kept = content_lines(lines, count - 1);
        let line = Line { number: count - 1, text: lines[count - 1] };
        assert(is_content(lines[count - 1]));
        assert(content_lines(lines, count) == kept.push(line));
        assert(texts_of(kept.push(line)) =~= texts_of(kept).push(lines[count - 1]));
        assert(lines.subrange(0, count) =~= lines.subrange(0, count - 1).push(lines[count - 1]));
    } else {
        assert(texts_of(content_lines(lines, count)) =~= lines.subrange(0, count));
    }
}

/// Whether `line` starts with the blanks `indent` and goes on with another
/// character.
pub open spec fn starts_at(line: Seq<char>, indent: Seq<char>) -> bool {
    &&& indent.len() < line.len()
    &&& line.subrange(0, indent.len() as int) == indent
    &&& all_in_class(indent, CharClass::Space)
    &&& !is_space(line[indent.len() as int])
}

/// The indent of a line that starts with blanks and goes on with another
/// character.
pub proof fn lemma_starts_at(line: Seq<char>, indent: Seq<char>)
    requires
        starts_at(line, indent),
    ensures
        scan(line, 0, CharClass::Space) == indent.len(),
        indent_of(line) == indent,
{
    assert forall|i: int| 0 <= i < indent.len() implies in_class(
        #[trigger] line[i],
        CharClass::Space,
    ) by {
        assert(line[i] == line.subrange(0, indent.len() as int)[i]);
    }
    lemma_scan_is(line, 0, indent.len() as int, CharClass::Space);
}

/// A unit that is repeated is made of blanks, and repeated once more it
/// extends itself.
pub proof fn lemma_repeated(unit: Seq<char>, count: nat)
    requires
        is_unit(unit),
    ensures
        all_in_class(repeated(unit, count), CharClass::Space),
        extends(repeated(unit, count), repeated(unit, count + 1)),
    decreases count,
{
    if count > 0 {
        lemma_repeated(unit, (count - 1) as nat);
    }
    let shorter = repeated(unit, count);
    let longer = repeated(unit, count + 1);
    assert(longer == shorter + unit);
    assert(longer.subrange(0, shorter.len() as int) =~= shorter);
    assert forall|i: int| 0 <= i < shorter.len() implies in_class(
        #[trigger] shorter[i],
        CharClass::Space,
    ) by {
        if count > 0 {
            let before = repeated(unit, (count - 1) as nat);
            if i < before.len() {
                assert(shorter[i] == before[i]);
            } else {
                assert(shorter[i] == unit[i - before.len()]);
            }
        }
    }
}

/// Characters of a class behind characters of that class are of that class.
pub proof fn lemma_class_add(first: Seq<char>, second: Seq<char>, class: CharClass)
    requires
        all_in_class(first, class),
        all_in_class(second, class),
    ensures
        all_in_class(first + second, class),
{
    assert forall|i: int| 0 <= i < (first + second).len() implies in_class(
        #[trigger] (first + second)[i],
        class,
    ) by {
        if i < first.len() {
            assert((first + second)[i] == first[i]);
        } else {
            assert((first + second)[i] == second[i - first.len()]);
        }
    }
}

/// Names, blanks and values hold no line breaks.
pub proof fn lemma_class_line(text: Seq<char>, class: CharClass)
    requires
        all_in_class(text, class),
        class != CharClass::NoFeed,
    ensures
        all_in_class(text, CharClass::Line),
{
    assert forall|i: int| 0 <= i < text.len() implies in_class(
        #[trigger] text[i],
        CharClass::Line,
    ) by {
        assert(in_class(text[i], class));
    }
}

/// The data lines of a canonical attribute: its value, if it has one.
pub proof fn lemma_attr_lines(name: Seq<char>, tree: BmlTree)
    requires
        is_attr_node(name, tree),
    ensures
        lines_of(tree.data) == if tree.data.len() == 0 {
            Seq::<Seq<char>>::empty()
        } else {
            seq![tree.data.drop_last()]
        },
{
    if tree.data.len() > 0 {
        let value = tree.data.drop_last();
        lemma_class_line(
            value,
            if tree.kind->quote {
                CharClass::Quoted
            } else {
                CharClass::Bare
            },
        );
        crate::text::lemma_join_one(value);
        assert(tree.data =~= value + seq!['\n']);
        crate::text::lemma_lines_of_join(seq![value]);
    }
}

/// A name in a line, where no character of names follows it, is what `scan`
/// finds.
pub proof fn lemma_read_name(before: Seq<char>, name: Seq<char>, after: Seq<char>)
    requires
        is_name(name),
        after.len() > 0 ==> !is_name_char(after[0]),
    ensures
        scan(before + name + after, before.len() as int, CharClass::Name) == before.len()
            + name.len(),
        (before + name + after).subrange(before.len() as int, before.len() as int + name.len())
            == name,
{
    lemma_scan_run(before, name, after, CharClass::Name);
    assert((before + name + after).subrange(before.len() as int, before.len() as int + name.len())
        =~= name);
}

/// The grammar finds an attribute without a value in its text.
proof fn lemma_read_attr_alone(before: Seq<char>, name: Seq<char>, after: Seq<char>)
    requires
        is_name(name),
        after.len() > 0 ==> after[0] == ' ',
    ensures
        attr_at(before + seq![' '] + name + after, before.len() as int + 1) == Ok::<
            (Production, int),
            (int, Rule),
        >((group(Rule::Attr, seq![token(Rule::Name, name)]), before.len() as int + 1 + name.len())),
{
    let line = before + seq![' '] + name + after;
    let start = before.len() as int + 1;
    lemma_read_name(before + seq![' '], name, after);
    let name_end = start + name.len();
    if name_end < line.len() {
        assert(line[name_end] == after[0]);
    }
}

/// The grammar finds an attribute with a value in quotes in its text.
proof fn lemma_read_attr_quoted(
    before: Seq<char>,
    name: Seq<char>,
    value: Seq<char>,
    after: Seq<char>,
)
    requires
        is_name(name),
        all_in_class(value, CharClass::Quoted),
    ensures
        attr_at(
            before + seq![' '] + name + seq!['=', '"'] + value + seq!['"'] + after,
            before.len() as int + 1,
        ) == Ok::<(Production, int), (int, Rule)>(
            (
                group(Rule::Attr, seq![token(Rule::Name, name), datum(Rule::QuoteData, value)]),
                before.len() as int + 1 + name.len() + 2 + value.len() + 1,
            ),
        ),
{
    let head = before + seq![' '];
    let open = seq!['=', '"'];
    let close = seq!['"'];
    let line = head + name + open + value + close + after;
    let start = before.len() as int + 1;
    let name_end = start + name.len();
    let end = name_end + 2 + value.len();
    assert(scan(line, start, CharClass::Name) == name_end && line.subrange(start, name_end)
        == name) by {
        assert(line =~= head + name + (open + value + close + after));
        lemma_read_name(head, name, open + value + close + after);
    }
    assert(line[name_end] == '=');
    assert(line[name_end + 1] == '"');
    assert(scan(line, name_end + 2, CharClass::Quoted) == end) by {
        assert(line =~= (head + name + open) + value + (close + after));
        lemma_scan_run(head + name + open, value, close + after, CharClass::Quoted);
    }
    assert(line.subrange(name_end + 2, end) =~= value);
}

/// The grammar finds an attribute with a value without quotes in its text.
proof fn lemma_read_attr_bare(
    before: Seq<char>,
    name: Seq<char>,
    value: Seq<char>,
    after: Seq<char>,
)
    requires
        is_name(name),
        all_in_class(value, CharClass::Bare),
        after.len() > 0 ==> after[0] == ' ',
    ensures
        attr_at(before + seq![' '] + name + seq!['='] + value + after, before.len() as int + 1)
            == Ok::<(Production, int), (int, Rule)>(
            (
                group(Rule::Attr, seq![token(Rule::Name, name), datum(Rule::SpaceData, value)]),
                before.len() as int + 1 + name.len() + 1 + value.len(),
            ),
        ),
{
    let head = before + seq![' '];
    let open = seq!['='];
    let line = head + name + open + value + after;
    let start = before.len() as int + 1;
    let name_end = start + name.len();
    let end = name_end + 1 + value.len();
    assert(scan(line, start, CharClass::Name) == name_end && line.subrange(start, name_end)
        == name) by {
        assert(line =~= head + name + (open + value + after));
        lemma_read_name(head, name, open + value + after);
    }
    assert(line[name_end] == '=');
    if name_end + 1 < line.len() {
        if value.len() > 0 {
            assert(line[name_end + 1] == value[0]);
            assert(in_class(value[0], CharClass::Bare));
        } else {
            assert(line[name_end + 1] == after[0]);
        }
    }
    assert(scan(line, name_end + 1, CharClass::Bare) == end) by {
        assert(line =~= (head + name + open) + value + after);
        lemma_scan_run(head + name + open, value, after, CharClass::Bare);
    }
    assert(line.subrange(name_end + 1, end) =~= value);
}

/// The text of a canonical attribute.
pub proof fn lemma_attr_text(name: Seq<char>, tree: BmlTree)
    requires
        is_attr_node(name, tree),
    ensures
        attr_text(name, tree) == if tree.data.len() == 0 {
            seq![' '] + name
        } else if tree.kind->quote {
            seq![' '] + name + seq!['=', '"'] + tree.data.drop_last() + seq!['"']
        } else {
            seq![' '] + name + seq!['='] + tree.data.drop_last()
        },
        attr_text(name, tree).len() > 0,
        attr_text(name, tree)[0] == ' ',
        all_in_class(attr_text(name, tree), CharClass::Line),
{
    lemma_attr_lines(name, tree);
    let blank = seq![' '];
    lemma_class_line(name, CharClass::Name);
    lemma_class_add(blank, name, CharClass::Line);
    if tree.data.len() > 0 {
        let value = tree.data.drop_last();
        if tree.kind->quote {
            let open = seq!['=', '"'];
            let close = seq!['"'];
            lemma_class_line(value, CharClass::Quoted);
            lemma_class_add(blank + name, open, CharClass::Line);
            lemma_class_add(blank + name + open, value, CharClass::Line);
            lemma_class_add(blank + name + open + value, close, CharClass::Line);
        } else {
            let open = seq!['='];
            lemma_class_line(value, CharClass::Bare);
            lemma_class_add(blank + name, open, CharClass::Line);
            lemma_class_add(blank + name + open, value, CharClass::Line);
        }
    }
}

/// The grammar finds a canonical attribute in its text, behind one blank, where
/// a blank or nothing follows the text.
pub proof fn lemma_read_attr(before: Seq<char>, name: Seq<char>, tree: BmlTree, after: Seq<char>)
    requires
        is_attr_node(name, tree),
        after.len() > 0 ==> after[0] == ' ',
    ensures
        scan(before + attr_text(name, tree) + after, before.len() as int, CharClass::Space)
            == before.len() + 1,
        before.len() + 1 < (before + attr_text(name, tree) + after).len(),
        attr_at(before + attr_text(name, tree) + after, before.len() as int + 1) == Ok::<
            (Production, int),
            (int, Rule),
        >((attr_part(name, tree), before.len() as int + attr_text(name, tree).len())),
{
    lemma_attr_text(name, tree);
    let text = attr_text(name, tree);
    let line = before + text + after;
    let blank = seq![' '];
    assert(scan(line, before.len() as int, CharClass::Space) == before.len() + 1) by {
        let rest = text.subrange(1, text.len() as int) + after;
        assert(line =~= before + blank + rest);
        assert(rest[0] == name[0]);
        assert(in_class(name[0], CharClass::Name));
        lemma_scan_run(before, blank, rest, CharClass::Space);
    }
    if tree.data.len() == 0 {
        assert(line =~= before + blank + name + after);
        lemma_read_attr_alone(before, name, after);
    } else {
        let value = tree.data.drop_last();
        if tree.kind->quote {
            assert(line =~= before + blank + name + seq!['=', '"'] + value + seq!['"'] + after);
            lemma_read_attr_quoted(before, name, value, after);
        } else {
            assert(line =~= before + blank + name + seq!['='] + value + after);
            lemma_read_attr_bare(before, name, value, after);
        }
    }
}

/// The texts of canonical attributes hold no line breaks, and start with a
/// blank.
pub proof fn lemma_attrs_text(nodes: Seq<(Seq<char>, BmlTree)>, from: int, to: int)
    requires
        0 <= from <= to <= nodes.len(),
        forall|i: int| from <= i < to ==> is_attr_node((#[trigger] nodes[i]).0, nodes[i].1),
    ensures
        all_in_class(attrs_text(nodes, from, to), CharClass::Line),
        attrs_text(nodes, from, to).len() > 0 ==> attrs_text(nodes, from, to)[0] == ' ',
    decreases to - from,
{
    if from < to {
        assert(is_attr_node(nodes[from].0, nodes[from].1));
        lemma_attrs_text(nodes, from + 1, to);
        lemma_attr_text(nodes[from].0, nodes[from].1);
        lemma_class_add(
            attr_text(nodes[from].0, nodes[from].1),
            attrs_text(nodes, from + 1, to),
            CharClass::Line,
        );
    }
}

/// The productions of attributes are that of the first and those of the others.
proof fn lemma_attr_parts_first(nodes: Seq<(Seq<char>, BmlTree)>, from: int, to: int)
    requires
        0 <= from < to <= nodes.len(),
    ensures
        attr_parts(nodes, from, to) == seq![attr_part(nodes[from].0, nodes[from].1)] + attr_parts(
            nodes,
            from + 1,
            to,
        ),
{
    assert(attr_parts(nodes, from, to) =~= seq![attr_part(nodes[from].0, nodes[from].1)]
        + attr_parts(nodes, from + 1, to));
}

/// The grammar finds canonical attributes in their texts.
pub proof fn lemma_read_attrs(
    before: Seq<char>,
    nodes: Seq<(Seq<char>, BmlTree)>,
    from: int,
    to: int,
)
    requires
        0 <= from <= to <= nodes.len(),
        forall|i: int| from <= i < to ==> is_attr_node((#[trigger] nodes[i]).0, nodes[i].1),
    ensures
        attrs_from(before + attrs_text(nodes, from, to), before.len() as int) == Ok::<
            Seq<Production>,
            (int, Rule),
        >(attr_parts(nodes, from, to)),
    decreases to - from,
{
    let line = before + attrs_text(nodes, from, to);
    if from == to {
        assert(line =~= before);
        assert(attr_parts(nodes, from, to) =~= Seq::<Production>::empty());
    } else {
        let first = attr_text(nodes[from].0, nodes[from].1);
        let others = attrs_text(nodes, from + 1, to);
        let end = before.len() as int + first.len();
        assert(is_attr_node(nodes[from].0, nodes[from].1));
        lemma_attrs_text(nodes, from + 1, to);
        lemma_read_attr(before, nodes[from].0, nodes[from].1, others);
        assert(line == before + first + others) by {
            assert(line =~= before + first + others);
        }
        assert(attrs_from(line, end) == Ok::<Seq<Production>, (int, Rule)>(
            attr_parts(nodes, from + 1, to),
        )) by {
            lemma_read_attrs(before + first, nodes, from + 1, to);
            assert(line =~= (before + first) + others);
        }
        lemma_attr_parts_first(nodes, from, to);
    }
}

/// The grammar finds the head of a canonical element in its first line.
pub proof fn lemma_read_head(tree: BmlTree, name: Seq<char>, indent: Seq<char>)
    requires
        is_elem_node(name, tree),
        all_in_class(indent, CharClass::Space),
    ensures
        starts_at(head_line(tree, name, indent), indent),
        head_line(tree, name, indent)[indent.len() as int] != ':',
        all_in_class(head_line(tree, name, indent), CharClass::Line),
        is_content(head_line(tree, name, indent)),
        head_at(head_line(tree, name, indent), indent.len() as int) == Ok::<
            (Seq<Production>, bool),
            (int, Rule),
        >((head_parts(name, tree), is_inline(tree))),
{
    let line = head_line(tree, name, indent);
    let start = indent.len() as int;
    let name_end = start + name.len();
    lemma_class_line(indent, CharClass::Space);
    lemma_class_line(name, CharClass::Name);
    lemma_class_add(indent, name, CharClass::Line);
    assert(in_class(name[0], CharClass::Name));
    if is_inline(tree) {
        let data = lines_of(tree.data)[0];
        let colon = seq![':', ' '];
        assert(is_data_line(data));
        assert(line == indent + name + colon + data);
        assert(line.subrange(0, start) =~= indent);
        assert(line[start] == name[0]);
        lemma_class_add(indent + name, colon, CharClass::Line);
        lemma_class_add(indent + name + colon, data, CharClass::Line);
        assert(scan(line, start, CharClass::Name) == name_end && line.subrange(start, name_end)
            == name) by {
            assert(line =~= indent + name + (colon + data));
            lemma_read_name(indent, name, colon + data);
        }
        assert(line[name_end] == ':');
        assert(scan(line, name_end + 1, CharClass::Space) == name_end + 2) by {
            assert(line =~= (indent + name + seq![':']) + seq![' '] + data);
            lemma_scan_run(indent + name + seq![':'], seq![' '], data, CharClass::Space);
        }
        assert(line.subrange(name_end + 2, line.len() as int) =~= data);
    } else {
        let attrs = attrs_end(tree.nodes, 0);
        let tail = attrs_text(tree.nodes, 0, attrs);
        lemma_attrs_end(tree.nodes, 0);
        assert forall|i: int| 0 <= i < attrs implies is_attr_node(
            (#[trigger] tree.nodes[i]).0,
            tree.nodes[i].1,
        ) by {}
        lemma_read_attrs(indent + name, tree.nodes, 0, attrs);
        lemma_attrs_text(tree.nodes, 0, attrs);
        assert(line == indent + name + tail);
        assert(line.subrange(0, start) =~= indent);
        assert(line[start] == name[0]);
        lemma_class_add(indent + name, tail, CharClass::Line);
        lemma_read_name(indent, name, tail);
        if name_end < line.len() {
            assert(line[name_end] == tail[0]);
        }
    }
    lemma_starts_at(line, indent);
}

/// Whether the line holds no line break and says something.
pub open spec fn is_sound(line: Seq<char>) -> bool {
    all_in_class(line, CharClass::Line) && is_content(line)
}

/// Whether the indent of the line is `indent` or extends it.
pub open spec fn at_or_below(line: Seq<char>, indent: Seq<char>) -> bool {
    indent_of(line) == indent || extends(indent, indent_of(line))
}

/// An indent that extends another, or what extends that, extends it too.
pub proof fn lemma_extends(short: Seq<char>, middle: Seq<char>, long: Seq<char>)
    requires
        extends(short, middle),
        middle == long || extends(middle, long),
    ensures
        extends(short, long),
{
    if middle != long {
        assert(long.subrange(0, short.len() as int) =~= middle.subrange(0, short.len() as int)) by {
            assert forall|i: int| 0 <= i < short.len() implies long[i] == middle[i] by {
                assert(long.subrange(0, middle.len() as int)[i] == middle[i]);
            }
        }
    }
}

/// A data line in a block: the line holds no line break, says something, has
/// the indent of the block, and the grammar finds the data in it.
pub proof fn lemma_read_data(indent: Seq<char>, data: Seq<char>)
    requires
        all_in_class(indent, CharClass::Space),
        is_data_line(data),
    ensures
        is_sound(indent + seq![':'] + data),
        scan(indent + seq![':'] + data, 0, CharClass::Space) == indent.len(),
        indent_of(indent + seq![':'] + data) == indent,
        (indent + seq![':'] + data)[indent.len() as int] == ':',
        colon_data(indent + seq![':'] + data, indent.len() as int) == datum(Rule::ColonData, data),
{
    let line = indent + seq![':'] + data;
    let start = indent.len() as int;
    lemma_class_line(indent, CharClass::Space);
    lemma_class_add(indent, seq![':'], CharClass::Line);
    lemma_class_add(indent + seq![':'], data, CharClass::Line);
    assert(line.subrange(0, start) =~= indent);
    assert(line[start] == ':');
    lemma_starts_at(line, indent);
    assert(scan(line, start + 1, CharClass::Space) == start + 1) by {
        assert(line =~= (indent + seq![':']) + Seq::<char>::empty() + data);
        lemma_scan_run(indent + seq![':'], Seq::<char>::empty(), data, CharClass::Space);
    }
    assert(line.subrange(start + 1, line.len() as int) =~= data);
}

/// The lines of a canonical element: the first is its head, all hold no line
/// break and say something, and those behind the first have an indent that
/// extends that of the first, the second the indent one level deeper.
pub proof fn lemma_elem_lines(tree: BmlTree, name: Seq<char>, unit: Seq<char>, level: nat)
    requires
        is_elem_node(name, tree),
        is_unit(unit),
    ensures
        elem_lines(tree, name, unit, level).len() >= 1,
        elem_lines(tree, name, unit, level)[0] == head_line(tree, name, repeated(unit, level)),
        forall|j: int|
            0 <= j < elem_lines(tree, name, unit, level).len() ==> is_sound(
                #[trigger] elem_lines(tree, name, unit, level)[j],
            ),
        forall|j: int|
            1 <= j < elem_lines(tree, name, unit, level).len() ==> extends(
                repeated(unit, level),
                indent_of(#[trigger] elem_lines(tree, name, unit, level)[j]),
            ),
        elem_lines(tree, name, unit, level).len() > 1 ==> indent_of(
            elem_lines(tree, name, unit, level)[1],
        ) == repeated(unit, level + 1),
    decreases tree, 0nat,
{
    let all = elem_lines(tree, name, unit, level);
    let indent = repeated(unit, level);
    let deeper = repeated(unit, level + 1);
    let head = head_line(tree, name, indent);
    let block = data_block(tree, deeper);
    let attrs = attrs_end(tree.nodes, 0);
    let count = tree.nodes.len() as int;
    let below = run_lines(tree.nodes, attrs, count, unit, level + 1);
    lemma_repeated(unit, level);
    lemma_repeated(unit, level + 1);
    lemma_attrs_end(tree.nodes, 0);
    lemma_read_head(tree, name, indent);
    lemma_run_lines(tree.nodes, attrs, count, unit, level + 1);
    assert(all == seq![head] + block + below);
    assert forall|j: int| 1 <= j < all.len() implies is_sound(#[trigger] all[j]) && extends(
        indent,
        indent_of(all[j]),
    ) && (j == 1 ==> indent_of(all[j]) == deeper) by {
        if j - 1 < block.len() {
            let data = lines_of(tree.data)[j - 1];
            assert(all[j] == block[j - 1]);
            assert(is_data_line(data));
            lemma_read_data(deeper, data);
        } else {
            let line = below[j - 1 - block.len()];
            assert(all[j] == line);
            assert(at_or_below(line, deeper));
            lemma_extends(indent, deeper, indent_of(line));
            if j == 1 {
                assert(line == below[0]);
                lemma_read_head(tree.nodes[attrs].1, tree.nodes[attrs].0, deeper);
                lemma_starts_at(line, deeper);
            }
        }
    }
    assert(all[0] == head);
}

/// The lines of canonical elements: there are lines if there are elements, the
/// first line is the head of the first element, and all lines hold no line
/// break, say something and have the indent of the level or a deeper one.
pub proof fn lemma_run_lines(
    nodes: Seq<(Seq<char>, BmlTree)>,
    from: int,
    to: int,
    unit: Seq<char>,
    level: nat,
)
    requires
        0 <= from <= to <= nodes.len(),
        forall|i: int| from <= i < to ==> is_elem_node((#[trigger] nodes[i]).0, nodes[i].1),
        is_unit(unit),
    ensures
        from < to <==> run_lines(nodes, from, to, unit, level).len() > 0,
        from < to ==> run_lines(nodes, from, to, unit, level)[0] == head_line(
            nodes[from].1,
            nodes[from].0,
            repeated(unit, level),
        ),
        forall|j: int|
            0 <= j < run_lines(nodes, from, to, unit, level).len() ==> {
                let line = #[trigger] run_lines(nodes, from, to, unit, level)[j];
                is_sound(line) && at_or_below(line, repeated(unit, level))
            },
    decreases nodes, to - from,
{
    if from < to {
        let all = run_lines(nodes, from, to, unit, level);
        let first = elem_lines(nodes[from].1, nodes[from].0, unit, level);
        let others = run_lines(nodes, from + 1, to, unit, level);
        let indent = repeated(unit, level);
        lemma_repeated(unit, level);
        lemma_elem_lines(nodes[from].1, nodes[from].0, unit, level);
        lemma_run_lines(nodes, from + 1, to, unit, level);
        lemma_read_head(nodes[from].1, nodes[from].0, indent);
        assert(all == first + others);
        assert forall|j: int| 0 <= j < all.len() implies is_sound(#[trigger] all[j])
            && at_or_below(all[j], indent) by {
            if j < first.len() {
                assert(all[j] == first[j]);
                if j == 0 {
                    lemma_starts_at(first[0], indent);
                }
            } else {
                assert(all[j] == others[j - first.len()]);
            }
        }
        assert(all[0] == first[0]);
    }
}

/// Where the lines of a canonical element stand first among lines, and no line
/// of a deeper indent than its own follows them, its block is made of its lines
/// behind the first.
proof fn lemma_elem_block_end(
    lines: Seq<Line>,
    tree: BmlTree,
    name: Seq<char>,
    unit: Seq<char>,
    level: nat,
    others: Seq<Seq<char>>,
)
    requires
        is_elem_node(name, tree),
        is_unit(unit),
        texts_of(lines) == elem_lines(tree, name, unit, level) + others,
        others.len() > 0 ==> indent_of(others[0]) == repeated(unit, level),
    ensures
        block_end(lines, 1, repeated(unit, level)) == elem_lines(tree, name, unit, level).len(),
        elem_lines(tree, name, unit, level).len() > 1 ==> lines[1].indent() == repeated(
            unit,
            level + 1,
        ),
{
    let indent = repeated(unit, level);
    let first = elem_lines(tree, name, unit, level);
    let split = first.len() as int;
    lemma_elem_lines(tree, name, unit, level);
    assert(lines.len() == texts_of(lines).len());
    assert forall|i: int| 1 <= i < split implies extends(
        indent,
        (#[trigger] lines[i]).indent(),
    ) by {
        assert(texts_of(lines)[i] == first[i]);
    }
    if split < lines.len() {
        assert(texts_of(lines)[split] == others[0]);
    }
    lemma_block_end_is(lines, 1, split, indent);
    if split > 1 {
        assert(texts_of(lines)[1] == first[1]);
    }
}

/// The grammar finds the head of a canonical element in the first of the lines
/// that start with the lines of the element.
proof fn lemma_read_first(
    lines: Seq<Line>,
    tree: BmlTree,
    name: Seq<char>,
    unit: Seq<char>,
    level: nat,
    others: Seq<Seq<char>>,
)
    requires
        is_elem_node(name, tree),
        is_unit(unit),
        texts_of(lines) == elem_lines(tree, name, unit, level) + others,
    ensures
        1 <= elem_lines(tree, name, unit, level).len() <= lines.len(),
        lines[0].indent() == repeated(unit, level),
        lines[0].text[lines[0].start()] != ':',
        head_at(lines[0].text, lines[0].start()) == Ok::<(Seq<Production>, bool), (int, Rule)>(
            (head_parts(name, tree), is_inline(tree)),
        ),
        texts_of(
            lines.subrange(elem_lines(tree, name, unit, level).len() as int, lines.len() as int),
        ) == others,
{
    let indent = repeated(unit, level);
    let first = elem_lines(tree, name, unit, level);
    let split = first.len() as int;
    let rest = lines.subrange(split, lines.len() as int);
    lemma_repeated(unit, level);
    lemma_elem_lines(tree, name, unit, level);
    lemma_read_head(tree, name, indent);
    assert(lines.len() == texts_of(lines).len());
    assert(texts_of(lines)[0] == first[0]);
    lemma_starts_at(first[0], indent);
    assert(texts_of(rest) =~= others) by {
        assert forall|i: int| 0 <= i < rest.len() implies texts_of(rest)[i] == others[i] by {
            assert(texts_of(rest)[i] == texts_of(lines)[i + split]);
        }
    }
}

/// The grammar finds in the block of a canonical element the productions of its
/// data lines and of its elements.
proof fn lemma_read_elem_block(
    lines: Seq<Line>,
    tree: BmlTree,
    name: Seq<char>,
    unit: Seq<char>,
    level: nat,
    others: Seq<Seq<char>>,
)
    requires
        is_elem_node(name, tree),
        is_unit(unit),
        texts_of(lines) == elem_lines(tree, name, unit, level) + others,
        elem_lines(tree, name, unit, level).len() > 1 ==> lines[1].indent() == repeated(
            unit,
            level + 1,
        ),
    ensures
        items(
            lines.subrange(1, elem_lines(tree, name, unit, level).len() as int),
            lines[1].indent(),
            !is_inline(tree),
        ) == Ok::<Seq<Production>, Fault>(
            data_block_parts(tree) + node_parts(
                tree.nodes,
                attrs_end(tree.nodes, 0),
                tree.nodes.len() as int,
            ),
        ),
    decreases
            tree.nodes,
            tree.nodes.len() + 2 + data_block(tree, repeated(unit, level + 1)).len(),
{
    let deeper = repeated(unit, level + 1);
    let first = elem_lines(tree, name, unit, level);
    let split = first.len() as int;
    let block = lines.subrange(1, split);
    let inside = data_block(tree, deeper);
    let attrs = attrs_end(tree.nodes, 0);
    let count = tree.nodes.len() as int;
    let under = run_lines(tree.nodes, attrs, count, unit, level + 1);
    let parts = data_block_parts(tree);
    let below = node_parts(tree.nodes, attrs, count);
    lemma_attrs_end(tree.nodes, 0);
    assert(lines.len() == texts_of(lines).len());
    assert(first == seq![first[0]] + inside + under);
    assert(parts.len() == inside.len());
    assert(texts_of(block) =~= inside.subrange(0, inside.len() as int) + under) by {
        assert forall|i: int| 0 <= i < block.len() implies texts_of(block)[i] == (inside
            + under)[i] by {
            assert(texts_of(block)[i] == texts_of(lines)[i + 1]);
            assert(first[i + 1] == (inside + under)[i]);
        }
    }
    assert(parts.subrange(0, parts.len() as int) =~= parts);
    if block.len() > 0 {
        lemma_read_block(block, tree, name, 0, unit, level);
    } else {
        assert forall|i: int| attrs <= i < count implies is_elem_node(
            (#[trigger] tree.nodes[i]).0,
            tree.nodes[i].1,
        ) by {}
        lemma_run_lines(tree.nodes, attrs, count, unit, level + 1);
        assert(parts + below =~= Seq::<Production>::empty());
    }
}

/// The indent of the first line of canonical elements.
proof fn lemma_run_indent(
    nodes: Seq<(Seq<char>, BmlTree)>,
    from: int,
    to: int,
    unit: Seq<char>,
    level: nat,
)
    requires
        0 <= from <= to <= nodes.len(),
        forall|i: int| from <= i < to ==> is_elem_node((#[trigger] nodes[i]).0, nodes[i].1),
        is_unit(unit),
    ensures
        run_lines(nodes, from, to, unit, level).len() > 0 ==> indent_of(
            run_lines(nodes, from, to, unit, level)[0],
        ) == repeated(unit, level),
        from == to ==> run_lines(nodes, from, to, unit, level).len() == 0,
{
    lemma_run_lines(nodes, from, to, unit, level);
    if from < to {
        lemma_repeated(unit, level);
        assert(is_elem_node(nodes[from].0, nodes[from].1));
        lemma_read_head(nodes[from].1, nodes[from].0, repeated(unit, level));
        lemma_starts_at(run_lines(nodes, from, to, unit, level)[0], repeated(unit, level));
    }
}

/// The productions of elements are that of the first and those of the others.
proof fn lemma_node_parts_first(nodes: Seq<(Seq<char>, BmlTree)>, from: int, to: int)
    requires
        0 <= from < to <= nodes.len(),
    ensures
        node_parts(nodes, from, to) == seq![node_part(nodes[from].0, nodes[from].1)] + node_parts(
            nodes,
            from + 1,
            to,
        ),
{
    assert(node_parts(nodes, from, to) =~= seq![node_part(nodes[from].0, nodes[from].1)]
        + node_parts(nodes, from + 1, to));
}

/// The grammar finds in the lines of canonical elements, at their indent, the
/// productions of those elements.
pub proof fn lemma_read_run(
    lines: Seq<Line>,
    nodes: Seq<(Seq<char>, BmlTree)>,
    from: int,
    to: int,
    unit: Seq<char>,
    level: nat,
    data_ok: bool,
)
    requires
        0 <= from <= to <= nodes.len(),
        forall|i: int| from <= i < to ==> is_elem_node((#[trigger] nodes[i]).0, nodes[i].1),
        is_unit(unit),
        texts_of(lines) == run_lines(nodes, from, to, unit, level),
    ensures
        items(lines, repeated(unit, level), data_ok) == Ok::<Seq<Production>, Fault>(
            node_parts(nodes, from, to),
        ),
    decreases nodes, to - from,
{
    let indent = repeated(unit, level);
    assert(lines.len() == texts_of(lines).len());
    if from >= to {
        assert(node_parts(nodes, from, to) =~= Seq::<Production>::empty());
    } else {
        let name = nodes[from].0;
        let tree = nodes[from].1;
        let others = run_lines(nodes, from + 1, to, unit, level);
        let split = elem_lines(tree, name, unit, level).len() as int;
        let below = node_parts(tree.nodes, attrs_end(tree.nodes, 0), tree.nodes.len() as int);
        let rest = lines.subrange(split, lines.len() as int);
        assert(is_elem_node(name, tree));
        lemma_run_indent(nodes, from + 1, to, unit, level);
        lemma_read_first(lines, tree, name, unit, level, others);
        lemma_elem_block_end(lines, tree, name, unit, level, others);
        lemma_read_elem_block(lines, tree, name, unit, level, others);
        lemma_read_run(rest, nodes, from + 1, to, unit, level, data_ok);
        lemma_node_parts_first(nodes, from, to);
        assert(head_parts(name, tree) + (data_block_parts(tree) + below) =~= head_parts(name, tree)
            + data_block_parts(tree) + below);
    }
}

/// The grammar finds in the block of a canonical element, from the data line
/// `at` on, the productions of the data lines and of the elements.
proof fn lemma_read_block(
    lines: Seq<Line>,
    tree: BmlTree,
    name: Seq<char>,
    at: int,
    unit: Seq<char>,
    level: nat,
)
    requires
        is_elem_node(name, tree),
        is_unit(unit),
        0 <= at <= data_block(tree, repeated(unit, level + 1)).len(),
        texts_of(lines) == data_block(tree, repeated(unit, level + 1)).subrange(
            at,
            data_block(tree, repeated(unit, level + 1)).len() as int,
        ) + run_lines(
            tree.nodes,
            attrs_end(tree.nodes, 0),
            tree.nodes.len() as int,
            unit,
            level + 1,
        ),
    ensures
        items(lines, repeated(unit, level + 1), !is_inline(tree)) == Ok::<Seq<Production>, Fault>(
            data_block_parts(tree).subrange(at, data_block_parts(tree).len() as int) + node_parts(
                tree.nodes,
                attrs_end(tree.nodes, 0),
                tree.nodes.len() as int,
            ),
        ),
    decreases
            tree.nodes,
            tree.nodes.len() + 1 + data_block(tree, repeated(unit, level + 1)).len() - at,
{
    let deeper = repeated(unit, level + 1);
    let inside = data_block(tree, deeper);
    let attrs = attrs_end(tree.nodes, 0);
    let count = tree.nodes.len() as int;
    let under = run_lines(tree.nodes, attrs, count, unit, level + 1);
    let parts = data_block_parts(tree);
    let below = node_parts(tree.nodes, attrs, count);
    lemma_attrs_end(tree.nodes, 0);
    lemma_repeated(unit, level + 1);
    assert(parts.len() == inside.len());
    assert(lines.len() == texts_of(lines).len());
    if at == inside.len() {
        assert(texts_of(lines) =~= under);
        assert forall|i: int| attrs <= i < count implies is_elem_node(
            (#[trigger] tree.nodes[i]).0,
            tree.nodes[i].1,
        ) by {}
        lemma_read_run(lines, tree.nodes, attrs, count, unit, level + 1, !is_inline(tree));
        assert(parts.subrange(at, parts.len() as int) + below =~= below);
    } else {
        let data = lines_of(tree.data)[at];
        let line = deeper + seq![':'] + data;
        let rest = lines.subrange(1, lines.len() as int);
        assert(is_data_line(data));
        assert(inside[at] == line);
        assert(lines[0].text == line) by {
            assert(texts_of(lines)[0] == inside.subrange(at, inside.len() as int)[0]);
        }
        lemma_read_data(deeper, data);
        assert(items(rest, deeper, !is_inline(tree)) == Ok::<Seq<Production>, Fault>(
            parts.subrange(at + 1, parts.len() as int) + below,
        )) by {
            assert(texts_of(rest) =~= inside.subrange(at + 1, inside.len() as int) + under) by {
                assert forall|i: int| 0 <= i < rest.len() implies texts_of(rest)[i] == (
                inside.subrange(at + 1, inside.len() as int) + under)[i] by {
                    assert(texts_of(rest)[i] == texts_of(lines)[i + 1]);
                }
            }
            lemma_read_block(rest, tree, name, at + 1, unit, level);
        }
        assert(parts[at] == datum(Rule::ColonData, data));
        assert(seq![parts[at]] + (parts.subrange(at + 1, parts.len() as int) + below)
            =~= parts.subrange(at, parts.len() as int) + below);
    }
}

/// The lines of a canonical document hold no line breaks, and those of them
/// that say something are the lines of its elements.
pub proof fn lemma_root_lines(nodes: Seq<(Seq<char>, BmlTree)>, count: int, unit: Seq<char>)
    requires
        0 <= count <= nodes.len(),
        forall|i: int| 0 <= i < count ==> is_elem_node((#[trigger] nodes[i]).0, nodes[i].1),
        is_unit(unit),
    ensures
        unbroken(root_lines(nodes, count, unit)),
        texts_of(
            content_lines(
                root_lines(nodes, count, unit),
                root_lines(nodes, count, unit).len() as int,
            ),
        ) == run_lines(nodes, 0, count, unit, 0),
    decreases count,
{
    let all = root_lines(nodes, count, unit);
    if count == 0 {
        assert(texts_of(content_lines(all, 0)) =~= run_lines(nodes, 0, count, unit, 0));
    } else {
        let last = elem_lines(nodes[count - 1].1, nodes[count - 1].0, unit, 0);
        assert(is_elem_node(nodes[count - 1].0, nodes[count - 1].1));
        lemma_elem_lines(nodes[count - 1].1, nodes[count - 1].0, unit, 0);
        lemma_run_lines_last(nodes, 0, count, unit, 0);
        assert(all_content(last));
        lemma_content_all(last, last.len() as int);
        assert(last.subrange(0, last.len() as int) =~= last);
        if count == 1 {
            assert(run_lines(nodes, 0, 0, unit, 0) =~= Seq::<Seq<char>>::empty());
            assert(Seq::<Seq<char>>::empty() + last =~= last);
        } else {
            let before = root_lines(nodes, count - 1, unit);
            let gap = seq![Seq::<char>::empty()];
            lemma_root_lines(nodes, count - 1, unit);
            lemma_content_add(before + gap, last);
            lemma_content_add(before, gap);
            assert(texts_of(content_lines(gap, 1)) =~= Seq::<Seq<char>>::empty()) by {
                assert(!is_content(gap[0]));
                assert(content_lines(gap, 1) == content_lines(gap, 0));
            }
            assert(texts_of(content_lines(all, all.len() as int)) =~= run_lines(
                nodes,
                0,
                count - 1,
                unit,
                0,
            ) + last);
            assert forall|i: int| 0 <= i < all.len() implies all_in_class(
                #[trigger] all[i],
                CharClass::Line,
            ) by {
                if i < before.len() {
                    assert(all[i] == before[i]);
                } else if i == before.len() {
                    assert(all[i] == gap[0]);
                } else {
                    assert(all[i] == last[i - before.len() - 1]);
                }
            }
        }
    }
}

/// The grammar finds in the text of a canonical document, rendered with a unit
/// of blanks and no indent of the root, the productions of that document.
pub proof fn lemma_read_root(nodes: Seq<(Seq<char>, BmlTree)>, unit: Seq<char>)
    requires
        forall|i: int| 0 <= i < nodes.len() ==> is_elem_node((#[trigger] nodes[i]).0, nodes[i].1),
        is_unit(unit),
    ensures
        parse(render_separated(nodes, nodes.len() as int, unit, 0)) == Ok::<
            Seq<Production>,
            Fault,
        >(node_parts(nodes, 0, nodes.len() as int).push(token(Rule::Eoi, Seq::empty()))),
{
    let count = nodes.len() as int;
    let text = render_separated(nodes, count, unit, 0);
    let raws = root_lines(nodes, count, unit);
    lemma_render_root(nodes, count, unit);
    lemma_root_lines(nodes, count, unit);
    lemma_raw_lines_join(Seq::empty(), raws);
    assert(Seq::<char>::empty() + join_lines(raws) =~= text);
    assert(raw_lines(text, 0) == raws);
    lemma_read_run(lines_of_text(text), nodes, 0, count, unit, 0, false);
    assert(repeated(unit, 0) =~= Seq::<char>::empty());
}

} // verus!
