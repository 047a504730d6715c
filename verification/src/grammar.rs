//! The grammar: which texts are BML, and the productions of each.
//!
//! A text is a sequence of lines. Lines that are empty or blank, and lines whose
//! first characters behind the blanks are `//`, say nothing. Every other line
//! has an indent, the blanks at its start, and a body.
//!
//! The body of a line is either a data line, a colon and the data behind it, or
//! the head of an element: its name, and behind it either a colon and one data
//! line, or attributes, each behind blanks. An attribute is a `name`, `name=value`
//! or `name="value"`.
//!
//! The lines behind the head of an element whose indent is deeper than its own
//! are its block: its data lines and its elements, which all have the indent of
//! the first of them. Indents are compared as strings: a deeper indent starts
//! with the shallower one and goes on.

use crate::error::Fault;
use crate::pair::{is_document, Production, Rule};
use crate::text::{lemma_scan, scan, CharClass};
use vstd::prelude::*;

verus! {

/// A line that says something, with its number in the text, counted from zero.
pub struct Line {
    pub number: int,
    pub text: Seq<char>,
}

/// The blanks at the start of the line `text`.
pub open spec fn indent_of(text: Seq<char>) -> Seq<char> {
    text.subrange(0, scan(text, 0, CharClass::Space))
}

impl Line {
    /// Where the body starts.
    pub open spec fn start(self) -> int {
        scan(self.text, 0, CharClass::Space)
    }

    /// The blanks before the body.
    pub open spec fn indent(self) -> Seq<char> {
        indent_of(self.text)
    }
}

/// The length of the line break at `at`: a carriage return and a line feed behind
/// it are one line break.
pub open spec fn break_len(text: Seq<char>, at: int) -> int {
    if text[at] == '\r' && at + 1 < text.len() && text[at + 1] == '\n' {
        2
    } else {
        1
    }
}

/// The lines of `text` from `from` on, without their line breaks. A line ends
/// with a line feed, a carriage return, both in this order, or the text.
pub open spec fn raw_lines(text: Seq<char>, from: int) -> Seq<Seq<char>>
    decreases text.len() - from,
    via raw_lines_decreases
{
    if from < 0 || from >= text.len() {
        Seq::empty()
    } else {
        let end = scan(text, from, CharClass::Line);
        if end >= text.len() {
            seq![text.subrange(from, end)]
        } else {
            seq![text.subrange(from, end)] + raw_lines(text, end + break_len(text, end))
        }
    }
}

#[via_fn]
proof fn raw_lines_decreases(text: Seq<char>, from: int) {
    if 0 <= from < text.len() {
        lemma_scan(text, from, CharClass::Line);
    }
}

/// Whether the line `text` says something: it is not blank and no comment.
pub open spec fn is_content(text: Seq<char>) -> bool {
    let start = scan(text, 0, CharClass::Space);
    start < text.len() && !(text[start] == '/' && start + 1 < text.len() && text[start + 1] == '/')
}

/// Those of the first `count` of `raws` that say something, each with its number.
pub open spec fn content_lines(raws: Seq<Seq<char>>, count: int) -> Seq<Line>
    decreases count,
{
    if count <= 0 {
        Seq::empty()
    } else if is_content(raws[count - 1]) {
        content_lines(raws, count - 1).push(Line { number: count - 1, text: raws[count - 1] })
    } else {
        content_lines(raws, count - 1)
    }
}

/// The first `count` lines that say something are the same where the first
/// `count` lines are.
pub proof fn lemma_content_same(first: Seq<Seq<char>>, second: Seq<Seq<char>>, count: int)
    requires
        count <= first.len(),
        count <= second.len(),
        forall|i: int| 0 <= i < count ==> first[i] == second[i],
    ensures
        content_lines(first, count) == content_lines(second, count),
    decreases count,
{
    if count > 0 {
        lemma_content_same(first, second, count - 1);
    }
}

/// The lines of `text` that say something.
pub open spec fn lines_of_text(text: Seq<char>) -> Seq<Line> {
    content_lines(raw_lines(text, 0), raw_lines(text, 0).len() as int)
}

/// Whether `longer` starts with `shorter` and goes on.
pub open spec fn extends(shorter: Seq<char>, longer: Seq<char>) -> bool {
    shorter.len() < longer.len() && longer.subrange(0, shorter.len() as int) == shorter
}

/// The token of the rule `rule` with the text `text`.
pub open spec fn token(rule: Rule, text: Seq<char>) -> Production {
    Production { rule, text, inner: Seq::empty() }
}

/// The production of the rule `rule` that holds `inner`.
pub open spec fn group(rule: Rule, inner: Seq<Production>) -> Production {
    Production { rule, text: Seq::empty(), inner }
}

/// The data line or value with the text `text`, written in the way `rule`.
pub open spec fn datum(rule: Rule, text: Seq<char>) -> Production {
    group(Rule::Data, seq![token(rule, text)])
}

/// The data behind the colon at `colon`: the rest of the line behind the blanks
/// that follow the colon.
pub open spec fn colon_data(line: Seq<char>, colon: int) -> Production {
    datum(
        Rule::ColonData,
        line.subrange(scan(line, colon + 1, CharClass::Space), line.len() as int),
    )
}

/// The attribute whose name starts at `from` in `line`, and where it ends.
pub open spec fn attr_at(line: Seq<char>, from: int) -> Result<(Production, int), (int, Rule)> {
    let name_end = scan(line, from, CharClass::Name);
    let name = token(Rule::Name, line.subrange(from, name_end));
    if name_end == from {
        Err((from, Rule::Name))
    } else if name_end < line.len() && line[name_end] == '=' {
        if name_end + 1 < line.len() && line[name_end + 1] == '"' {
            let close = scan(line, name_end + 2, CharClass::Quoted);
            if close < line.len() {
                Ok(
                    (
                        group(
                            Rule::Attr,
                            seq![name, datum(Rule::QuoteData, line.subrange(name_end + 2, close))],
                        ),
                        close + 1,
                    ),
                )
            } else {
                Err((close, Rule::QuoteData))
            }
        } else {
            let end = scan(line, name_end + 1, CharClass::Bare);
            Ok(
                (
                    group(
                        Rule::Attr,
                        seq![name, datum(Rule::SpaceData, line.subrange(name_end + 1, end))],
                    ),
                    end,
                ),
            )
        }
    } else {
        Ok((group(Rule::Attr, seq![name]), name_end))
    }
}

/// The attributes in `line` from `from` on, each behind blanks. Blanks may end the line.
pub open spec fn attrs_from(line: Seq<char>, from: int) -> Result<Seq<Production>, (int, Rule)>
    decreases line.len() - from,
    via attrs_from_decreases
{
    let start = scan(line, from, CharClass::Space);
    if from < 0 || from >= line.len() || start >= line.len() {
        Ok(Seq::empty())
    } else if start <= from {
        Err((from, Rule::Attr))
    } else {
        match attr_at(line, start) {
            Err(fault) => Err(fault),
            Ok((attr, end)) => match attrs_from(line, end) {
                Err(fault) => Err(fault),
                Ok(rest) => Ok(seq![attr] + rest),
            },
        }
    }
}

/// Where an attribute ends: behind its start and within the line.
pub proof fn lemma_attr_end(line: Seq<char>, from: int)
    requires
        0 <= from <= line.len(),
    ensures
        attr_at(line, from) matches Ok((attr, end)) ==> from < end <= line.len(),
{
    let name_end = scan(line, from, CharClass::Name);
    lemma_scan(line, from, CharClass::Name);
    if name_end + 2 <= line.len() {
        lemma_scan(line, name_end + 2, CharClass::Quoted);
    }
    if name_end + 1 <= line.len() {
        lemma_scan(line, name_end + 1, CharClass::Bare);
    }
}

#[via_fn]
proof fn attrs_from_decreases(line: Seq<char>, from: int) {
    if 0 <= from < line.len() {
        lemma_scan(line, from, CharClass::Space);
        let start = scan(line, from, CharClass::Space);
        lemma_attr_end(line, start);
    }
}

/// The productions of the head of an element that starts at `start` in `line`:
/// the name and either one data line behind a colon or the attributes. The flag
/// says whether the head holds the data.
pub open spec fn head_at(line: Seq<char>, start: int) -> Result<
    (Seq<Production>, bool),
    (int, Rule),
> {
    let name_end = scan(line, start, CharClass::Name);
    let name = token(Rule::Name, line.subrange(start, name_end));
    if name_end == start {
        Err((start, Rule::Name))
    } else if name_end < line.len() && line[name_end] == ':' {
        Ok((seq![name, colon_data(line, name_end)], true))
    } else {
        match attrs_from(line, name_end) {
            Err(fault) => Err(fault),
            Ok(attrs) => Ok((seq![name] + attrs, false)),
        }
    }
}

/// The end of the run of lines from `from` on whose indent extends `indent`.
pub open spec fn block_end(lines: Seq<Line>, from: int, indent: Seq<char>) -> int
    decreases lines.len() - from,
{
    if 0 <= from < lines.len() && extends(indent, lines[from].indent()) {
        block_end(lines, from + 1, indent)
    } else {
        from
    }
}

/// What `block_end` returns: the run lies within the lines, every line of it has
/// an indent that extends `indent`, and the line behind it has not.
pub proof fn lemma_block_end(lines: Seq<Line>, from: int, indent: Seq<char>)
    requires
        0 <= from <= lines.len(),
    ensures
        from <= block_end(lines, from, indent) <= lines.len(),
        forall|i: int|
            from <= i < block_end(lines, from, indent) ==> extends(
                indent,
                (#[trigger] lines[i]).indent(),
            ),
        block_end(lines, from, indent) < lines.len() ==> !extends(
            indent,
            lines[block_end(lines, from, indent)].indent(),
        ),
    decreases lines.len() - from,
{
    if from < lines.len() && extends(indent, lines[from].indent()) {
        lemma_block_end(lines, from + 1, indent);
    }
}

/// A run of lines whose indent extends `indent`, which ends at `to`, the end of
/// the lines or a line of another indent, is the run that `block_end` finds.
pub proof fn lemma_block_end_is(lines: Seq<Line>, from: int, to: int, indent: Seq<char>)
    requires
        0 <= from <= to <= lines.len(),
        forall|i: int| from <= i < to ==> extends(indent, (#[trigger] lines[i]).indent()),
        to < lines.len() ==> !extends(indent, lines[to].indent()),
    ensures
        block_end(lines, from, indent) == to,
    decreases to - from,
{
    if from < to {
        lemma_block_end_is(lines, from + 1, to, indent);
    }
}

/// The items of the block `lines`, whose lines have the indent `indent` or a
/// deeper one: its data lines and its elements, in order.
///
/// A line with the indent `indent` starts an item. A data line is an item by
/// itself, and is taken only where `data_ok`. The head of an element is followed
/// by its block, the lines whose indent extends `indent`; the indent of the first
/// of them is the indent of that block, which has no data lines if the head
/// holds the data.
pub open spec fn items(lines: Seq<Line>, indent: Seq<char>, data_ok: bool) -> Result<
    Seq<Production>,
    Fault,
>
    decreases lines.len(),
    via items_decreases
{
    if lines.len() == 0 {
        Ok(Seq::empty())
    } else {
        let line = lines[0].text;
        let start = lines[0].start();
        if lines[0].indent() != indent {
            Err(Fault { line: lines[0].number, column: 0, expected: Rule::Node })
        } else if line[start] == ':' {
            if data_ok {
                match items(lines.subrange(1, lines.len() as int), indent, data_ok) {
                    Err(fault) => Err(fault),
                    Ok(rest) => Ok(seq![colon_data(line, start)] + rest),
                }
            } else {
                Err(Fault { line: lines[0].number, column: start, expected: Rule::Node })
            }
        } else {
            match head_at(line, start) {
                Err((column, expected)) => Err(Fault { line: lines[0].number, column, expected }),
                Ok((head, inline)) => {
                    let end = block_end(lines, 1, indent);
                    match items(lines.subrange(1, end), lines[1].indent(), !inline) {
                        Err(fault) => Err(fault),
                        Ok(block) => match items(
                            lines.subrange(end, lines.len() as int),
                            indent,
                            data_ok,
                        ) {
                            Err(fault) => Err(fault),
                            Ok(rest) => Ok(seq![group(Rule::Node, head + block)] + rest),
                        },
                    }
                },
            }
        }
    }
}

#[via_fn]
proof fn items_decreases(lines: Seq<Line>, indent: Seq<char>, data_ok: bool) {
    if lines.len() > 0 {
        lemma_block_end(lines, 1, indent);
    }
}

/// Every production that `attrs_from` finds is an attribute.
pub proof fn lemma_attrs_shaped(line: Seq<char>, from: int)
    ensures
        attrs_from(line, from) matches Ok(attrs) ==> forall|i: int|
            0 <= i < attrs.len() ==> (#[trigger] attrs[i]).is_attr(),
    decreases line.len() - from,
{
    let start = scan(line, from, CharClass::Space);
    if 0 <= from < line.len() && from < start < line.len() {
        lemma_scan(line, from, CharClass::Space);
        lemma_attr_end(line, start);
        if let Ok((attr, end)) = attr_at(line, start) {
            lemma_attrs_shaped(line, end);
        }
    }
}

/// The head of an element is a name, and behind it one data line or attributes.
pub proof fn lemma_head_shaped(line: Seq<char>, start: int)
    ensures
        head_at(line, start) matches Ok((head, inline)) ==> {
            &&& head.len() >= 1
            &&& head[0].is_token(Rule::Name)
            &&& forall|i: int|
                1 <= i < head.len() ==> (#[trigger] head[i]).is_data() || head[i].is_attr()
        },
{
    lemma_attrs_shaped(line, scan(line, start, CharClass::Name));
}

/// The items of a block are elements and, where data lines are taken, data lines.
pub proof fn lemma_items_shaped(lines: Seq<Line>, indent: Seq<char>, data_ok: bool)
    ensures
        items(lines, indent, data_ok) matches Ok(found) ==> forall|i: int|
            0 <= i < found.len() ==> (#[trigger] found[i]).is_node() || (data_ok
                && found[i].is_data()),
    decreases lines.len(),
{
    if lines.len() > 0 && lines[0].indent() == indent {
        let line = lines[0].text;
        let start = lines[0].start();
        if line[start] == ':' {
            lemma_items_shaped(lines.subrange(1, lines.len() as int), indent, data_ok);
        } else if let Ok((head, inline)) = head_at(line, start) {
            let end = block_end(lines, 1, indent);
            lemma_block_end(lines, 1, indent);
            lemma_head_shaped(line, start);
            lemma_items_shaped(lines.subrange(1, end), lines[1].indent(), !inline);
            lemma_items_shaped(lines.subrange(end, lines.len() as int), indent, data_ok);
            if let Ok(block) = items(lines.subrange(1, end), lines[1].indent(), !inline) {
                let node = group(Rule::Node, head + block);
                assert forall|i: int| 1 <= i < node.inner.len() implies {
                    let part = #[trigger] node.inner[i];
                    part.is_data() || part.is_attr() || part.is_node()
                } by {
                    if i < head.len() {
                        assert(node.inner[i] == head[i]);
                    } else {
                        assert(node.inner[i] == block[i - head.len()]);
                    }
                }
                assert(node.inner[0] == head[0]);
                assert(node.is_node());
            }
        }
    }
}

/// The productions of a text are those of a document.
pub proof fn lemma_parse_shaped(text: Seq<char>)
    ensures
        parse(text) matches Ok(parts) ==> is_document(parts),
{
    lemma_items_shaped(lines_of_text(text), Seq::empty(), false);
}

/// The productions of the text `text`, or the first place at which it is not
/// BML: the elements, which have no indent, and the end of the input.
pub open spec fn parse(text: Seq<char>) -> Result<Seq<Production>, Fault> {
    match items(lines_of_text(text), Seq::empty(), false) {
        Err(fault) => Err(fault),
        Ok(nodes) => Ok(nodes.push(token(Rule::Eoi, Seq::empty()))),
    }
}

} // verus!
