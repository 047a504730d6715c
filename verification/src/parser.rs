//! The parser: from a text to the productions of the grammar.

use crate::error::{BmlError, Fault};
use crate::grammar::{
    attr_at, attrs_from, block_end, colon_data, content_lines, datum, extends, group, head_at,
    is_content, items, lemma_attr_end, lemma_content_same, lemma_parse_shaped, lines_of_text,
    parse, raw_lines, token, Line,
};
use crate::pair::{is_document, productions, BmlPair, Production, Rule};
use crate::text::{chars_of, lemma_scan, scan_run, string_of, CharClass};
use vstd::prelude::*;

verus! {

/// The parser of BML texts.
pub struct BmlParser;

/// A line that says something, with its indent apart.
struct SourceLine {
    number: usize,
    indent: Vec<char>,
    text: Vec<char>,
}

impl SourceLine {
    /// The line as the grammar sees it.
    spec fn line(self) -> Line {
        Line { number: self.number as int, text: self.text@ }
    }

    /// Whether the line says something and `indent` holds its indent.
    spec fn valid(self) -> bool {
        is_content(self.text@) && self.indent@ == self.line().indent()
    }
}

/// The lines as the grammar sees them.
spec fn lines_view(lines: Seq<SourceLine>) -> Seq<Line> {
    Seq::new(lines.len(), |i: int| lines[i].line())
}

/// Whether every one of `lines` is valid.
spec fn all_valid(lines: Seq<SourceLine>) -> bool {
    forall|i: int| 0 <= i < lines.len() ==> (#[trigger] lines[i]).valid()
}

/// `rest` behind `done`.
pub open spec fn after<F>(done: Seq<Production>, rest: Result<Seq<Production>, F>) -> Result<
    Seq<Production>,
    F,
> {
    match rest {
        Ok(parts) => Ok(done + parts),
        Err(fault) => Err(fault),
    }
}

/// The fault of a line as a fault of the text.
pub open spec fn in_line<T>(found: Result<T, (int, Rule)>, number: int) -> Result<T, Fault> {
    match found {
        Ok(value) => Ok(value),
        Err((column, expected)) => Err(Fault { line: number, column, expected }),
    }
}

/// Whether `pairs` are the productions `parts`, or `pairs` is the error of the fault.
pub open spec fn same_result(
    pairs: Result<Vec<BmlPair>, BmlError>,
    parts: Result<Seq<Production>, Fault>,
) -> bool {
    match parts {
        Ok(parts) => pairs is Ok && productions(pairs->Ok_0@) == parts,
        Err(fault) => pairs is Err && pairs->Err_0@ == fault,
    }
}

/// The characters of `chars` from `from` up to `to`.
fn chars_between(chars: &Vec<char>, from: usize, to: usize) -> (part: Vec<char>)
    requires
        from <= to <= chars.len(),
    ensures
        part@ == chars@.subrange(from as int, to as int),
{
    let mut part: Vec<char> = Vec::new();
    let mut at = from;
    while at < to
        invariant
            from <= at <= to <= chars.len(),
            part@ == chars@.subrange(from as int, at as int),
        decreases to - at,
    {
        part.push(chars[at]);
        at = at + 1;
        assert(chars@.subrange(from as int, at as int) == chars@.subrange(from as int, at - 1).push(
            chars@[at - 1],
        ));
    }
    part
}

/// Whether `left` and `right` hold the same characters.
fn same_chars(left: &Vec<char>, right: &Vec<char>) -> (same: bool)
    ensures
        same == (left@ == right@),
{
    if left.len() != right.len() {
        return false;
    }
    let mut at: usize = 0;
    while at < left.len()
        invariant
            at <= left.len() == right.len(),
            left@.subrange(0, at as int) == right@.subrange(0, at as int),
        decreases left.len() - at,
    {
        if left[at] != right[at] {
            return false;
        }
        at = at + 1;
        assert(left@.subrange(0, at as int) == left@.subrange(0, at - 1).push(left@[at - 1]));
        assert(right@.subrange(0, at as int) == right@.subrange(0, at - 1).push(right@[at - 1]));
    }
    assert(left@ == left@.subrange(0, at as int));
    assert(right@ == right@.subrange(0, at as int));
    true
}

/// Whether `longer` starts with `shorter` and goes on.
fn extends_chars(shorter: &Vec<char>, longer: &Vec<char>) -> (yes: bool)
    ensures
        yes == extends(shorter@, longer@),
{
    if shorter.len() >= longer.len() {
        return false;
    }
    let mut at: usize = 0;
    while at < shorter.len()
        invariant
            at <= shorter.len() < longer.len(),
            longer@.subrange(0, at as int) == shorter@.subrange(0, at as int),
        decreases shorter.len() - at,
    {
        if shorter[at] != longer[at] {
            assert(longer@.subrange(0, shorter.len() as int)[at as int] != shorter@[at as int]);
            return false;
        }
        at = at + 1;
        assert(longer@.subrange(0, at as int) == longer@.subrange(0, at - 1).push(longer@[at - 1]));
        assert(shorter@.subrange(0, at as int) == shorter@.subrange(0, at - 1).push(
            shorter@[at - 1],
        ));
    }
    assert(shorter@ == shorter@.subrange(0, at as int));
    true
}

/// The lines of `chars` that say something.
fn read_lines(chars: &Vec<char>) -> (lines: Vec<SourceLine>)
    ensures
        lines_view(lines@) == lines_of_text(chars@),
        all_valid(lines@),
{
    let mut lines: Vec<SourceLine> = Vec::new();
    let mut from: usize = 0;
    let mut number: usize = 0;
    let ghost mut done: Seq<Seq<char>> = Seq::empty();
    assert(lines_view(lines@) =~= content_lines(done, 0));
    while from < chars.len()
        invariant
            from <= chars.len(),
            number <= from,
            number == done.len(),
            raw_lines(chars@, 0) == done + raw_lines(chars@, from as int),
            lines_view(lines@) == content_lines(done, done.len() as int),
            all_valid(lines@),
        decreases chars.len() - from,
    {
        let end = scan_run(chars, from, CharClass::Line);
        let text = chars_between(chars, from, end);
        let ghost raw = text@;
        let ghost rest = raw_lines(chars@, from as int);
        let next = if end >= chars.len() {
            end
        } else if chars[end] == '\r' && end + 1 < chars.len() && chars[end + 1] == '\n' {
            end + 2
        } else {
            end + 1
        };
        proof {
            lemma_scan(chars@, from as int, CharClass::Line);
            assert(rest =~= seq![raw] + raw_lines(chars@, next as int));
            assert(done + rest =~= done.push(raw) + raw_lines(chars@, next as int));
            lemma_content_same(done.push(raw), done, done.len() as int);
        }
        let start = scan_run(&text, 0, CharClass::Space);
        let slash = start < text.len() && text[start] == '/';
        let comment = slash && start + 1 < text.len() && text[start + 1] == '/';
        if start < text.len() && !comment {
            let indent = chars_between(&text, 0, start);
            let line = SourceLine { number, indent, text };
            lines.push(line);
            assert(lines_view(lines@) =~= content_lines(done.push(raw), done.len() as int + 1));
        }
        proof {
            done = done.push(raw);
        }
        from = next;
        number = number + 1;
    }
    assert(raw_lines(chars@, 0) =~= done);
    lines
}

/// The pair of a token of the rule `rule` whose text stands in `line` from `from` up to `to`.
fn token_pair(rule: Rule, line: &Vec<char>, from: usize, to: usize) -> (pair: BmlPair)
    requires
        from <= to <= line.len(),
    ensures
        pair@ == token(rule, line@.subrange(from as int, to as int)),
{
    BmlPair::token(rule, string_of(line, from, to))
}

/// The pair of a data line or value, written in the way `rule`, whose text stands
/// in `line` from `from` up to `to`.
fn datum_pair(rule: Rule, line: &Vec<char>, from: usize, to: usize) -> (pair: BmlPair)
    requires
        from <= to <= line.len(),
    ensures
        pair@ == datum(rule, line@.subrange(from as int, to as int)),
{
    let mut inner: Vec<BmlPair> = Vec::new();
    inner.push(token_pair(rule, line, from, to));
    let pair = BmlPair::group(Rule::Data, inner);
    assert(pair@.inner =~= seq![token(rule, line@.subrange(from as int, to as int))]);
    pair
}

/// The pair of the data behind the colon at `colon` in `line`.
fn colon_pair(line: &Vec<char>, colon: usize) -> (pair: BmlPair)
    requires
        colon < line.len(),
    ensures
        pair@ == colon_data(line@, colon as int),
{
    let from = scan_run(line, colon + 1, CharClass::Space);
    datum_pair(Rule::ColonData, line, from, line.len())
}

/// The attribute whose name starts at `from` in `line`, the line of the number
/// `number`, and where it ends.
fn parse_attr(line: &Vec<char>, from: usize, number: usize) -> (found: Result<
    (BmlPair, usize),
    BmlError,
>)
    requires
        from <= line.len(),
    ensures
        match in_line(attr_at(line@, from as int), number as int) {
            Ok((attr, end)) => found is Ok && found->Ok_0.0@ == attr && found->Ok_0.1 == end
                && from < end <= line.len(),
            Err(fault) => found is Err && found->Err_0@ == fault,
        },
{
    proof {
        lemma_attr_end(line@, from as int);
    }
    let name_end = scan_run(line, from, CharClass::Name);
    if name_end == from {
        return Err(BmlError::new(number, from, Rule::Name));
    }
    let mut inner: Vec<BmlPair> = Vec::new();
    inner.push(token_pair(Rule::Name, line, from, name_end));
    let ghost name = token(Rule::Name, line@.subrange(from as int, name_end as int));
    if name_end < line.len() && line[name_end] == '=' {
        if name_end + 1 < line.len() && line[name_end + 1] == '"' {
            let close = scan_run(line, name_end + 2, CharClass::Quoted);
            if close < line.len() {
                inner.push(datum_pair(Rule::QuoteData, line, name_end + 2, close));
                let attr = BmlPair::group(Rule::Attr, inner);
                assert(attr@.inner =~= seq![
                    name,
                    datum(Rule::QuoteData, line@.subrange(name_end + 2, close as int)),
                ]);
                Ok((attr, close + 1))
            } else {
                Err(BmlError::new(number, close, Rule::QuoteData))
            }
        } else {
            let end = scan_run(line, name_end + 1, CharClass::Bare);
            inner.push(datum_pair(Rule::SpaceData, line, name_end + 1, end));
            let attr = BmlPair::group(Rule::Attr, inner);
            assert(attr@.inner =~= seq![
                name,
                datum(Rule::SpaceData, line@.subrange(name_end + 1, end as int)),
            ]);
            Ok((attr, end))
        }
    } else {
        let attr = BmlPair::group(Rule::Attr, inner);
        assert(attr@.inner =~= seq![name]);
        Ok((attr, name_end))
    }
}

/// The productions `head` and behind them the attributes in `line` from `from` on.
fn parse_attrs(line: &Vec<char>, from: usize, number: usize, head: Vec<BmlPair>) -> (found: Result<
    Vec<BmlPair>,
    BmlError,
>)
    requires
        from <= line.len(),
    ensures
        same_result(
            found,
            after(productions(head@), in_line(attrs_from(line@, from as int), number as int)),
        ),
{
    let ghost found = in_line(attrs_from(line@, from as int), number as int);
    let ghost all = after(productions(head@), found);
    let mut parts = head;
    let mut at = from;
    loop
        invariant
            at <= line.len(),
            found == in_line(attrs_from(line@, from as int), number as int),
            all == after(productions(head@), found),
            all == after(productions(parts@), in_line(attrs_from(line@, at as int), number as int)),
        decreases line.len() - at,
    {
        if at >= line.len() {
            assert(productions(parts@) + Seq::<Production>::empty() =~= productions(parts@));
            return Ok(parts);
        }
        let start = scan_run(line, at, CharClass::Space);
        if start >= line.len() {
            assert(productions(parts@) + Seq::<Production>::empty() =~= productions(parts@));
            return Ok(parts);
        }
        if start == at {
            return Err(BmlError::new(number, at, Rule::Attr));
        }
        match parse_attr(line, start, number) {
            Err(error) => {
                return Err(error);
            },
            Ok((attr, end)) => {
                let ghost before = productions(parts@);
                parts.push(attr);
                assert(productions(parts@) =~= before.push(attr@));
                assert forall|rest: Seq<Production>|
                    before + (seq![attr@] + rest) == #[trigger] (before.push(attr@) + rest) by {
                    assert(before + (seq![attr@] + rest) =~= before.push(attr@) + rest);
                }
                at = end;
            },
        }
    }
}

/// The productions of the head of an element that starts at `start` in `line`,
/// and whether the head holds the data.
fn parse_head(line: &Vec<char>, start: usize, number: usize) -> (found: Result<
    (Vec<BmlPair>, bool),
    BmlError,
>)
    requires
        start <= line.len(),
    ensures
        match in_line(head_at(line@, start as int), number as int) {
            Ok((head, inline)) => found is Ok && productions(found->Ok_0.0@) == head
                && found->Ok_0.1 == inline,
            Err(fault) => found is Err && found->Err_0@ == fault,
        },
{
    let name_end = scan_run(line, start, CharClass::Name);
    if name_end == start {
        return Err(BmlError::new(number, start, Rule::Name));
    }
    let ghost name = token(Rule::Name, line@.subrange(start as int, name_end as int));
    let mut head: Vec<BmlPair> = Vec::new();
    head.push(token_pair(Rule::Name, line, start, name_end));
    assert(productions(head@) =~= seq![name]);
    if name_end < line.len() && line[name_end] == ':' {
        head.push(colon_pair(line, name_end));
        assert(productions(head@) =~= seq![name, colon_data(line@, name_end as int)]);
        Ok((head, true))
    } else {
        match parse_attrs(line, name_end, number, head) {
            Err(error) => Err(error),
            Ok(head) => Ok((head, false)),
        }
    }
}

/// The items of the block that the lines from `from` up to `to` make, whose
/// indent is `indent`.
fn parse_items(
    lines: &Vec<SourceLine>,
    from: usize,
    to: usize,
    indent: &Vec<char>,
    data_ok: bool,
) -> (found: Result<Vec<BmlPair>, BmlError>)
    requires
        from <= to <= lines.len(),
        all_valid(lines@),
    ensures
        same_result(
            found,
            items(lines_view(lines@).subrange(from as int, to as int), indent@, data_ok),
        ),
    decreases to - from,
{
    let ghost view = lines_view(lines@);
    let ghost all = items(view.subrange(from as int, to as int), indent@, data_ok);
    let mut done: Vec<BmlPair> = Vec::new();
    let mut at = from;
    assert(productions(done@) =~= Seq::empty());
    assert(Seq::<Production>::empty() + all->Ok_0 =~= all->Ok_0);
    loop
        invariant
            from <= at <= to <= lines.len(),
            all_valid(lines@),
            view == lines_view(lines@),
            all == items(view.subrange(from as int, to as int), indent@, data_ok),
            all == after(
                productions(done@),
                items(view.subrange(at as int, to as int), indent@, data_ok),
            ),
        decreases to - at,
    {
        let ghost block = view.subrange(at as int, to as int);
        if at >= to {
            assert(productions(done@) + Seq::<Production>::empty() =~= productions(done@));
            return Ok(done);
        }
        let line = &lines[at];
        assert(block[0] == line.line());
        assert(line.valid());
        proof {
            lemma_scan(line.text@, 0, CharClass::Space);
        }
        if !same_chars(&line.indent, indent) {
            return Err(BmlError::new(line.number, 0, Rule::Node));
        }
        let start = line.indent.len();
        let ghost before = productions(done@);
        if line.text[start] == ':' {
            if !data_ok {
                return Err(BmlError::new(line.number, start, Rule::Node));
            }
            let item = colon_pair(&line.text, start);
            done.push(item);
            assert(productions(done@) =~= before.push(item@));
            assert(block.subrange(1, block.len() as int) =~= view.subrange(at + 1, to as int));
            at = at + 1;
            assert forall|rest: Seq<Production>|
                before + (seq![item@] + rest) == #[trigger] (before.push(item@) + rest) by {
                assert(before + (seq![item@] + rest) =~= before.push(item@) + rest);
            }
        } else {
            match parse_head(&line.text, start, line.number) {
                Err(error) => {
                    return Err(error);
                },
                Ok((head, inline)) => {
                    let mut end = at + 1;
                    while end < to && extends_chars(indent, &lines[end].indent)
                        invariant
                            at + 1 <= end <= to <= lines.len(),
                            all_valid(lines@),
                            view == lines_view(lines@),
                            block == view.subrange(at as int, to as int),
                            block_end(block, 1, indent@) == block_end(block, end - at, indent@),
                        decreases to - end,
                    {
                        assert(block[end - at] == lines[end as int].line());
                        assert(lines[end as int].valid());
                        end = end + 1;
                    }
                    assert(block_end(block, 1, indent@) == end - at) by {
                        if end < to {
                            assert(block[end - at] == lines[end as int].line());
                            assert(lines[end as int].valid());
                        }
                    }
                    assert(block.subrange(1, end - at) =~= view.subrange(at + 1, end as int));
                    assert(block.subrange(end - at, block.len() as int) =~= view.subrange(
                        end as int,
                        to as int,
                    ));
                    let mut head = head;
                    let ghost head_parts = productions(head@);
                    if end > at + 1 {
                        assert(block[1] == lines[at + 1].line());
                        assert(lines[at + 1].valid());
                        match parse_items(lines, at + 1, end, &lines[at + 1].indent, !inline) {
                            Err(error) => {
                                return Err(error);
                            },
                            Ok(inner) => {
                                let ghost inner_parts = productions(inner@);
                                let mut inner = inner;
                                head.append(&mut inner);
                                assert(productions(head@) =~= head_parts + inner_parts);
                            },
                        }
                    } else {
                        assert(productions(head@) =~= head_parts + Seq::<Production>::empty());
                        assert(items(block.subrange(1, 1), block[1].indent(), !inline) == Ok::<
                            Seq<Production>,
                            Fault,
                        >(Seq::empty()));
                    }
                    let item = BmlPair::group(Rule::Node, head);
                    done.push(item);
                    assert(productions(done@) =~= before.push(item@));
                    at = end;
                    assert forall|rest: Seq<Production>|
                        before + (seq![item@] + rest) == #[trigger] (before.push(item@) + rest) by {
                        assert(before + (seq![item@] + rest) =~= before.push(item@) + rest);
                    }
                },
            }
        }
    }
}

impl BmlParser {
    /// The productions of the text `text`, which are those of a document, or the
    /// first place at which the text is not BML.
    pub fn parse(text: &str) -> (found: Result<Vec<BmlPair>, BmlError>)
        ensures
            same_result(found, parse(text@)),
            found matches Ok(pairs) ==> is_document(productions(pairs@)),
            text@.len() <= usize::MAX,
    {
        proof {
            lemma_parse_shaped(text@);
        }
        let chars = chars_of(text);
        assert(text@.len() == chars.len());
        let lines = read_lines(&chars);
        let indent: Vec<char> = Vec::new();
        assert(lines_view(lines@).subrange(0, lines.len() as int) =~= lines_view(lines@));
        match parse_items(&lines, 0, lines.len(), &indent, false) {
            Err(error) => Err(error),
            Ok(nodes) => {
                let ghost parts = productions(nodes@);
                let mut pairs = nodes;
                let end = BmlPair::token(Rule::Eoi, String::new());
                pairs.push(end);
                assert(productions(pairs@) =~= parts.push(token(Rule::Eoi, Seq::empty())));
                Ok(pairs)
            },
        }
    }
}

} // verus!
