//! Character classes and scanning over character sequences.

use vstd::prelude::*;

verus! {

/// The classes of characters that the format tells apart.
#[derive(Debug, Clone, Copy, PartialEq, Eq, Structural)]
pub enum CharClass {
    /// A space or a tabulator.
    Space,
    /// A character of a node or attribute name: a letter or digit of ASCII, `-` or `.`.
    Name,
    /// Any character but a line feed.
    NoFeed,
    /// Any character but a line break: a line feed or a carriage return.
    Line,
    /// A character of an unquoted attribute value: anything but a line break, a
    /// space, a tabulator or a double quote.
    Bare,
    /// A character of a quoted attribute value: anything but a line break or a
    /// double quote.
    Quoted,
}

/// Whether `c` ends a line.
pub open spec fn is_break(c: char) -> bool {
    c == '\n' || c == '\r'
}

/// Whether `c` is a space or a tabulator.
pub open spec fn is_space(c: char) -> bool {
    c == ' ' || c == '\t'
}

/// Whether `c` may stand in a name.
pub open spec fn is_name_char(c: char) -> bool {
    ('A' <= c && c <= 'Z') || ('a' <= c && c <= 'z') || ('0' <= c && c <= '9') || c == '-' || c
        == '.'
}

/// Whether `c` belongs to `class`.
pub open spec fn in_class(c: char, class: CharClass) -> bool {
    match class {
        CharClass::Space => is_space(c),
        CharClass::Name => is_name_char(c),
        CharClass::NoFeed => c != '\n',
        CharClass::Line => !is_break(c),
        CharClass::Bare => !is_break(c) && !is_space(c) && c != '"',
        CharClass::Quoted => !is_break(c) && c != '"',
    }
}

/// Whether every character of `s` belongs to `class`.
pub open spec fn all_in_class(s: Seq<char>, class: CharClass) -> bool {
    forall|i: int| 0 <= i < s.len() ==> in_class(#[trigger] s[i], class)
}

/// The end of the longest run of characters of `class` that starts at `from`.
pub open spec fn scan(s: Seq<char>, from: int, class: CharClass) -> int
    decreases s.len() - from,
{
    if 0 <= from < s.len() && in_class(s[from], class) {
        scan(s, from + 1, class)
    } else {
        from
    }
}

/// What `scan` returns: the run lies within the sequence, holds characters of
/// the class only, and ends at the end of the sequence or before a character
/// that is not of the class.
pub proof fn lemma_scan(s: Seq<char>, from: int, class: CharClass)
    requires
        0 <= from <= s.len(),
    ensures
        from <= scan(s, from, class) <= s.len(),
        forall|i: int| from <= i < scan(s, from, class) ==> in_class(#[trigger] s[i], class),
        scan(s, from, class) < s.len() ==> !in_class(s[scan(s, from, class)], class),
    decreases s.len() - from,
{
    if from < s.len() && in_class(s[from], class) {
        lemma_scan(s, from + 1, class);
    }
}

/// A run of characters of the class that ends at `to`, the end of the sequence
/// or a character outside the class, is the run that `scan` finds.
pub proof fn lemma_scan_is(s: Seq<char>, from: int, to: int, class: CharClass)
    requires
        0 <= from <= to <= s.len(),
        forall|i: int| from <= i < to ==> in_class(#[trigger] s[i], class),
        to < s.len() ==> !in_class(s[to], class),
    ensures
        scan(s, from, class) == to,
    decreases to - from,
{
    if from < to {
        lemma_scan_is(s, from + 1, to, class);
    }
}

/// Behind `before`, a run of characters of the class that is followed by nothing
/// or by a character outside the class is the run that `scan` finds.
pub proof fn lemma_scan_run(before: Seq<char>, run: Seq<char>, after: Seq<char>, class: CharClass)
    requires
        all_in_class(run, class),
        after.len() > 0 ==> !in_class(after[0], class),
    ensures
        scan(before + run + after, before.len() as int, class) == before.len() + run.len(),
{
    let all = before + run + after;
    let from = before.len() as int;
    let to = from + run.len();
    assert forall|i: int| from <= i < to implies in_class(#[trigger] all[i], class) by {
        assert(all[i] == run[i - from]);
    }
    if after.len() > 0 {
        assert(all[to] == after[0]);
    }
    lemma_scan_is(all, from, to, class);
}

/// The lines `lines` as one text: each with a line feed behind it.
pub open spec fn join_lines(lines: Seq<Seq<char>>) -> Seq<char>
    decreases lines.len(),
{
    if lines.len() == 0 {
        Seq::empty()
    } else {
        join_lines(lines.drop_last()) + lines.last() + seq!['\n']
    }
}

/// The text of lines behind lines is the text of the first behind that of the others.
pub proof fn lemma_join_add(first: Seq<Seq<char>>, second: Seq<Seq<char>>)
    ensures
        join_lines(first + second) == join_lines(first) + join_lines(second),
    decreases second.len(),
{
    if second.len() == 0 {
        assert(first + second =~= first);
        assert(join_lines(first) + join_lines(second) =~= join_lines(first));
    } else {
        lemma_join_add(first, second.drop_last());
        assert((first + second).drop_last() =~= first + second.drop_last());
        assert((first + second).last() == second.last());
        assert(join_lines(first + second) =~= join_lines(first) + join_lines(second));
    }
}

/// The text of one line.
pub proof fn lemma_join_one(line: Seq<char>)
    ensures
        join_lines(seq![line]) == line + seq!['\n'],
{
    assert(join_lines(seq![line].drop_last()) =~= Seq::<char>::empty());
    assert(join_lines(seq![line]) =~= line + seq!['\n']);
}

/// The text of lines is the first line, a line feed and the text of the others.
pub proof fn lemma_join_first(lines: Seq<Seq<char>>)
    requires
        lines.len() > 0,
    ensures
        join_lines(lines) == lines[0] + seq!['\n'] + join_lines(lines.drop_first()),
{
    lemma_join_add(seq![lines[0]], lines.drop_first());
    lemma_join_one(lines[0]);
    assert(seq![lines[0]] + lines.drop_first() =~= lines);
}

/// Whether `c` belongs to `class`.
pub fn char_in_class(c: char, class: CharClass) -> (yes: bool)
    ensures
        yes == in_class(c, class),
{
    let space = c == ' ' || c == '\t';
    let line_break = c == '\n' || c == '\r';
    match class {
        CharClass::Space => space,
        CharClass::Name => ('A' <= c && c <= 'Z') || ('a' <= c && c <= 'z') || ('0' <= c && c
            <= '9') || c == '-' || c == '.',
        CharClass::NoFeed => c != '\n',
        CharClass::Line => !line_break,
        CharClass::Bare => !line_break && !space && c != '"',
        CharClass::Quoted => !line_break && c != '"',
    }
}

/// The end of the longest run of characters of `class` in `s` that starts at `from`.
pub fn scan_run(s: &Vec<char>, from: usize, class: CharClass) -> (end: usize)
    requires
        from <= s.len(),
    ensures
        end == scan(s@, from as int, class),
        from <= end <= s.len(),
{
    let mut end = from;
    while end < s.len() && char_in_class(s[end], class)
        invariant
            from <= end <= s.len(),
            scan(s@, from as int, class) == scan(s@, end as int, class),
        decreases s.len() - end,
    {
        end = end + 1;
    }
    end
}

/// `line` without the carriage return at its end, if it has one.
pub open spec fn without_return(line: Seq<char>) -> Seq<char> {
    if line.len() > 0 && line.last() == '\r' {
        line.drop_last()
    } else {
        line
    }
}

/// The lines of `data` from `from` on. A line ends with a line feed, the last one
/// with a line feed or with the data. A carriage return before the line feed
/// belongs to the line ending.
pub open spec fn lines_from(data: Seq<char>, from: int) -> Seq<Seq<char>>
    decreases data.len() - from,
    via lines_from_decreases
{
    if from < 0 || from >= data.len() {
        Seq::empty()
    } else {
        let end = scan(data, from, CharClass::NoFeed);
        if end >= data.len() {
            seq![data.subrange(from, data.len() as int)]
        } else {
            seq![without_return(data.subrange(from, end))] + lines_from(data, end + 1)
        }
    }
}

#[via_fn]
proof fn lines_from_decreases(data: Seq<char>, from: int) {
    if 0 <= from < data.len() {
        lemma_scan(data, from, CharClass::NoFeed);
    }
}

/// The lines of `data`.
pub open spec fn lines_of(data: Seq<char>) -> Seq<Seq<char>> {
    lines_from(data, 0)
}

/// The lines of the text of lines without line breaks are those lines.
pub proof fn lemma_lines_from_join(before: Seq<char>, lines: Seq<Seq<char>>)
    requires
        forall|i: int| 0 <= i < lines.len() ==> all_in_class(#[trigger] lines[i], CharClass::Line),
    ensures
        lines_from(before + join_lines(lines), before.len() as int) == lines,
    decreases lines.len(),
{
    let text = before + join_lines(lines);
    let from = before.len() as int;
    if lines.len() == 0 {
        assert(lines_from(text, from) =~= lines);
    } else {
        let first = lines[0];
        let rest = lines.drop_first();
        let tail = seq!['\n'] + join_lines(rest);
        lemma_join_first(lines);
        assert(text =~= before + first + tail);
        assert(all_in_class(first, CharClass::Line));
        assert forall|i: int| 0 <= i < first.len() implies in_class(
            #[trigger] first[i],
            CharClass::NoFeed,
        ) by {
            assert(in_class(first[i], CharClass::Line));
        }
        assert(tail[0] == '\n');
        lemma_scan_run(before, first, tail, CharClass::NoFeed);
        let end = from + first.len();
        assert(text[end] == '\n');
        assert(text.subrange(from, end) =~= first);
        if first.len() > 0 {
            assert(in_class(first[first.len() - 1], CharClass::Line));
        }
        assert(without_return(first) == first);
        let next = before + first + seq!['\n'];
        assert(text =~= next + join_lines(rest));
        assert forall|i: int| 0 <= i < rest.len() implies all_in_class(
            #[trigger] rest[i],
            CharClass::Line,
        ) by {
            assert(rest[i] == lines[i + 1]);
        }
        lemma_lines_from_join(next, rest);
        assert(lines_from(text, from) =~= seq![first] + rest);
        assert(seq![first] + rest =~= lines);
    }
}

/// The lines of the text of lines without line breaks are those lines.
pub proof fn lemma_lines_of_join(lines: Seq<Seq<char>>)
    requires
        forall|i: int| 0 <= i < lines.len() ==> all_in_class(#[trigger] lines[i], CharClass::Line),
    ensures
        lines_of(join_lines(lines)) == lines,
{
    lemma_lines_from_join(Seq::empty(), lines);
    assert(Seq::<char>::empty() + join_lines(lines) =~= join_lines(lines));
}

/// `String::push`: the character is appended to the end of the string.
pub assume_specification[ String::push ](s: &mut String, c: char)
    ensures
        final(s)@ == old(s)@.push(c),
;

/// The characters of `s`.
pub fn chars_of(s: &str) -> (chars: Vec<char>)
    ensures
        chars@ == s@,
{
    let mut chars: Vec<char> = Vec::new();
    for c in it: s.chars()
        invariant
            chars@ == it.seq().take(it.index()),
            it.seq() == s@,
    {
        chars.push(c);
    }
    chars
}

/// The characters of `chars` from `from` up to `to` as a string.
pub fn string_of(chars: &Vec<char>, from: usize, to: usize) -> (s: String)
    requires
        from <= to <= chars.len(),
    ensures
        s@ == chars@.subrange(from as int, to as int),
{
    let mut s = String::new();
    let mut at = from;
    while at < to
        invariant
            from <= at <= to <= chars.len(),
            s@ == chars@.subrange(from as int, at as int),
        decreases to - at,
    {
        s.push(chars[at]);
        at = at + 1;
        assert(chars@.subrange(from as int, at as int) == chars@.subrange(from as int, at - 1).push(
            chars@[at - 1],
        ));
    }
    s
}

/// The character sequences of `lines`.
pub open spec fn texts(lines: Seq<String>) -> Seq<Seq<char>> {
    Seq::new(lines.len(), |i: int| lines[i]@)
}

/// The lines of `data`, each without its line ending.
pub fn split_lines(data: &Vec<char>) -> (lines: Vec<String>)
    ensures
        texts(lines@) == lines_of(data@),
{
    let chars = data;
    let mut lines: Vec<String> = Vec::new();
    let mut from: usize = 0;
    while from < chars.len()
        invariant
            chars@ == data@,
            from <= chars.len(),
            lines_of(data@).len() == lines.len() + lines_from(data@, from as int).len(),
            forall|i: int| 0 <= i < lines.len() ==> (#[trigger] lines[i])@ == lines_of(data@)[i],
            forall|i: int|
                0 <= i < lines_from(data@, from as int).len() ==> lines_of(data@)[lines.len() + i]
                    == (#[trigger] lines_from(data@, from as int)[i]),
        decreases chars.len() - from,
    {
        let end = scan_run(chars, from, CharClass::NoFeed);
        let ghost rest = lines_from(data@, from as int);
        assert(lines_of(data@)[lines.len() + 0] == rest[0]);
        if end >= chars.len() {
            lines.push(string_of(chars, from, end));
            from = end;
        } else {
            let stop = if end > from && chars[end - 1] == '\r' {
                end - 1
            } else {
                end
            };
            assert(chars@.subrange(from as int, stop as int) == without_return(
                chars@.subrange(from as int, end as int),
            ));
            lines.push(string_of(chars, from, stop));
            from = end + 1;
            assert forall|i: int| 0 <= i < lines_from(data@, from as int).len() implies lines_of(
                data@,
            )[lines.len() + i] == (#[trigger] lines_from(data@, from as int)[i]) by {
                assert(rest[i + 1] == lines_from(data@, from as int)[i]);
            }
        }
    }
    assert(texts(lines@) =~= lines_of(data@));
    lines
}

} // verus!
