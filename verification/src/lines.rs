//! Line scanning: how the text of an outline is cut into lines, and what a
//! line says about the entry it holds.
//!
//! A line is held as its characters. Its indent width is the number of white
//! space characters at its front. A `*` or `-` right after them is a bullet:
//! the bullet and the white space behind it belong to neither the indent nor
//! the name.

use vstd::prelude::*;

verus! {

/// Whether `c` is white space: the code points to which Unicode gives the
/// property `White_Space`.
pub open spec fn is_space(c: char) -> bool {
    let n = c as u32;
    ||| 0x09 <= n <= 0x0d
    ||| n == 0x20
    ||| n == 0x85
    ||| n == 0xa0
    ||| n == 0x1680
    ||| 0x2000 <= n <= 0x200a
    ||| n == 0x2028
    ||| n == 0x2029
    ||| n == 0x202f
    ||| n == 0x205f
    ||| n == 0x3000
}

/// Whether `c` is a bullet marker.
pub open spec fn is_bullet(c: char) -> bool {
    c == '*' || c == '-'
}

/// `line` without the carriage return at its end, if it ends in one.
pub open spec fn strip_return(line: Seq<char>) -> Seq<char> {
    if line.len() > 0 && line.last() == '\r' {
        line.drop_last()
    } else {
        line
    }
}

/// What stands in `text` after its last newline: the line that no newline
/// has closed yet.
pub open spec fn open_line(text: Seq<char>) -> Seq<char>
    decreases text.len(),
{
    if text.len() == 0 || text.last() == '\n' {
        Seq::empty()
    } else {
        open_line(text.drop_last()).push(text.last())
    }
}

/// The lines of `text` that a newline closes, each without that newline and
/// without a carriage return in front of it.
pub open spec fn closed_lines(text: Seq<char>) -> Seq<Seq<char>>
    decreases text.len(),
{
    if text.len() == 0 {
        Seq::empty()
    } else if text.last() == '\n' {
        closed_lines(text.drop_last()).push(strip_return(open_line(text.drop_last())))
    } else {
        closed_lines(text.drop_last())
    }
}

/// The lines of `text`. A newline, or a carriage return and a newline, ends
/// a line; what follows the last newline is a line of its own unless it is
/// empty.
pub open spec fn lines_of(text: Seq<char>) -> Seq<Seq<char>> {
    if open_line(text).len() > 0 {
        closed_lines(text).push(open_line(text))
    } else {
        closed_lines(text)
    }
}

/// The first position at or after `from` at which `line` holds no white
/// space, or the length of `line` if there is none.
pub open spec fn space_run(line: Seq<char>, from: int) -> int
    decreases line.len() - from,
{
    if 0 <= from < line.len() && is_space(line[from]) {
        space_run(line, from + 1)
    } else {
        from
    }
}

/// Whether `line` holds nothing but white space.
pub open spec fn is_blank(line: Seq<char>) -> bool {
    forall|i: int| 0 <= i < line.len() ==> is_space(#[trigger] line[i])
}

/// The indent width of `line`: the number of white space characters at its
/// front.
pub open spec fn indent_width(line: Seq<char>) -> int {
    space_run(line, 0)
}

/// Where the name starts in `line`: behind the indent, and behind the bullet
/// and its white space if a bullet follows the indent.
pub open spec fn name_start(line: Seq<char>) -> int {
    let width = indent_width(line);
    if width < line.len() && is_bullet(line[width]) {
        space_run(line, width + 1)
    } else {
        width
    }
}

/// The name of the entry on `line`: the line from the start of the name on.
pub open spec fn entry_name(line: Seq<char>) -> Seq<char> {
    line.skip(name_start(line))
}

/// `line` with the white space at its front written twice: the same entry,
/// indented twice as wide.
pub open spec fn widened(line: Seq<char>) -> Seq<char> {
    line.take(indent_width(line)) + line
}

/// What `space_run` returns lies between `from` and the end of the line, only
/// white space stands before it, and none stands at it.
pub proof fn lemma_space_run(line: Seq<char>, from: int)
    requires
        0 <= from <= line.len(),
    ensures
        from <= space_run(line, from) <= line.len(),
        forall|i: int| from <= i < space_run(line, from) ==> is_space(#[trigger] line[i]),
        space_run(line, from) < line.len() ==> !is_space(line[space_run(line, from)]),
    decreases line.len() - from,
{
    if from < line.len() && is_space(line[from]) {
        lemma_space_run(line, from + 1);
    }
}

/// A line is blank exactly if its white space runs to its end.
pub proof fn lemma_blank_is_full_indent(line: Seq<char>)
    ensures
        is_blank(line) <==> indent_width(line) == line.len(),
{
    lemma_space_run(line, 0);
}

/// Tests a character for white space.
pub fn char_is_space(c: char) -> (b: bool)
    ensures
        b == is_space(c),
{
    let n: u32 = c as u32;
    (0x09 <= n && n <= 0x0d) || n == 0x20 || n == 0x85 || n == 0xa0 || n == 0x1680 || (0x2000 <= n
        && n <= 0x200a) || n == 0x2028 || n == 0x2029 || n == 0x202f || n == 0x205f || n == 0x3000
}

/// Tests a character for a bullet marker.
pub fn char_is_bullet(c: char) -> (b: bool)
    ensures
        b == is_bullet(c),
{
    c == '*' || c == '-'
}

/// The position of the first character at or after `from` that is no white
/// space: the end of the line if only white space follows, and `from` itself
/// if `from` lies behind the line.
pub fn skip_space(line: &Vec<char>, from: usize) -> (end: usize)
    ensures
        end == space_run(line@, from as int),
        from <= end,
        from <= line@.len() ==> end <= line@.len(),
{
    let mut at: usize = from;
    while at < line.len() && char_is_space(line[at])
        invariant
            from <= at,
            from <= line@.len() ==> at <= line@.len(),
            space_run(line@, from as int) == space_run(line@, at as int),
        decreases line@.len() - at,
    {
        at += 1;
    }
    at
}

/// `String::push` of the standard library appends the character to the
/// string and changes nothing else of it.
pub assume_specification[ String::push ](s: &mut String, c: char)
    ensures
        final(s)@ == old(s)@.push(c),
;

/// The characters of `line` from position `from` on, as a string: the empty
/// string if `from` lies behind the line.
pub fn text_from(line: &Vec<char>, from: usize) -> (text: String)
    ensures
        from <= line@.len() ==> text@ == line@.skip(from as int),
        from > line@.len() ==> text@ == Seq::<char>::empty(),
{
    let mut text = String::new();
    if from > line.len() {
        return text;
    }
    let mut at: usize = from;
    assert(line@.subrange(from as int, from as int) =~= Seq::empty());
    while at < line.len()
        invariant
            from <= at <= line@.len(),
            text@ == line@.subrange(from as int, at as int),
        decreases line@.len() - at,
    {
        text.push(line[at]);
        at += 1;
        assert(line@.subrange(from as int, at as int) == line@.subrange(
            from as int,
            at as int - 1,
        ).push(line@[at as int - 1]));
    }
    assert(line@.subrange(from as int, at as int) == line@.skip(from as int));
    text
}

/// The lines of `lines` as sequences of characters.
pub open spec fn line_views(lines: Seq<Vec<char>>) -> Seq<Seq<char>> {
    lines.map_values(|line: Vec<char>| line@)
}

/// Cuts `input` into its lines.
pub fn split_lines(input: &str) -> (lines: Vec<Vec<char>>)
    ensures
        line_views(lines@) == lines_of(input@),
{
    let mut lines: Vec<Vec<char>> = Vec::new();
    let mut line: Vec<char> = Vec::new();
    for c in it: input.chars()
        invariant
            it.seq() == input@,
            line_views(lines@) == closed_lines(input@.take(it.index() as int)),
            line@ == open_line(input@.take(it.index() as int)),
    {
        proof {
            let seen = input@.take(it.index() as int + 1);
            assert(seen.drop_last() == input@.take(it.index() as int));
            assert(seen.last() == c);
        }
        if c == '\n' {
            let n: usize = line.len();
            if n > 0 && line[n - 1] == '\r' {
                line.pop();
            }
            lines.push(line);
            line = Vec::new();
        } else {
            line.push(c);
        }
    }
    assert(input@.take(input@.len() as int) == input@);
    if line.len() > 0 {
        lines.push(line);
    }
    lines
}

} // verus!
