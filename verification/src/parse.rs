//! Parsing: from the text of an outline to the tree of its entries.

use vstd::prelude::*;
use crate::lines::{
    char_is_bullet, entry_name, indent_width, is_blank, lemma_blank_is_full_indent,
    lemma_space_run, line_views, lines_of, skip_space, split_lines, text_from,
};
use crate::outline::{adopt, forest, lemma_span_bounds, rooted, span, Outline, ROOT_INDENT};

verus! {

/// A node of the parsed outline: an entry, the entries below it, and the
/// indent width of its line.
#[derive(Debug, PartialEq, Eq)]
pub struct FileStructure {
    pub name: String,
    pub children: Vec<FileStructure>,
    pub indent_count: isize,
}

/// The node as a mathematical value.
pub open spec fn outline_of(node: FileStructure) -> Outline
    decreases node,
{
    Outline {
        name: node.name@,
        children: Seq::new(
            node.children@.len(),
            |i: int|
                if 0 <= i < node.children@.len() {
                    outline_of(node.children@[i])
                } else {
                    arbitrary()
                },
        ),
        indent: node.indent_count as int,
    }
}

impl View for FileStructure {
    type V = Outline;

    open spec fn view(&self) -> Outline {
        outline_of(*self)
    }
}

impl Clone for FileStructure {
    /// A copy of the node and of everything below it.
    fn clone(&self) -> (copy: Self)
        ensures
            copy@ == self@,
        decreases self,
    {
        let mut children: Vec<FileStructure> = Vec::new();
        let mut i: usize = 0;
        while i < self.children.len()
            invariant
                i <= self.children.len(),
                children@.len() == i,
                forall|k: int| 0 <= k < i ==> (#[trigger] children@[k])@ == self.children@[k]@,
            decreases self.children.len() - i,
        {
            let child = self.children[i].clone();
            children.push(child);
            i += 1;
        }
        let copy = FileStructure {
            name: self.name.clone(),
            children,
            indent_count: self.indent_count,
        };
        assert(copy@.children =~= self@.children);
        copy
    }
}

/// The nodes of `nodes` as mathematical values.
pub open spec fn views(nodes: Seq<FileStructure>) -> Seq<Outline> {
    nodes.map_values(|n: FileStructure| n@)
}

/// The indent that a node keeps for a line of indent width `width`: the
/// width itself, or the greatest `isize` if the width is beyond it.
pub open spec fn stored_indent(width: int) -> int {
    if width <= isize::MAX {
        width
    } else {
        isize::MAX as int
    }
}

/// The record of a line that is not blank: its name and its indent, and no
/// children.
pub open spec fn record_of(line: Seq<char>) -> Outline {
    Outline {
        name: entry_name(line),
        children: Seq::empty(),
        indent: stored_indent(indent_width(line)),
    }
}

/// The records of `lines`: one for each line that is not blank, in the order
/// of the lines.
pub open spec fn records_of(lines: Seq<Seq<char>>) -> Seq<Outline> {
    lines.filter(|line: Seq<char>| !is_blank(line)).map_values(|line: Seq<char>| record_of(line))
}

/// The tree that the text of an outline stands for.
pub open spec fn tree_of(text: Seq<char>) -> Outline {
    rooted(forest(records_of(lines_of(text))))
}

/// The indent to keep for an indent width.
pub fn width_to_indent(width: usize) -> (indent: isize)
    ensures
        indent == stored_indent(width as int),
{
    if width <= isize::MAX as usize {
        width as isize
    } else {
        isize::MAX
    }
}

/// Reads one line: nothing if the line is blank, else its record.
pub fn scan_line(line: &Vec<char>) -> (record: Option<FileStructure>)
    ensures
        record is None <==> is_blank(line@),
        record matches Some(r) ==> r@ == record_of(line@),
{
    let width: usize = skip_space(line, 0);
    proof {
        lemma_blank_is_full_indent(line@);
    }
    if width == line.len() {
        return None;
    }
    let start: usize = if char_is_bullet(line[width]) {
        skip_space(line, width + 1)
    } else {
        width
    };
    let record = FileStructure {
        name: text_from(line, start),
        children: Vec::new(),
        indent_count: width_to_indent(width),
    };
    assert(record@.children =~= Seq::empty());
    Some(record)
}

/// Scans the text of an outline: one record for each line that is not blank,
/// in the order of the lines.
pub fn split_input(input: &str) -> (records: Vec<FileStructure>)
    ensures
        views(records@) == records_of(lines_of(input@)),
{
    let lines = split_lines(input);
    let mut records: Vec<FileStructure> = Vec::new();
    let mut at: usize = 0;
    assert(line_views(lines@).take(0) =~= Seq::empty());
    assert(views(records@) =~= records_of(Seq::empty())) by {
        reveal(Seq::filter);
    }
    while at < lines.len()
        invariant
            at <= lines@.len(),
            views(records@) == records_of(line_views(lines@).take(at as int)),
        decreases lines@.len() - at,
    {
        let ghost before = line_views(lines@).take(at as int);
        let ghost keep = |line: Seq<char>| !is_blank(line);
        proof {
            assert(line_views(lines@).take(at as int + 1) =~= before.push(lines@[at as int]@));
            before.lemma_filter_push(lines@[at as int]@, keep);
        }
        match scan_line(&lines[at]) {
            Some(record) => {
                proof {
                    assert(views(records@.push(record)) =~= views(records@).push(record@));
                    assert(before.filter(keep).push(lines@[at as int]@).map_values(
                        |line: Seq<char>| record_of(line),
                    ) =~= before.filter(keep).map_values(|line: Seq<char>| record_of(line)).push(
                        record@,
                    ));
                }
                records.push(record);
            },
            None => {},
        }
        at += 1;
    }
    assert(line_views(lines@).take(at as int) =~= line_views(lines@));
    records
}

/// A cursor over line records: the records that have not been read yet, in
/// the order of their lines.
pub struct Cursor {
    /// The unread records, the next one last.
    unread: Vec<FileStructure>,
}

impl View for Cursor {
    type V = Seq<Outline>;

    closed spec fn view(&self) -> Seq<Outline> {
        views(self.unread@).reverse()
    }
}

impl Cursor {
    /// A cursor in front of the first of `records`.
    pub fn new(records: Vec<FileStructure>) -> (cursor: Cursor)
        ensures
            cursor@ == views(records@),
    {
        let mut records = records;
        let mut unread: Vec<FileStructure> = Vec::new();
        let ghost all = views(records@);
        assert(views(unread@) =~= all.skip(all.len() as int).reverse());
        loop
            invariant
                records@.len() <= all.len(),
                views(records@) == all.take(records@.len() as int),
                views(unread@) == all.skip(records@.len() as int).reverse(),
            ensures
                views(unread@) == all.reverse(),
            decreases records@.len(),
        {
            let ghost left = records@.len() as int;
            match records.pop() {
                Some(record) => {
                    proof {
                        assert(all[left - 1] == record@) by {
                            assert(all.take(left)[left - 1] == record@);
                        }
                        assert(views(records@) =~= all.take(left - 1));
                        assert(views(unread@.push(record)) =~= views(unread@).push(record@));
                        assert(all.skip(left - 1) =~= seq![record@] + all.skip(left));
                        lemma_reverse_front(all.skip(left), record@);
                    }
                    unread.push(record);
                },
                None => {
                    assert(all.skip(0) =~= all);
                    break ;
                },
            }
        }
        assert(all.reverse().reverse() =~= all);
        Cursor { unread }
    }

    /// The next record, if any is left. The cursor stays where it is.
    pub fn peek(&self) -> (next: Option<&FileStructure>)
        ensures
            next is None <==> self@.len() == 0,
            next matches Some(record) ==> record@ == self@[0],
    {
        let left: usize = self.unread.len();
        if left == 0 {
            None
        } else {
            Some(&self.unread[left - 1])
        }
    }

    /// The next record, if any is left. The cursor moves behind it.
    pub fn next(&mut self) -> (next: Option<FileStructure>)
        ensures
            next is None <==> old(self)@.len() == 0,
            next is None ==> final(self)@ == old(self)@,
            next matches Some(record) ==> record@ == old(self)@[0] && final(self)@ == old(
                self,
            )@.drop_first(),
    {
        let ghost before = views(self.unread@);
        let next = self.unread.pop();
        proof {
            if next is Some {
                assert(views(self.unread@) =~= before.drop_last());
                assert(before.drop_last().reverse() =~= before.reverse().drop_first());
            }
        }
        next
    }
}

/// Reversed, what stood first stands last.
proof fn lemma_reverse_front(recs: Seq<Outline>, first: Outline)
    ensures
        (seq![first] + recs).reverse() == recs.reverse().push(first),
{
    let whole = seq![first] + recs;
    assert forall|i: int| 0 <= i < whole.len() implies whole.reverse()[i] == recs.reverse().push(
        first,
    )[i] by {
        if i < recs.len() {
            assert(whole[whole.len() - 1 - i] == recs[recs.len() - 1 - i]);
        }
    }
    assert(whole.reverse() =~= recs.reverse().push(first));
}

/// A span does not see what lies behind its end.
pub proof fn lemma_span_take(recs: Seq<Outline>, bound: int, end: int)
    requires
        0 <= end <= recs.len(),
        end < recs.len() ==> recs[end].indent <= bound,
    ensures
        span(recs.take(end), bound) == span(recs, bound),
    decreases end,
{
    if end > 0 && recs[0].indent > bound {
        assert(recs.take(end).drop_first() =~= recs.drop_first().take(end - 1));
        lemma_span_take(recs.drop_first(), bound, end - 1);
    }
}

/// The first tree of the block that runs from `done` up to `below`, where
/// `below` ends a span of `recs`: its head is the record at `done`, and below
/// the head hangs what the span of the head holds, seen from the record
/// that follows the head.
pub proof fn lemma_first_tree(recs: Seq<Outline>, bound: int, done: int, below: int)
    requires
        0 <= done < below <= recs.len(),
        forall|i: int| 0 <= i < below ==> (#[trigger] recs[i]).indent > bound,
        below < recs.len() ==> recs[below].indent <= bound,
    ensures
        ({
            let head = recs[done];
            let tail = recs.skip(done + 1);
            let inner = span(tail, head.indent) as int;
            &&& done + 1 + inner <= below
            &&& forest(recs.subrange(done, below)) == seq![adopt(head, forest(tail.take(inner)))]
                + forest(recs.subrange(done + 1 + inner, below))
        }),
{
    let head = recs[done];
    let tail = recs.skip(done + 1);
    let block = recs.subrange(done, below);
    let rest = block.drop_first();
    assert(block[0] == head);
    assert(rest =~= tail.take(below - done - 1));
    lemma_span_take(tail, head.indent, below - done - 1);
    lemma_span_bounds(rest, head.indent);
    let inner = span(tail, head.indent) as int;
    assert(rest.take(inner) =~= tail.take(inner));
    assert(rest.skip(inner) =~= recs.subrange(done + 1 + inner, below));
}

/// Hangs below `node` the records at the cursor that belong there: those
/// that follow for as long as they are indented deeper than `node`. Each of
/// them takes along, in the same way, the records that belong below it. The
/// cursor ends up in front of the first record that does not belong below
/// `node`.
pub fn create_node(node: FileStructure, iter: &mut Cursor) -> (grown: FileStructure)
    ensures
        grown@ == adopt(node@, forest(old(iter)@.take(span(old(iter)@, node@.indent) as int))),
        final(iter)@ == old(iter)@.skip(span(old(iter)@, node@.indent) as int),
    decreases old(iter)@.len(),
{
    let mut node = node;
    let ghost first = node@;
    let ghost recs = iter@;
    let ghost bound = first.indent;
    let ghost below = span(recs, bound) as int;
    let ghost done: int = 0;
    proof {
        lemma_span_bounds(recs, bound);
        assert(recs.skip(0) =~= recs);
        assert(recs.subrange(0, below) =~= recs.take(below));
    }
    loop
        invariant
            recs == old(iter)@,
            bound == first.indent,
            0 <= done <= below <= recs.len(),
            forall|i: int| 0 <= i < below ==> (#[trigger] recs[i]).indent > bound,
            below < recs.len() ==> recs[below].indent <= bound,
            iter@ == recs.skip(done),
            node@.name == first.name,
            node@.indent == bound,
            node@.children + forest(recs.subrange(done, below)) == first.children + forest(
                recs.take(below),
            ),
        ensures
            iter@ == recs.skip(below),
            node@ == adopt(first, forest(recs.take(below))),
        decreases recs.len() - done,
    {
        let deeper = match iter.peek() {
            Some(next) => next.indent_count > node.indent_count,
            None => false,
        };
        if !deeper {
            proof {
                assert(done == below);
                assert(recs.subrange(done, below) =~= Seq::empty());
                assert(node@.children + Seq::<Outline>::empty() =~= node@.children);
            }
            break ;
        }
        let next = iter.next().unwrap();
        let ghost inner = span(recs.skip(done + 1), recs[done].indent) as int;
        proof {
            lemma_first_tree(recs, bound, done, below);
            assert(iter@ =~= recs.skip(done + 1));
        }
        let child = create_node(next, iter);
        let ghost before = node@.children;
        node.children.push(child);
        proof {
            assert(node@.children =~= before.push(child@));
            assert(before.push(child@) + forest(recs.subrange(done + 1 + inner, below)) =~= before
                + forest(recs.subrange(done, below)));
            assert(iter@ =~= recs.skip(done + 1 + inner));
            done = done + 1 + inner;
        }
    }
    node
}

/// Parses the text of an outline. The result is the root, which stands for
/// no line; the entries of the outline hang below it.
pub fn parse_tree(input: &str) -> (root: FileStructure)
    ensures
        root@ == tree_of(input@),
{
    let structures = split_input(input);
    let mut structures = Cursor::new(structures);
    let root = FileStructure {
        name: "root".to_string(),
        children: vec![],
        indent_count: ROOT_INDENT,
    };
    proof {
        let recs = records_of(lines_of(input@));
        lemma_records_indent(lines_of(input@));
        lemma_span_bounds(recs, ROOT_INDENT as int);
        assert(recs.take(recs.len() as int) =~= recs);
        assert(root@.children =~= Seq::empty());
        assert(Seq::<Outline>::empty() + forest(recs) =~= forest(recs));
    }
    create_node(root, &mut structures)
}

/// No record has an indent below zero, and none has children.
pub proof fn lemma_records_indent(lines: Seq<Seq<char>>)
    ensures
        forall|i: int|
            0 <= i < records_of(lines).len() ==> {
                &&& 0 <= (#[trigger] records_of(lines)[i]).indent
                &&& records_of(lines)[i].children.len() == 0
            },
{
    let kept = lines.filter(|line: Seq<char>| !is_blank(line));
    assert forall|i: int| 0 <= i < records_of(lines).len() implies {
        &&& 0 <= (#[trigger] records_of(lines)[i]).indent
        &&& records_of(lines)[i].children.len() == 0
    } by {
        lemma_space_run(kept[i], 0);
    }
}

} // verus!
