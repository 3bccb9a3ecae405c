//! The mathematical model of an outline: what a node is, and which tree a
//! sequence of line records stands for.

use vstd::prelude::*;

verus! {

/// A node of an outline as a mathematical value. A line record is a node
/// that has no children yet.
pub struct Outline {
    /// The text of the entry.
    pub name: Seq<char>,
    /// The nodes directly below this one, in the order of their lines.
    pub children: Seq<Outline>,
    /// The indent width of the line that the node came from.
    pub indent: int,
}

/// The indent of the root, which stands for no line: lower than the indent of
/// any line.
pub const ROOT_INDENT: isize = -1;

/// How many records at the front of `recs` lie below a line of indent
/// `bound`: the length of the longest prefix in which every record is
/// indented deeper than `bound`.
pub open spec fn span(recs: Seq<Outline>, bound: int) -> nat
    decreases recs.len(),
{
    if recs.len() == 0 || recs[0].indent <= bound {
        0
    } else {
        1 + span(recs.drop_first(), bound)
    }
}

/// `node` with `more` added behind the children it has.
pub open spec fn adopt(node: Outline, more: Seq<Outline>) -> Outline {
    Outline { name: node.name, children: node.children + more, indent: node.indent }
}

/// The trees that a block of records stands for. The first record heads the
/// first tree and owns the records that follow it for as long as they are
/// indented deeper than it is; what is left of the block stands for the
/// trees that come after.
pub open spec fn forest(recs: Seq<Outline>) -> Seq<Outline>
    decreases recs.len(),
    via forest_terminates
{
    if recs.len() == 0 {
        Seq::empty()
    } else {
        let head = recs[0];
        let rest = recs.drop_first();
        let below = span(rest, head.indent) as int;
        seq![adopt(head, forest(rest.take(below)))] + forest(rest.skip(below))
    }
}

#[via_fn]
proof fn forest_terminates(recs: Seq<Outline>) {
    if recs.len() != 0 {
        lemma_span_bounds(recs.drop_first(), recs[0].indent);
    }
}

/// A span stops at the first record that is not deeper than the bound, or at
/// the end of the records.
pub proof fn lemma_span_bounds(recs: Seq<Outline>, bound: int)
    ensures
        span(recs, bound) <= recs.len(),
        forall|i: int| 0 <= i < span(recs, bound) ==> (#[trigger] recs[i]).indent > bound,
        span(recs, bound) < recs.len() ==> recs[span(recs, bound) as int].indent <= bound,
    decreases recs.len(),
{
    if recs.len() != 0 && recs[0].indent > bound {
        let rest = recs.drop_first();
        lemma_span_bounds(rest, bound);
        assert forall|i: int| 0 <= i < span(recs, bound) implies (#[trigger] recs[i]).indent
            > bound by {
            if i > 0 {
                assert(recs[i] == rest[i - 1]);
            }
        }
    }
}

/// The tree that hangs the nodes of `forest` below a root. The root stands for no
/// line and is never drawn.
pub open spec fn rooted(forest: Seq<Outline>) -> Outline {
    Outline { name: "root"@, children: forest, indent: ROOT_INDENT as int }
}

/// Whether none of `recs` has children, as the records of lines have none.
pub open spec fn are_leaves(recs: Seq<Outline>) -> bool {
    forall|i: int| 0 <= i < recs.len() ==> (#[trigger] recs[i]).children.len() == 0
}

/// `node` without its children: the record of its line.
pub open spec fn bare(node: Outline) -> Outline {
    Outline { name: node.name, children: Seq::empty(), indent: node.indent }
}

/// The number of nodes in `nodes` and below them.
pub open spec fn count(nodes: Seq<Outline>) -> nat
    decreases nodes,
{
    if nodes.len() == 0 {
        0
    } else {
        1 + count(nodes[0].children) + count(nodes.drop_first())
    }
}

/// The records of the nodes in `nodes` and below them in reading order: a
/// node, then all below it, then the node after it.
pub open spec fn reading_order(nodes: Seq<Outline>) -> Seq<Outline>
    decreases nodes,
{
    if nodes.len() == 0 {
        Seq::empty()
    } else {
        seq![bare(nodes[0])] + reading_order(nodes[0].children) + reading_order(
            nodes.drop_first(),
        )
    }
}

/// For each node in reading order, the place of its parent in reading order.
/// The first of `nodes` has the place `first`; the nodes of `nodes`
/// themselves hang below `owner`.
pub open spec fn parents(nodes: Seq<Outline>, first: int, owner: int) -> Seq<int>
    decreases nodes,
{
    if nodes.len() == 0 {
        Seq::empty()
    } else {
        seq![owner] + parents(nodes[0].children, first + 1, first) + parents(
            nodes.drop_first(),
            first + 1 + count(nodes[0].children),
            owner,
        )
    }
}

/// For each node in reading order, its depth, where the nodes of `nodes`
/// themselves have the depth `depth`.
pub open spec fn depths(nodes: Seq<Outline>, depth: int) -> Seq<int>
    decreases nodes,
{
    if nodes.len() == 0 {
        Seq::empty()
    } else {
        seq![depth] + depths(nodes[0].children, depth + 1) + depths(nodes.drop_first(), depth)
    }
}

/// The place of the last record before the place `end` that is indented
/// less than `indent`, or -1 if there is none.
pub open spec fn last_shallower(recs: Seq<Outline>, indent: int, end: int) -> int
    decreases end,
{
    if end <= 0 {
        -1
    } else if recs[end - 1].indent < indent {
        end - 1
    } else {
        last_shallower(recs, indent, end - 1)
    }
}

/// The place of the record below which the record at place `i` belongs: the
/// nearest record before it that is indented less than it is. It is -1 if
/// there is none; the record then belongs below the root.
pub open spec fn parent_line(recs: Seq<Outline>, i: int) -> int {
    last_shallower(recs, recs[i].indent, i)
}

/// How many records stand above the record at place `i`: its parent line,
/// the parent line of that, and so on.
pub open spec fn lines_above(recs: Seq<Outline>, i: int) -> nat
    decreases i,
    via lines_above_terminates
{
    if 0 <= i < recs.len() && parent_line(recs, i) >= 0 {
        1 + lines_above(recs, parent_line(recs, i))
    } else {
        0
    }
}

#[via_fn]
proof fn lines_above_terminates(recs: Seq<Outline>, i: int) {
    if 0 <= i < recs.len() {
        lemma_last_shallower(recs, recs[i].indent, i);
    }
}

/// What `last_shallower` finds is shallower, lies before `end`, and nothing
/// between it and `end` is shallower.
pub proof fn lemma_last_shallower(recs: Seq<Outline>, indent: int, end: int)
    requires
        end <= recs.len(),
    ensures
        -1 <= last_shallower(recs, indent, end),
        end > 0 ==> last_shallower(recs, indent, end) < end,
        last_shallower(recs, indent, end) >= 0 ==> recs[last_shallower(recs, indent, end)].indent
            < indent,
        forall|j: int|
            last_shallower(recs, indent, end) < j < end ==> (#[trigger] recs[j]).indent >= indent,
    decreases end,
{
    if end > 0 && recs[end - 1].indent >= indent {
        lemma_last_shallower(recs, indent, end - 1);
    }
}

/// Only one place is that of the last shallower record.
pub proof fn lemma_last_shallower_is(recs: Seq<Outline>, indent: int, end: int, place: int)
    requires
        end <= recs.len(),
        -1 <= place,
        place < end || (place == -1 && end <= 0),
        place >= 0 ==> recs[place].indent < indent,
        forall|j: int| place < j < end ==> (#[trigger] recs[j]).indent >= indent,
    ensures
        last_shallower(recs, indent, end) == place,
    decreases end,
{
    if end > 0 && place != end - 1 {
        assert(recs[end - 1].indent >= indent);
        lemma_last_shallower_is(recs, indent, end - 1, place);
    }
}

/// The shape of `nodes`: the same names in the same tree, with every indent
/// put to zero.
pub open spec fn shape(nodes: Seq<Outline>) -> Seq<Outline>
    decreases nodes,
{
    if nodes.len() == 0 {
        Seq::empty()
    } else {
        seq![Outline { name: nodes[0].name, children: shape(nodes[0].children), indent: 0 }]
            + shape(nodes.drop_first())
    }
}

/// The names of `recs`, in their order.
pub open spec fn names(recs: Seq<Outline>) -> Seq<Seq<char>> {
    recs.map_values(|rec: Outline| rec.name)
}

/// Whether the indents of two blocks of records stand in the same order:
/// the blocks are of one length, and wherever one record is indented less
/// than another in `a`, so it is in `b`.
pub open spec fn same_order(a: Seq<Outline>, b: Seq<Outline>) -> bool {
    &&& a.len() == b.len()
    &&& forall|i: int, j: int|
        #![trigger a[i], b[j]]
        0 <= i < a.len() && 0 <= j < a.len() ==> (a[i].indent < a[j].indent <==> b[i].indent
            < b[j].indent)
}

/// Whether two blocks of records hold the same names in the same order.
pub open spec fn same_names(a: Seq<Outline>, b: Seq<Outline>) -> bool {
    &&& a.len() == b.len()
    &&& forall|i: int| 0 <= i < a.len() ==> (#[trigger] a[i]).name == b[i].name
}

} // verus!
