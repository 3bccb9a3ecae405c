//! What holds of every outline: laws of the line grammar and of the tree
//! that parsing builds, each proved from the definitions.

use vstd::prelude::*;
use crate::lines::{
    closed_lines, entry_name, indent_width, is_blank, is_bullet, is_space,
    lemma_blank_is_full_indent, lemma_space_run, lines_of, name_start, open_line, space_run,
    strip_return, widened,
};
use crate::outline::{
    adopt, are_leaves, bare, count, depths, forest, last_shallower, lemma_last_shallower,
    lemma_last_shallower_is, lemma_span_bounds, lines_above, names, parent_line, parents,
    reading_order, rooted, same_names, same_order, shape, span, Outline,
};
use crate::parse::{lemma_records_indent, record_of, records_of, stored_indent, tree_of};
use crate::render::{diagram_of, diagrams_of, label_depths, labels, Diagram};

verus! {

/// A text without a newline is its own open line, and no line of it is
/// closed.
pub proof fn lemma_one_line(text: Seq<char>)
    requires
        !text.contains('\n'),
    ensures
        open_line(text) == text,
        closed_lines(text) == Seq::<Seq<char>>::empty(),
    decreases text.len(),
{
    if text.len() > 0 {
        let front = text.drop_last();
        assert(text.last() != '\n') by {
            assert(text[text.len() - 1] == text.last());
        }
        assert(!front.contains('\n')) by {
            if front.contains('\n') {
                let i = choose|i: int| 0 <= i < front.len() && front[i] == '\n';
                assert(text[i] == '\n');
            }
        }
        lemma_one_line(front);
        assert(front.push(text.last()) =~= text);
    } else {
        assert(open_line(text) =~= text);
    }
}

/// A text of one line that is not blank parses to one entry without
/// children, whatever the indent of the line.
pub proof fn lemma_single_entry(line: Seq<char>)
    requires
        !line.contains('\n'),
        !is_blank(line),
    ensures
        tree_of(line) == rooted(seq![record_of(line)]),
{
    lemma_one_line(line);
    let lines = lines_of(line);
    assert(lines =~= seq![line]);
    let keep = |l: Seq<char>| !is_blank(l);
    assert(lines.filter(keep) =~= seq![line]) by {
        reveal_with_fuel(Seq::filter, 2);
        assert(lines.drop_last() =~= Seq::empty());
    }
    assert(records_of(lines) =~= seq![record_of(line)]);
    let recs = records_of(lines);
    let rest = recs.drop_first();
    assert(rest =~= Seq::empty());
    assert(rest.take(0) =~= Seq::empty());
    assert(rest.skip(0) =~= Seq::empty());
    assert(forest(rest.take(0)) =~= Seq::empty());
    assert(forest(rest.skip(0)) =~= Seq::empty());
    assert(record_of(line).children + Seq::<Outline>::empty() =~= Seq::empty());
    assert(forest(recs) =~= seq![record_of(line)]);
}

/// A text of one line that starts with neither white space nor a bullet
/// parses to one entry without children, named by the whole line.
pub proof fn lemma_single_line(line: Seq<char>)
    requires
        line.len() > 0,
        !line.contains('\n'),
        !is_space(line[0]),
        !is_bullet(line[0]),
    ensures
        tree_of(line) == rooted(seq![Outline { name: line, children: Seq::empty(), indent: 0 }]),
{
    lemma_single_entry(line);
    assert(entry_name(line) =~= line);
}

/// The indent of a line is the white space at its front and nothing else:
/// where `indent` is white space and `body` starts with none, the indent
/// width of `indent` and `body` in a row is the length of `indent`.
pub proof fn lemma_indent_width(indent: Seq<char>, body: Seq<char>)
    requires
        is_blank(indent),
        body.len() > 0 ==> !is_space(body[0]),
    ensures
        indent_width(indent + body) == indent.len(),
{
    let line = indent + body;
    lemma_space_run(line, 0);
    let width = space_run(line, 0);
    if width < indent.len() {
        assert(line[width] == indent[width]);
    } else if width > indent.len() {
        assert(line[indent.len() as int] == body[0]);
    }
}

/// A bullet does not count towards the indent, and neither it nor the white
/// space behind it is part of the name. Where `indent` and `gap` are white
/// space, `bullet` is a bullet and `body` starts with no white space, the line
/// made of the four in a row has the indent width of the line made of
/// `indent` and `body` alone, the length of `indent`, and `body` as its name.
pub proof fn lemma_bullet_keeps_indent(
    indent: Seq<char>,
    bullet: char,
    gap: Seq<char>,
    body: Seq<char>,
)
    requires
        is_blank(indent),
        is_bullet(bullet),
        is_blank(gap),
        body.len() > 0 ==> !is_space(body[0]),
    ensures
        indent_width(indent + seq![bullet] + gap + body) == indent.len(),
        indent_width(indent + seq![bullet] + gap + body) == indent_width(indent + body),
        entry_name(indent + seq![bullet] + gap + body) == body,
        body.len() > 0 && !is_bullet(body[0]) ==> entry_name(indent + body) == body,
{
    let line = indent + seq![bullet] + gap + body;
    let width = indent.len() as int;
    assert(line =~= indent + (seq![bullet] + gap + body));
    assert((seq![bullet] + gap + body)[0] == bullet);
    lemma_indent_width(indent, seq![bullet] + gap + body);
    lemma_indent_width(indent, body);
    assert(line[width] == bullet);
    // behind the bullet, the white space of `gap` runs up to `body`
    lemma_space_run(line, width + 1);
    let start = space_run(line, width + 1);
    if start < width + 1 + gap.len() {
        assert(line[start] == gap[start - width - 1]);
    } else if start > width + 1 + gap.len() {
        assert(line[width + 1 + gap.len()] == body[0]);
    }
    assert(name_start(line) == width + 1 + gap.len());
    assert(line.skip(width + 1 + gap.len()) =~= body);
    if body.len() > 0 && !is_bullet(body[0]) {
        let plain = indent + body;
        assert(plain[width] == body[0]);
        assert(plain.skip(width) =~= body);
    }
}

/// Blank lines leave no trace: with or without the lines of `gap`, all of
/// them blank, between the lines of `before` and those of `after`, the
/// records are the same.
pub proof fn lemma_blank_lines_vanish(
    before: Seq<Seq<char>>,
    gap: Seq<Seq<char>>,
    after: Seq<Seq<char>>,
)
    requires
        forall|i: int| 0 <= i < gap.len() ==> is_blank(#[trigger] gap[i]),
    ensures
        records_of(before + gap + after) == records_of(before + after),
{
    let keep = |line: Seq<char>| !is_blank(line);
    Seq::filter_distributes_over_add(before + gap, after, keep);
    Seq::filter_distributes_over_add(before, gap, keep);
    Seq::filter_distributes_over_add(before, after, keep);
    gap.lemma_all_neg_filter_empty(keep);
    assert(before.filter(keep) + gap.filter(keep) =~= before.filter(keep));
}

/// Every record stands for a line that is not blank.
pub proof fn lemma_records_are_lines(lines: Seq<Seq<char>>, i: int)
    requires
        0 <= i < records_of(lines).len(),
    ensures
        exists|k: int|
            0 <= k < lines.len() && !is_blank(#[trigger] lines[k]) && records_of(lines)[i]
                == record_of(lines[k]),
{
    let keep = |line: Seq<char>| !is_blank(line);
    let kept = lines.filter(keep);
    lines.lemma_filter_pred(keep, i);
    assert(kept.contains(kept[i]));
    lines.lemma_filter_contains_rev(keep, kept[i]);
    let k = choose|k: int| 0 <= k < lines.len() && lines[k] == kept[i];
    assert(!is_blank(lines[k]));
}

/// The parts of a block of leaves: the block behind its head falls into
/// what lies below the head and what comes after, both of them leaves, and
/// the forest of the block is the head over the forest of the first part,
/// followed by the forest of the second.
proof fn lemma_block_parts(recs: Seq<Outline>)
    requires
        recs.len() > 0,
        are_leaves(recs),
    ensures
        ({
            let rest = recs.drop_first();
            let below = span(rest, recs[0].indent) as int;
            &&& below <= rest.len()
            &&& are_leaves(rest.take(below))
            &&& are_leaves(rest.skip(below))
            &&& recs =~= seq![recs[0]] + rest.take(below) + rest.skip(below)
            &&& forest(recs).len() > 0
            &&& forest(recs)[0] == adopt(recs[0], forest(rest.take(below)))
            &&& forest(recs)[0].children == forest(rest.take(below))
            &&& bare(forest(recs)[0]) == recs[0]
            &&& forest(recs).drop_first() == forest(rest.skip(below))
            &&& forall|i: int| 0 <= i < below ==> (#[trigger] rest[i]).indent > recs[0].indent
            &&& below < rest.len() ==> rest[below].indent <= recs[0].indent
        }),
{
    let head = recs[0];
    let rest = recs.drop_first();
    lemma_span_bounds(rest, head.indent);
    let below = span(rest, head.indent) as int;
    let trees = forest(recs);
    assert(trees.drop_first() =~= forest(rest.skip(below)));
    assert(head.children =~= Seq::empty());
    assert(trees[0].children =~= forest(rest.take(below)));
    assert(forall|i: int| 0 <= i < below ==> rest.take(below)[i] == rest[i]);
    assert(forall|i: int| 0 <= i < rest.len() - below ==> rest.skip(below)[i] == rest[i + below]);
}

/// The tree keeps every line once and in its place: read node by node, each
/// before what is below it, the forest of a block of leaves gives the block
/// back.
pub proof fn lemma_reading_order(recs: Seq<Outline>)
    requires
        are_leaves(recs),
    ensures
        reading_order(forest(recs)) == recs,
        count(forest(recs)) == recs.len(),
    decreases recs.len(),
{
    if recs.len() > 0 {
        lemma_block_parts(recs);
        let rest = recs.drop_first();
        let below = span(rest, recs[0].indent) as int;
        lemma_reading_order(rest.take(below));
        lemma_reading_order(rest.skip(below));
    }
}

/// Where the parent of each node stands, for a block of leaves whose first
/// record has the place `first` and whose trees hang below `owner`: below
/// `owner` if no record of the block before the node is shallower than it,
/// else below the nearest such record.
pub proof fn lemma_parents_in_block(recs: Seq<Outline>, first: int, owner: int)
    requires
        are_leaves(recs),
    ensures
        parents(forest(recs), first, owner).len() == recs.len(),
        forall|i: int|
            0 <= i < recs.len() ==> #[trigger] parents(forest(recs), first, owner)[i] == (if parent_line(
                recs,
                i,
            ) < 0 {
                owner
            } else {
                first + parent_line(recs, i)
            }),
    decreases recs.len(),
{
    if recs.len() > 0 {
        lemma_block_parts(recs);
        let head = recs[0];
        let rest = recs.drop_first();
        let below = span(rest, head.indent) as int;
        let inner = rest.take(below);
        let after = rest.skip(below);
        lemma_reading_order(inner);
        lemma_parents_in_block(inner, first + 1, first);
        lemma_parents_in_block(after, first + 1 + below, owner);
        let found = parents(forest(recs), first, owner);
        let found_inner = parents(forest(inner), first + 1, first);
        let found_after = parents(forest(after), first + 1 + below, owner);
        assert(found == seq![owner] + found_inner + found_after);
        assert forall|i: int| 0 <= i < recs.len() implies #[trigger] found[i] == (if parent_line(
            recs,
            i,
        ) < 0 {
            owner
        } else {
            first + parent_line(recs, i)
        }) by {
            if i == 0 {
            } else if i <= below {
                let k = i - 1;
                assert(found[i] == found_inner[k]);
                assert(recs[i] == inner[k]);
                lemma_last_shallower(inner, inner[k].indent, k);
                let up = parent_line(inner, k);
                let place = if up < 0 {
                    0
                } else {
                    up + 1
                };
                assert forall|j: int| place < j < i implies (#[trigger] recs[j]).indent
                    >= recs[i].indent by {
                    assert(recs[j] == inner[j - 1]);
                }
                if up >= 0 {
                    assert(recs[place] == inner[up]);
                } else {
                    assert(inner[k] == rest[k]);
                }
                lemma_last_shallower_is(recs, recs[i].indent, i, place);
            } else {
                let k = i - 1 - below;
                assert(found[i] == found_after[k]);
                assert(recs[i] == after[k]);
                lemma_last_shallower(after, after[k].indent, k);
                let up = parent_line(after, k);
                let place = if up < 0 {
                    -1
                } else {
                    up + 1 + below
                };
                assert(after[0] == rest[below]);
                assert forall|j: int| place < j < i implies (#[trigger] recs[j]).indent
                    >= recs[i].indent by {
                    if j > below {
                        assert(recs[j] == after[j - 1 - below]);
                    } else {
                        // no record of the block is shallower than this one,
                        // so it is no deeper than the head
                        if k > 0 {
                            assert(after[0].indent >= after[k].indent);
                        }
                        if j > 0 {
                            assert(recs[j] == rest[j - 1]);
                        }
                    }
                }
                if up >= 0 {
                    assert(recs[place] == after[up]);
                }
                lemma_last_shallower_is(recs, recs[i].indent, i, place);
            }
        }
    }
}

/// An entry hangs below the nearest line before its own that is indented
/// less, and below the root if there is no such line. Read in reading order,
/// the parents of the nodes of the forest of `recs` are the parent lines of
/// the records.
pub proof fn lemma_parent_is_nearest_shallower(recs: Seq<Outline>)
    requires
        are_leaves(recs),
    ensures
        parents(forest(recs), 0, -1) == Seq::new(recs.len(), |i: int| parent_line(recs, i)),
{
    lemma_parents_in_block(recs, 0, -1);
    assert forall|i: int| 0 <= i < recs.len() implies #[trigger] parents(forest(recs), 0, -1)[i]
        == parent_line(recs, i) by {
        lemma_last_shallower(recs, recs[i].indent, i);
    }
    assert(parents(forest(recs), 0, -1) =~= Seq::new(recs.len(), |i: int| parent_line(recs, i)));
}

/// In any forest a node that hangs below `owner` has the depth of the
/// forest, and any other node is one deeper than its parent, which comes
/// before it in reading order.
pub proof fn lemma_depth_below_parent(nodes: Seq<Outline>, first: int, owner: int, depth: int)
    requires
        owner < first,
    ensures
        depths(nodes, depth).len() == count(nodes),
        parents(nodes, first, owner).len() == count(nodes),
        forall|i: int|
            0 <= i < count(nodes) ==> {
                let up = #[trigger] parents(nodes, first, owner)[i];
                if up == owner {
                    depths(nodes, depth)[i] == depth
                } else {
                    &&& first <= up < first + i
                    &&& depths(nodes, depth)[i] == depths(nodes, depth)[up - first] + 1
                }
            },
    decreases nodes,
{
    if nodes.len() > 0 {
        let below = nodes[0].children;
        let after = nodes.drop_first();
        let size = count(below) as int;
        lemma_depth_below_parent(below, first + 1, first, depth + 1);
        lemma_depth_below_parent(after, first + 1 + size, owner, depth);
        let ups = parents(nodes, first, owner);
        let ups_below = parents(below, first + 1, first);
        let ups_after = parents(after, first + 1 + size, owner);
        let deep = depths(nodes, depth);
        let deep_below = depths(below, depth + 1);
        let deep_after = depths(after, depth);
        assert(ups == seq![owner] + ups_below + ups_after);
        assert(deep == seq![depth] + deep_below + deep_after);
        assert forall|i: int| 0 <= i < count(nodes) implies {
            let up = #[trigger] ups[i];
            if up == owner {
                deep[i] == depth
            } else {
                &&& first <= up < first + i
                &&& deep[i] == deep[up - first] + 1
            }
        } by {
            if i == 0 {
            } else if i <= size {
                let k = i - 1;
                assert(ups[i] == ups_below[k]);
                assert(deep[i] == deep_below[k]);
                let up = ups_below[k];
                if up != first {
                    assert(deep[up - first] == deep_below[up - first - 1]);
                }
            } else {
                let k = i - 1 - size;
                assert(ups[i] == ups_after[k]);
                assert(deep[i] == deep_after[k]);
                let up = ups_after[k];
                if up != owner {
                    assert(deep[up - first] == deep_after[up - first - 1 - size]);
                }
            }
        }
    }
}

/// The depth of an entry is the number of lines above its own: its parent
/// line, the parent line of that, and so on up to a line that belongs below
/// the root.
pub proof fn lemma_depth_is_lines_above(recs: Seq<Outline>, i: int)
    requires
        are_leaves(recs),
        0 <= i < recs.len(),
    ensures
        depths(forest(recs), 0).len() == recs.len(),
        depths(forest(recs), 0)[i] == lines_above(recs, i),
    decreases i,
{
    lemma_reading_order(recs);
    lemma_parent_is_nearest_shallower(recs);
    lemma_depth_below_parent(forest(recs), 0, -1, 0);
    lemma_last_shallower(recs, recs[i].indent, i);
    let up = parent_line(recs, i);
    assert(parents(forest(recs), 0, -1)[i] == up);
    if up >= 0 {
        lemma_depth_is_lines_above(recs, up);
    }
}

/// Spans that meet the same comparisons have the same length.
proof fn lemma_span_same_order(a: Seq<Outline>, bound_a: int, b: Seq<Outline>, bound_b: int)
    requires
        a.len() == b.len(),
        forall|i: int|
            0 <= i < a.len() ==> ((#[trigger] a[i]).indent <= bound_a <==> b[i].indent <= bound_b),
    ensures
        span(a, bound_a) == span(b, bound_b),
    decreases a.len(),
{
    if a.len() > 0 {
        assert(a[0].indent <= bound_a <==> b[0].indent <= bound_b);
        if a[0].indent > bound_a {
            assert forall|i: int| 0 <= i < a.drop_first().len() implies ((
            #[trigger] a.drop_first()[i]).indent <= bound_a <==> b.drop_first()[i].indent
                <= bound_b) by {
                assert(a[i + 1].indent <= bound_a <==> b[i + 1].indent <= bound_b);
            }
            lemma_span_same_order(a.drop_first(), bound_a, b.drop_first(), bound_b);
        }
    }
}

/// Blocks whose indents stand in the same order fall into parts of the same
/// lengths, and the indents of the parts stand in the same order again.
proof fn lemma_same_order_parts(a: Seq<Outline>, b: Seq<Outline>)
    requires
        a.len() > 0,
        same_order(a, b),
    ensures
        ({
            let below = span(a.drop_first(), a[0].indent) as int;
            &&& below == span(b.drop_first(), b[0].indent)
            &&& same_order(a.drop_first().take(below), b.drop_first().take(below))
            &&& same_order(a.drop_first().skip(below), b.drop_first().skip(below))
        }),
{
    let rest_a = a.drop_first();
    let rest_b = b.drop_first();
    assert forall|i: int| 0 <= i < rest_a.len() implies ((#[trigger] rest_a[i]).indent
        <= a[0].indent <==> rest_b[i].indent <= b[0].indent) by {
        assert(a[0].indent < a[i + 1].indent <==> b[0].indent < b[i + 1].indent);
    }
    lemma_span_same_order(rest_a, a[0].indent, rest_b, b[0].indent);
    lemma_span_bounds(rest_a, a[0].indent);
    let below = span(rest_a, a[0].indent) as int;
    let left = rest_a.len() - below;
    assert forall|i: int, j: int|
        #![trigger rest_a.take(below)[i], rest_b.take(below)[j]]
        0 <= i < below && 0 <= j < below implies (rest_a.take(below)[i].indent < rest_a.take(
        below,
    )[j].indent <==> rest_b.take(below)[i].indent < rest_b.take(below)[j].indent) by {
        assert(a[i + 1].indent < a[j + 1].indent <==> b[i + 1].indent < b[j + 1].indent);
    }
    assert forall|i: int, j: int|
        #![trigger rest_a.skip(below)[i], rest_b.skip(below)[j]]
        0 <= i < left && 0 <= j < left implies (rest_a.skip(below)[i].indent < rest_a.skip(
        below,
    )[j].indent <==> rest_b.skip(below)[i].indent < rest_b.skip(below)[j].indent) by {
        assert(a[i + 1 + below].indent < a[j + 1 + below].indent <==> b[i + 1 + below].indent
            < b[j + 1 + below].indent);
    }
}

/// The tree depends on the indents only through their order: two blocks of
/// leaves with the same names, in which the same records are indented less
/// than the same others, stand for forests of one shape.
pub proof fn lemma_same_order_same_shape(a: Seq<Outline>, b: Seq<Outline>)
    requires
        are_leaves(a),
        are_leaves(b),
        same_order(a, b),
        same_names(a, b),
    ensures
        shape(forest(a)) == shape(forest(b)),
    decreases a.len(),
{
    if a.len() > 0 {
        lemma_block_parts(a);
        lemma_block_parts(b);
        lemma_same_order_parts(a, b);
        let rest_a = a.drop_first();
        let rest_b = b.drop_first();
        let below = span(rest_a, a[0].indent) as int;
        assert(same_names(rest_a.take(below), rest_b.take(below))) by {
            assert forall|i: int| 0 <= i < below implies (#[trigger] rest_a.take(below)[i]).name
                == rest_b.take(below)[i].name by {
                assert(a[i + 1].name == b[i + 1].name);
            }
        }
        assert(same_names(rest_a.skip(below), rest_b.skip(below))) by {
            assert forall|i: int| 0 <= i < rest_a.len() - below implies (#[trigger] rest_a.skip(
                below,
            )[i]).name == rest_b.skip(below)[i].name by {
                assert(a[i + 1 + below].name == b[i + 1 + below].name);
            }
        }
        lemma_same_order_same_shape(rest_a.take(below), rest_b.take(below));
        lemma_same_order_same_shape(rest_a.skip(below), rest_b.skip(below));
        assert(a[0].name == b[0].name);
    }
}

/// Whatever the names are: in two blocks of leaves whose indents stand in
/// the same order, every record has its parent at the same place.
pub proof fn lemma_same_order_same_parents(a: Seq<Outline>, b: Seq<Outline>)
    requires
        are_leaves(a),
        are_leaves(b),
        same_order(a, b),
    ensures
        parents(forest(a), 0, -1) == parents(forest(b), 0, -1),
{
    lemma_parent_is_nearest_shallower(a);
    lemma_parent_is_nearest_shallower(b);
    assert forall|i: int| 0 <= i < a.len() implies parent_line(a, i) == parent_line(b, i) by {
        lemma_last_shallower(a, a[i].indent, i);
        let up = parent_line(a, i);
        assert forall|j: int| up < j < i implies (#[trigger] b[j]).indent >= b[i].indent by {
            assert(a[j].indent >= a[i].indent);
            assert(a[j].indent < a[i].indent <==> b[j].indent < b[i].indent);
        }
        if up >= 0 {
            assert(a[up].indent < a[i].indent <==> b[up].indent < b[i].indent);
        }
        lemma_last_shallower_is(b, b[i].indent, i, up);
    }
    assert(parents(forest(a), 0, -1) =~= parents(forest(b), 0, -1));
}

/// Indents twice as wide stand in the same order.
pub proof fn lemma_doubled_indents(a: Seq<Outline>, b: Seq<Outline>)
    requires
        a.len() == b.len(),
        forall|i: int| 0 <= i < a.len() ==> (#[trigger] b[i]).indent == 2 * a[i].indent,
    ensures
        same_order(a, b),
{
    assert forall|i: int, j: int|
        #![trigger a[i], b[j]]
        0 <= i < a.len() && 0 <= j < a.len() implies (a[i].indent < a[j].indent <==> b[i].indent
        < b[j].indent) by {
        assert(b[i].indent == 2 * a[i].indent);
        assert(b[j].indent == 2 * a[j].indent);
    }
}

/// A run of white space is found at the same place whatever stands in front
/// of the line.
proof fn lemma_space_run_shift(front: Seq<char>, line: Seq<char>, from: int)
    requires
        0 <= from <= line.len(),
    ensures
        space_run(front + line, front.len() + from) == front.len() + space_run(line, from),
    decreases line.len() - from,
{
    let whole = front + line;
    if from < line.len() {
        assert(whole[front.len() + from] == line[from]);
        if is_space(line[from]) {
            lemma_space_run_shift(front, line, from + 1);
        }
    }
}

/// A widened line is blank if the line is; if it is not, the widened line
/// holds the same name behind an indent twice as wide.
pub proof fn lemma_widened_line(line: Seq<char>)
    ensures
        is_blank(widened(line)) == is_blank(line),
        !is_blank(line) ==> indent_width(widened(line)) == 2 * indent_width(line),
        !is_blank(line) ==> entry_name(widened(line)) == entry_name(line),
{
    let width = indent_width(line);
    let front = line.take(width);
    let wide = widened(line);
    lemma_space_run(line, 0);
    lemma_blank_is_full_indent(line);
    lemma_blank_is_full_indent(wide);
    assert(is_blank(front)) by {
        assert forall|i: int| 0 <= i < front.len() implies is_space(#[trigger] front[i]) by {
            assert(front[i] == line[i]);
        }
    }
    if is_blank(line) {
        assert(is_blank(wide)) by {
            assert forall|i: int| 0 <= i < wide.len() implies is_space(#[trigger] wide[i]) by {
                if i < width {
                    assert(wide[i] == front[i]);
                } else {
                    assert(wide[i] == line[i - width]);
                }
            }
        }
    } else {
        let body = line.skip(width);
        let indent = front + front;
        assert(wide =~= indent + body);
        assert(body[0] == line[width]);
        assert(is_blank(indent)) by {
            assert forall|i: int| 0 <= i < indent.len() implies is_space(#[trigger] indent[i]) by {
                if i < width {
                    assert(indent[i] == front[i]);
                } else {
                    assert(indent[i] == front[i - width]);
                }
            }
        }
        lemma_indent_width(indent, body);
        assert(wide[2 * width] == line[width]);
        if is_bullet(line[width]) {
            lemma_space_run_shift(front, line, width + 1);
            lemma_space_run(line, width + 1);
        }
        assert(name_start(wide) == width + name_start(line));
        assert(wide.skip(width + name_start(line)) =~= line.skip(name_start(line)));
    }
}

/// Widening the lines and dropping the blank ones comes to the same in
/// either order.
proof fn lemma_widened_kept(lines: Seq<Seq<char>>)
    ensures
        lines.map_values(|line: Seq<char>| widened(line)).filter(
            |line: Seq<char>| !is_blank(line),
        ) == lines.filter(|line: Seq<char>| !is_blank(line)).map_values(
            |line: Seq<char>| widened(line),
        ),
    decreases lines.len(),
{
    let keep = |line: Seq<char>| !is_blank(line);
    let widen = |line: Seq<char>| widened(line);
    if lines.len() == 0 {
        reveal(Seq::filter);
        assert(lines.map_values(widen).filter(keep) =~= lines.filter(keep).map_values(widen));
    } else {
        let front = lines.drop_last();
        let last = lines.last();
        lemma_widened_kept(front);
        lemma_widened_line(last);
        assert(lines =~= front.push(last));
        assert(lines.map_values(widen) =~= front.map_values(widen).push(widened(last)));
        front.lemma_filter_push(last, keep);
        front.map_values(widen).lemma_filter_push(widened(last), keep);
        if !is_blank(last) {
            assert(front.filter(keep).push(last).map_values(widen) =~= front.filter(
                keep,
            ).map_values(widen).push(widened(last)));
        }
    }
}

/// Indents twice as wide tell the same outline. Where every line has the
/// white space at its front written twice, and the wider indents can still
/// be stored, the records hold the same names behind indents twice as
/// wide, and their forest has the same shape.
pub proof fn lemma_widened_lines(lines: Seq<Seq<char>>)
    requires
        forall|i: int| 0 <= i < lines.len() ==> 2 * indent_width(#[trigger] lines[i]) <= isize::MAX,
    ensures
        ({
            let narrow = records_of(lines);
            let wide = records_of(lines.map_values(|line: Seq<char>| widened(line)));
            &&& same_names(narrow, wide)
            &&& same_order(narrow, wide)
            &&& forall|i: int|
                0 <= i < narrow.len() ==> (#[trigger] wide[i]).indent == 2 * narrow[i].indent
            &&& shape(forest(narrow)) == shape(forest(wide))
        }),
{
    let keep = |line: Seq<char>| !is_blank(line);
    let kept = lines.filter(keep);
    let narrow = records_of(lines);
    let wide_lines = lines.map_values(|line: Seq<char>| widened(line));
    let wide = records_of(wide_lines);
    lemma_widened_kept(lines);
    assert(narrow.len() == wide.len());
    assert forall|i: int| 0 <= i < narrow.len() implies (#[trigger] wide[i]).indent == 2
        * narrow[i].indent && narrow[i].name == wide[i].name by {
        lines.lemma_filter_pred(keep, i);
        assert(kept.contains(kept[i]));
        lines.lemma_filter_contains_rev(keep, kept[i]);
        let k = choose|k: int| 0 <= k < lines.len() && lines[k] == kept[i];
        assert(2 * indent_width(lines[k]) <= isize::MAX);
        lemma_widened_line(kept[i]);
        lemma_space_run(kept[i], 0);
        assert(wide[i] == record_of(widened(kept[i])));
    }
    lemma_doubled_indents(narrow, wide);
    lemma_records_indent(lines);
    lemma_records_indent(wide_lines);
    lemma_same_order_same_shape(narrow, wide);
}

/// A text indented twice as wide parses to a tree of the same shape: where
/// the lines of `wide` are the lines of `narrow`, each with the white space
/// at its front written twice.
pub proof fn lemma_widened_text(narrow: Seq<char>, wide: Seq<char>)
    requires
        lines_of(wide) == lines_of(narrow).map_values(|line: Seq<char>| widened(line)),
        forall|i: int|
            0 <= i < lines_of(narrow).len() ==> 2 * indent_width(#[trigger] lines_of(narrow)[i])
                <= isize::MAX,
    ensures
        shape(tree_of(narrow).children) == shape(tree_of(wide).children),
{
    lemma_widened_lines(lines_of(narrow));
}

/// Two records of one indent, with no shallower record between them, belong
/// below the same line: their entries are siblings.
pub proof fn lemma_equal_indents_are_siblings(recs: Seq<Outline>, i: int, j: int)
    requires
        0 <= i < j < recs.len(),
        recs[i].indent == recs[j].indent,
        forall|k: int| i < k < j ==> (#[trigger] recs[k]).indent >= recs[i].indent,
    ensures
        parent_line(recs, i) == parent_line(recs, j),
{
    lemma_last_shallower(recs, recs[i].indent, i);
    lemma_last_shallower_is(recs, recs[j].indent, j, parent_line(recs, i));
}

/// Behind a newline the lines start afresh: where `front` ends in a
/// newline, the lines of `front` and `back` in a row are the lines that
/// `front` closes, followed by the lines of `back`.
pub proof fn lemma_lines_after_newline(front: Seq<char>, back: Seq<char>)
    requires
        front.len() > 0,
        front.last() == '\n',
    ensures
        open_line(front + back) == open_line(back),
        closed_lines(front + back) == closed_lines(front) + closed_lines(back),
        lines_of(front + back) == closed_lines(front) + lines_of(back),
    decreases back.len(),
{
    if back.len() == 0 {
        assert(front + back =~= front);
        assert(closed_lines(front) + closed_lines(back) =~= closed_lines(front));
    } else {
        let whole = front + back;
        assert(whole.drop_last() =~= front + back.drop_last());
        assert(whole.last() == back.last());
        lemma_lines_after_newline(front, back.drop_last());
        let shorter = closed_lines(front) + closed_lines(back.drop_last());
        if back.last() == '\n' {
            let line = strip_return(open_line(back.drop_last()));
            assert(shorter.push(line) =~= closed_lines(front) + closed_lines(
                back.drop_last(),
            ).push(line));
        }
    }
    assert(closed_lines(front) + closed_lines(back).push(open_line(back)) =~= (closed_lines(front)
        + closed_lines(back)).push(open_line(back)));
}

/// A text of nothing but white space has nothing but blank lines.
pub proof fn lemma_white_text_lines(text: Seq<char>)
    requires
        is_blank(text),
    ensures
        is_blank(open_line(text)),
        forall|i: int| 0 <= i < closed_lines(text).len() ==> is_blank(#[trigger] closed_lines(text)[i]),
    decreases text.len(),
{
    if text.len() > 0 {
        let front = text.drop_last();
        assert(is_blank(front)) by {
            assert forall|i: int| 0 <= i < front.len() implies is_space(#[trigger] front[i]) by {
                assert(front[i] == text[i]);
            }
        }
        assert(is_space(text.last())) by {
            assert(text.last() == text[text.len() - 1]);
        }
        lemma_white_text_lines(front);
        let open = open_line(front);
        assert(is_blank(strip_return(open))) by {
            assert forall|i: int| 0 <= i < strip_return(open).len() implies is_space(
                #[trigger] strip_return(open)[i],
            ) by {
                assert(strip_return(open)[i] == open[i]);
            }
        }
        assert(is_blank(open_line(text))) by {
            assert forall|i: int| 0 <= i < open_line(text).len() implies is_space(
                #[trigger] open_line(text)[i],
            ) by {
                if i < open.len() {
                    assert(open_line(text)[i] == open[i]);
                }
            }
        }
        assert forall|i: int| 0 <= i < closed_lines(text).len() implies is_blank(
            #[trigger] closed_lines(text)[i],
        ) by {
            if i < closed_lines(front).len() {
                assert(closed_lines(text)[i] == closed_lines(front)[i]);
            }
        }
    }
}

/// Blank lines leave no trace in the tree. With or without `gap`, which
/// holds nothing but white space and may itself run over several lines, on
/// lines of its own between `head` and `tail`, the text parses to the same
/// tree.
pub proof fn lemma_blank_text_vanishes(head: Seq<char>, gap: Seq<char>, tail: Seq<char>)
    requires
        is_blank(gap),
    ensures
        tree_of(head + seq!['\n'] + gap + seq!['\n'] + tail) == tree_of(head + seq!['\n'] + tail),
{
    let front = head + seq!['\n'];
    let middle = gap + seq!['\n'];
    assert(is_blank(middle)) by {
        assert forall|i: int| 0 <= i < middle.len() implies is_space(#[trigger] middle[i]) by {
            if i < gap.len() {
                assert(middle[i] == gap[i]);
            }
        }
    }
    assert(head + seq!['\n'] + gap + seq!['\n'] + tail =~= (front + middle) + tail);
    lemma_lines_after_newline(front + middle, tail);
    lemma_lines_after_newline(front, middle);
    lemma_lines_after_newline(front, tail);
    lemma_white_text_lines(middle);
    lemma_blank_lines_vanish(closed_lines(front), closed_lines(middle), lines_of(tail));
}

/// Read entry by entry, each before the entries below it, the tree of a
/// text gives the records of its lines in their order: every line that is
/// not blank is there once, and no other.
pub proof fn lemma_tree_keeps_lines(text: Seq<char>)
    ensures
        reading_order(tree_of(text).children) == records_of(lines_of(text)),
        count(tree_of(text).children) == records_of(lines_of(text)).len(),
{
    lemma_records_indent(lines_of(text));
    lemma_reading_order(records_of(lines_of(text)));
}

/// In the tree of a text an entry hangs below the entry of the nearest line
/// before its own that is indented less, and below the root if there is no
/// such line.
pub proof fn lemma_tree_parents(text: Seq<char>)
    ensures
        parents(tree_of(text).children, 0, -1) == Seq::new(
            records_of(lines_of(text)).len(),
            |i: int| parent_line(records_of(lines_of(text)), i),
        ),
{
    lemma_records_indent(lines_of(text));
    lemma_parent_is_nearest_shallower(records_of(lines_of(text)));
}

/// In the tree of a text the depth of an entry is the number of lines above
/// its own: its parent line, the parent line of that, and so on.
pub proof fn lemma_tree_depths(text: Seq<char>, i: int)
    requires
        0 <= i < records_of(lines_of(text)).len(),
    ensures
        depths(tree_of(text).children, 0).len() == records_of(lines_of(text)).len(),
        depths(tree_of(text).children, 0)[i] == lines_above(records_of(lines_of(text)), i),
{
    lemma_records_indent(lines_of(text));
    lemma_depth_is_lines_above(records_of(lines_of(text)), i);
}

/// Two texts whose records have the same names and the same order among
/// their indents parse to trees of one shape, however wide the indents
/// are.
pub proof fn lemma_tree_shape(a: Seq<char>, b: Seq<char>)
    requires
        same_order(records_of(lines_of(a)), records_of(lines_of(b))),
        same_names(records_of(lines_of(a)), records_of(lines_of(b))),
    ensures
        shape(tree_of(a).children) == shape(tree_of(b).children),
{
    lemma_records_indent(lines_of(a));
    lemma_records_indent(lines_of(b));
    lemma_same_order_same_shape(records_of(lines_of(a)), records_of(lines_of(b)));
}

/// What is handed to be drawn names every node once, in reading order, and
/// each at its depth: read from top to bottom, the labels of what is drawn
/// for `nodes` are the names of the nodes and of all below them, and the
/// depths of the labels are the depths of those nodes.
pub proof fn lemma_labels_follow_nodes(nodes: Seq<Outline>, depth: int)
    ensures
        labels(diagrams_of(nodes)) == names(reading_order(nodes)),
        label_depths(diagrams_of(nodes), depth) == depths(nodes, depth),
    decreases nodes,
{
    if nodes.len() == 0 {
        assert(names(reading_order(nodes)) =~= Seq::empty());
    } else {
        let node = nodes[0];
        let after = nodes.drop_first();
        let drawn = diagrams_of(nodes);
        assert(drawn[0] == diagram_of(node));
        assert(drawn.drop_first() =~= diagrams_of(after));
        lemma_labels_follow_nodes(node.children, depth + 1);
        lemma_labels_follow_nodes(after, depth);
        let read = seq![bare(node)] + reading_order(node.children) + reading_order(after);
        assert(names(read) =~= seq![node.name] + names(reading_order(node.children)) + names(
            reading_order(after),
        ));
        if node.children.len() == 0 {
            assert(names(reading_order(node.children)) =~= Seq::empty());
            assert(seq![node.name] + Seq::<Seq<char>>::empty() =~= seq![node.name]);
            assert(Seq::new(1, |i: int| depth) =~= seq![depth]);
            assert(depths(node.children, depth + 1) =~= Seq::empty());
            assert(seq![depth] + Seq::<int>::empty() =~= seq![depth]);
        } else {
            assert(drawn[0]->Node_1 =~= diagrams_of(node.children));
        }
    }
}

/// What is handed to be drawn for a text names every line that is not blank
/// once, in the order of the lines, and each as deep as there are lines above
/// its own.
pub proof fn lemma_drawn_labels(text: Seq<char>)
    ensures
        labels(diagrams_of(tree_of(text).children)) == names(records_of(lines_of(text))),
        label_depths(diagrams_of(tree_of(text).children), 0).len() == records_of(
            lines_of(text),
        ).len(),
        forall|i: int|
            0 <= i < records_of(lines_of(text)).len() ==> #[trigger] label_depths(
                diagrams_of(tree_of(text).children),
                0,
            )[i] == lines_above(records_of(lines_of(text)), i),
{
    let recs = records_of(lines_of(text));
    lemma_labels_follow_nodes(tree_of(text).children, 0);
    lemma_tree_keeps_lines(text);
    assert forall|i: int| 0 <= i < recs.len() implies #[trigger] label_depths(
        diagrams_of(tree_of(text).children),
        0,
    )[i] == lines_above(recs, i) by {
        lemma_tree_depths(text, i);
    }
    if recs.len() > 0 {
        lemma_tree_depths(text, 0);
    } else {
        assert(tree_of(text).children =~= Seq::empty());
    }
}

/// With or without a bullet, a line gives the same record. Where `indent` and
/// `gap` are white space, `bullet` is a bullet, and `body` is not empty and
/// starts with neither white space nor a bullet, the line with the bullet
/// and the line without it have one record: it is named `body`, and its
/// indent is the length of `indent` as far as an indent can be stored.
pub proof fn lemma_bullet_same_record(
    indent: Seq<char>,
    bullet: char,
    gap: Seq<char>,
    body: Seq<char>,
)
    requires
        is_blank(indent),
        is_bullet(bullet),
        is_blank(gap),
        body.len() > 0,
        !is_space(body[0]),
        !is_bullet(body[0]),
    ensures
        record_of(indent + seq![bullet] + gap + body) == record_of(indent + body),
        record_of(indent + body) == (Outline {
            name: body,
            children: Seq::empty(),
            indent: stored_indent(indent.len() as int),
        }),
        indent.len() <= isize::MAX ==> record_of(indent + body).indent == indent.len(),
        !is_blank(indent + seq![bullet] + gap + body),
        !is_blank(indent + body),
{
    lemma_bullet_keeps_indent(indent, bullet, gap, body);
    let with = indent + seq![bullet] + gap + body;
    let without = indent + body;
    assert(with[indent.len() as int] == bullet);
    assert(without[indent.len() as int] == body[0]);
    assert(!is_space(bullet));
}

/// A text of one bulleted line parses as the same line without the bullet
/// does: to one entry named by what follows the bullet, indented as the
/// bullet is.
pub proof fn lemma_bullet_same_tree(
    indent: Seq<char>,
    bullet: char,
    gap: Seq<char>,
    body: Seq<char>,
)
    requires
        is_blank(indent),
        is_bullet(bullet),
        is_blank(gap),
        body.len() > 0,
        !is_space(body[0]),
        !is_bullet(body[0]),
        !(indent + seq![bullet] + gap + body).contains('\n'),
        !(indent + body).contains('\n'),
    ensures
        tree_of(indent + seq![bullet] + gap + body) == tree_of(indent + body),
        tree_of(indent + body) == rooted(
            seq![
                Outline {
                    name: body,
                    children: Seq::empty(),
                    indent: stored_indent(indent.len() as int),
                },
            ],
        ),
{
    lemma_bullet_same_record(indent, bullet, gap, body);
    lemma_single_entry(indent + seq![bullet] + gap + body);
    lemma_single_entry(indent + body);
}

} // verus!
