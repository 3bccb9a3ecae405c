//! Drawing: from the tree of an outline to text with branch connectors.
//!
//! The connectors are drawn by the crate `ascii_tree`. This module turns each
//! entry of an outline into a tree of that crate, has it drawn, and puts the
//! drawings one after the other.

use vstd::prelude::*;
use ascii_tree::Tree;
use crate::outline::Outline;
use crate::parse::{parse_tree, tree_of, FileStructure};

verus! {

/// The tree type of `ascii_tree`. Nothing of what a value holds is visible
/// here; `tree_content` names it.
#[verifier::external_type_specification]
#[verifier::external_body]
pub struct ExTree(ascii_tree::Tree);

/// The error of `core::fmt`, which a write to a sink of text may return.
#[verifier::external_type_specification]
#[verifier::external_body]
pub struct ExFmtError(core::fmt::Error);

/// What a tree of `ascii_tree` holds, as a mathematical value: a node with a
/// title and the trees below it, or a leaf with its lines of text.
pub enum Diagram {
    Node(Seq<char>, Seq<Diagram>),
    Leaf(Seq<Seq<char>>),
}

/// What `tree` holds.
pub uninterp spec fn tree_content(tree: Tree) -> Diagram;

/// The text that `ascii_tree::write_tree` writes for a tree that holds
/// `diagram`.
pub uninterp spec fn drawing(diagram: Diagram) -> Seq<char>;

/// The strings of `lines` as sequences of characters.
pub open spec fn texts(lines: Seq<String>) -> Seq<Seq<char>> {
    lines.map_values(|line: String| line@)
}

/// What each of `trees` holds.
pub open spec fn contents(trees: Seq<Tree>) -> Seq<Diagram> {
    trees.map_values(|tree: Tree| tree_content(tree))
}

/// Builds `ascii_tree::Tree::Leaf`: the leaf holds the given lines, in their
/// order.
#[verifier::external_body]
fn leaf(lines: Vec<String>) -> (tree: Tree)
    ensures
        tree_content(tree) == Diagram::Leaf(texts(lines@)),
{
    Tree::Leaf(lines)
}

/// Builds `ascii_tree::Tree::Node`: the node holds the given title and, below
/// it, the given trees in their order.
#[verifier::external_body]
fn branch(title: String, children: Vec<Tree>) -> (tree: Tree)
    ensures
        tree_content(tree) == Diagram::Node(title@, contents(children@)),
{
    Tree::Node(title, children)
}

/// Calls `ascii_tree::write_tree` with a string as the sink. The function
/// writes the drawing of the tree, which depends on nothing but what the
/// tree holds, behind what the sink holds already. It returns an error only
/// where a write to the sink returns one, and a write to a string never
/// does: so the call succeeds on every tree.
#[verifier::external_body]
fn write_tree(out: &mut String, tree: &Tree) -> (step: Result<(), core::fmt::Error>)
    ensures
        step is Ok,
        final(out)@ == old(out)@ + drawing(tree_content(*tree)),
{
    ascii_tree::write_tree(out, tree)
}

/// Why an outline could not be drawn.
#[derive(Debug, Clone, Copy, PartialEq, Eq)]
pub enum RenderError {
    /// A write to the text under construction failed.
    Write,
}

/// What is drawn for a node: a leaf with the name as its one line if the node
/// has no children, else a node titled with the name that holds, in their
/// order, what is drawn for the children.
pub open spec fn diagram_of(node: Outline) -> Diagram
    decreases node,
{
    if node.children.len() == 0 {
        Diagram::Leaf(seq![node.name])
    } else {
        Diagram::Node(
            node.name,
            Seq::new(
                node.children.len(),
                |i: int|
                    if 0 <= i < node.children.len() {
                        diagram_of(node.children[i])
                    } else {
                        arbitrary()
                    },
            ),
        )
    }
}

/// What is drawn for each of `nodes`, in their order.
pub open spec fn diagrams_of(nodes: Seq<Outline>) -> Seq<Diagram> {
    Seq::new(nodes.len(), |i: int| diagram_of(nodes[i]))
}

/// The labels of `diagrams` as they are read from top to bottom: the title of
/// a node, then the labels below it; the lines of a leaf.
pub open spec fn labels(diagrams: Seq<Diagram>) -> Seq<Seq<char>>
    decreases diagrams,
{
    if diagrams.len() == 0 {
        Seq::empty()
    } else {
        (match diagrams[0] {
            Diagram::Node(title, below) => seq![title] + labels(below),
            Diagram::Leaf(lines) => lines,
        }) + labels(diagrams.drop_first())
    }
}

/// For each label of `diagrams`, read from top to bottom, how deep it
/// stands, where `diagrams` themselves stand at the depth `depth`.
pub open spec fn label_depths(diagrams: Seq<Diagram>, depth: int) -> Seq<int>
    decreases diagrams,
{
    if diagrams.len() == 0 {
        Seq::empty()
    } else {
        (match diagrams[0] {
            Diagram::Node(title, below) => seq![depth] + label_depths(below, depth + 1),
            Diagram::Leaf(lines) => Seq::new(lines.len(), |i: int| depth),
        }) + label_depths(diagrams.drop_first(), depth)
    }
}

/// The drawings of `nodes`, one after the other.
pub open spec fn drawings(nodes: Seq<Outline>) -> Seq<char>
    decreases nodes.len(),
{
    if nodes.len() == 0 {
        Seq::empty()
    } else {
        drawings(nodes.drop_last()) + drawing(diagram_of(nodes.last()))
    }
}

/// Turns a node and all below it into a tree of `ascii_tree`.
pub fn get_node(node: FileStructure) -> (tree: Tree)
    ensures
        tree_content(tree) == diagram_of(node@),
    decreases node,
{
    let ghost whole = node@;
    if node.children.is_empty() {
        let mut lines: Vec<String> = Vec::new();
        lines.push(node.name);
        assert(texts(lines@) =~= seq![whole.name]);
        leaf(lines)
    } else {
        let FileStructure { name, children, indent_count: _ } = node;
        let ghost below = children@;
        let mut trees: Vec<Tree> = Vec::new();
        for child in it: children
            invariant
                it.seq() == below,
                below == node.children@,
                trees@.len() == it.index(),
                forall|i: int|
                    0 <= i < it.index() ==> tree_content(#[trigger] trees@[i]) == diagram_of(
                        below[i]@,
                    ),
        {
            assert(child == below[it.index() as int]);
            let tree = get_node(child);
            trees.push(tree);
        }
        assert(contents(trees@) =~= diagram_of(whole)->Node_1);
        branch(name, trees)
    }
}

/// What becomes of the text under construction when a step of drawing has
/// ended as `step` says: the text goes on if the step succeeded, and is given
/// up if it failed.
pub fn after_write(text: String, step: Result<(), core::fmt::Error>) -> (next: Result<
    String,
    RenderError,
>)
    ensures
        step is Ok ==> next == Ok::<String, RenderError>(text),
        step is Err ==> next == Err::<String, RenderError>(RenderError::Write),
{
    match step {
        Ok(_) => Ok(text),
        Err(_) => Err(RenderError::Write),
    }
}

/// Draws the entries below `root`, each with all below it, in their order.
/// The root itself is not drawn. The text is built in a string, to which
/// every write succeeds: the drawing is always there.
pub fn render(root: FileStructure) -> (text: Result<String, RenderError>)
    ensures
        text is Ok,
        text matches Ok(drawn) ==> drawn@ == drawings(root@.children),
{
    let ghost entries = root@.children;
    let FileStructure { name: _, children, indent_count: _ } = root;
    let ghost nodes = children@;
    let mut output = String::new();
    assert(entries.take(0) =~= Seq::empty());
    for child in it: children
        invariant
            it.seq() == nodes,
            entries == root@.children,
            nodes.len() == entries.len(),
            forall|i: int| 0 <= i < nodes.len() ==> (#[trigger] nodes[i])@ == entries[i],
            output@ == drawings(entries.take(it.index() as int)),
    {
        let ghost at = it.index() as int;
        assert(child == nodes[at]);
        assert(entries.take(at + 1).drop_last() =~= entries.take(at));
        let tree = get_node(child);
        let step = write_tree(&mut output, &tree);
        match after_write(output, step) {
            Ok(text) => {
                output = text;
            },
            Err(error) => {
                return Err(error);
            },
        }
    }
    assert(entries.take(entries.len() as int) =~= entries);
    Ok(output)
}

/// Parses the text of an outline and draws its entries.
pub fn render_outline(input: &str) -> (text: Result<String, RenderError>)
    ensures
        text is Ok,
        text matches Ok(drawn) ==> drawn@ == drawings(tree_of(input@).children),
{
    render(parse_tree(input))
}

} // verus!
