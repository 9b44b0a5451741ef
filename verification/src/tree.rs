//! Parse trees: what a successful parse hands back.

use vstd::prelude::*;
use crate::text::{decimal, push_decimal};

verus! {

/// One successful match of a rule or of a terminal.
///
/// `rule` is the rule's name, or `None` for a terminal. The node covers the characters of the
/// input from `start` up to, but not including, `end`. A terminal has no children.
#[derive(Debug, PartialEq, Eq)]
pub struct Node {
    pub rule: Option<String>,
    pub start: usize,
    pub end: usize,
    pub children: Vec<Node>,
}

/// The mathematical value of a [`Node`].
pub struct Tree {
    pub rule: Option<Seq<char>>,
    pub start: nat,
    pub end: nat,
    pub children: Seq<Tree>,
}

/// Whether the nodes lie one behind the other from `from` to `to`, each of them well formed:
/// the first starts at `from`, each next one where the one before it ends, and the last ends at
/// `to`. No nodes lie between a position and itself.
pub open spec fn tiled(nodes: Seq<Tree>, from: nat, to: nat) -> bool
    decreases nodes,
{
    if nodes.len() == 0 {
        from == to
    } else {
        &&& nodes[0].start == from
        &&& nodes[0].well_formed()
        &&& tiled(nodes.drop_first(), nodes[0].end, to)
    }
}

impl Tree {
    /// Whether the node ends no earlier than it starts, a terminal has no children, and the
    /// children of a rule lie one behind the other from its start to its end.
    pub open spec fn well_formed(self) -> bool
        decreases self,
    {
        &&& self.start <= self.end
        &&& match self.rule {
            Some(_) => tiled(self.children, self.start, self.end),
            None => self.children.len() == 0,
        }
    }
}

/// A well-formed node lies, alone, between its start and its end.
pub proof fn lemma_tiled_single(tree: Tree)
    requires
        tree.well_formed(),
    ensures
        tiled(seq![tree], tree.start, tree.end),
{
    let nodes = seq![tree];
    assert(nodes[0] == tree);
    assert(nodes.drop_first() =~= Seq::empty());
    assert(tiled(nodes.drop_first(), tree.end, tree.end));
}

/// Two runs of nodes of which the second starts where the first ends make one run.
pub proof fn lemma_tiled_concat(left: Seq<Tree>, right: Seq<Tree>, from: nat, middle: nat, to: nat)
    requires
        tiled(left, from, middle),
        tiled(right, middle, to),
    ensures
        tiled(left + right, from, to),
    decreases left.len(),
{
    if left.len() == 0 {
        assert(left + right =~= right);
    } else {
        lemma_tiled_concat(left.drop_first(), right, left[0].end, middle, to);
        assert((left + right).drop_first() =~= left.drop_first() + right);
        assert((left + right)[0] == left[0]);
    }
}

/// The mathematical value of a node.
pub open spec fn tree_of(node: Node) -> Tree
    decreases node,
{
    Tree {
        rule: match node.rule {
            Some(name) => Some(name@),
            None => None,
        },
        start: node.start as nat,
        end: node.end as nat,
        children: trees_of(node.children@),
    }
}

/// The mathematical values of a list of nodes, in order.
pub open spec fn trees_of(nodes: Seq<Node>) -> Seq<Tree>
    decreases nodes,
{
    if nodes.len() == 0 {
        Seq::empty()
    } else {
        trees_of(nodes.drop_last()).push(tree_of(nodes.last()))
    }
}

impl View for Node {
    type V = Tree;

    open spec fn view(&self) -> Tree {
        tree_of(*self)
    }
}

/// `trees_of` keeps the length and works node by node.
pub proof fn lemma_trees_of(nodes: Seq<Node>)
    ensures
        trees_of(nodes).len() == nodes.len(),
        forall|i: int| 0 <= i < nodes.len() ==> #[trigger] trees_of(nodes)[i] == tree_of(nodes[i]),
    decreases nodes.len(),
{
    if nodes.len() > 0 {
        lemma_trees_of(nodes.drop_last());
    }
}

/// `trees_of` goes through concatenation.
pub proof fn lemma_trees_of_concat(left: Seq<Node>, right: Seq<Node>)
    ensures
        trees_of(left + right) == trees_of(left) + trees_of(right),
{
    lemma_trees_of(left);
    lemma_trees_of(right);
    lemma_trees_of(left + right);
    assert(trees_of(left + right) =~= trees_of(left) + trees_of(right));
}

/// What a node is called in a rendering: the name of its rule, or `terminal`.
pub open spec fn label(rule: Option<Seq<char>>) -> Seq<char> {
    match rule {
        Some(name) => name,
        None => "terminal"@,
    }
}

/// The line of a node in a rendering: the indentation, the label and the span.
pub open spec fn heading(tree: Tree, indent: Seq<char>) -> Seq<char> {
    indent + label(tree.rule) + " ["@ + decimal(tree.start) + ", "@ + decimal(tree.end) + ")\n"@
}

/// The rendering of a tree as text: one line for each node, the node's own line first and the
/// lines of its children below it, in order, indented by two more spaces.
pub open spec fn rendering(tree: Tree, indent: Seq<char>) -> Seq<char>
    decreases tree,
{
    heading(tree, indent) + renderings(tree.children, indent + "  "@)
}

/// The renderings of the trees, one after the other.
pub open spec fn renderings(trees: Seq<Tree>, indent: Seq<char>) -> Seq<char>
    decreases trees,
{
    if trees.len() == 0 {
        Seq::empty()
    } else {
        renderings(trees.drop_last(), indent) + rendering(trees.last(), indent)
    }
}

/// Appends the rendering of the node, indented by `indent`.
fn render_into(node: &Node, indent: &String, out: &mut String)
    ensures
        final(out)@ == old(out)@ + rendering(node@, indent@),
    decreases node,
{
    out.append(indent.as_str());
    match &node.rule {
        Some(name) => out.append(name.as_str()),
        None => out.append("terminal"),
    }
    out.append(" [");
    push_decimal(out, node.start);
    out.append(", ");
    push_decimal(out, node.end);
    out.append(")\n");
    assert(out@ =~= old(out)@ + heading(node@, indent@));
    let mut deeper = indent.clone();
    deeper.append("  ");
    let ghost before = out@;
    let ghost trees = trees_of(node.children@);
    proof {
        lemma_trees_of(node.children@);
    }
    let mut i: usize = 0;
    while i < node.children.len()
        invariant
            i <= node.children.len(),
            deeper@ == indent@ + "  "@,
            trees == trees_of(node.children@),
            trees.len() == node.children.len(),
            forall|k: int| 0 <= k < trees.len() ==> #[trigger] trees[k] == node.children@[k]@,
            out@ == before + renderings(trees.take(i as int), deeper@),
        decreases node.children.len() - i,
    {
        render_into(&node.children[i], &deeper, out);
        proof {
            let upto = trees.take(i + 1);
            assert(upto.drop_last() =~= trees.take(i as int));
            assert(upto.last() == trees[i as int]);
            assert(out@ =~= before + renderings(upto, deeper@));
        }
        i += 1;
    }
    proof {
        assert(trees.take(node.children.len() as int) =~= trees);
        assert(out@ =~= old(out)@ + rendering(node@, indent@));
    }
}

impl Node {
    /// The tree as text: one line for each node, with its label and its span, the children of
    /// a node below it and indented by two more spaces.
    pub fn render(&self) -> (text: String)
        ensures
            text@ == rendering(self@, Seq::empty()),
    {
        let mut text = String::new();
        let indent = String::new();
        render_into(self, &indent, &mut text);
        assert(text@ =~= rendering(self@, Seq::empty()));
        text
    }
}

} // verus!
