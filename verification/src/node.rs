//! The statement tree and its textual renderings.

use crate::lines::{dedup, distinct};
use crate::text::{lemma_stack_concat, lemma_stack_single, newline, stack, texts};
use vstd::prelude::*;

verus! {

/// Mathematical model of a statement tree: a label and the ordered subtrees.
pub struct Tree {
    pub label: Seq<char>,
    pub kids: Seq<Tree>,
}

/// A statement together with the statements derived from it, in the order in
/// which their expansions were launched.
pub struct Node {
    pub statement: String,
    pub children: Vec<Box<Node>>,
}

impl Node {
    /// The tree that this node and its descendants stand for.
    pub open spec fn tree(&self) -> Tree
        decreases self,
    {
        Tree {
            label: self.statement@,
            kids: Seq::new(
                self.children@.len(),
                |i: int|
                    if 0 <= i < self.children@.len() {
                        self.children@[i].tree()
                    } else {
                        arbitrary()
                    },
            ),
        }
    }
}

impl View for Node {
    type V = Tree;

    open spec fn view(&self) -> Tree {
        self.tree()
    }
}

/// The trees of a sequence of nodes.
pub open spec fn trees(nodes: Seq<Box<Node>>) -> Seq<Tree> {
    Seq::new(nodes.len(), |i: int| nodes[i].tree())
}

/// The labels of a tree, parents before children, siblings left to right.
pub open spec fn preorder(tree: Tree) -> Seq<Seq<char>>
    decreases tree,
{
    seq![tree.label] + preorder_forest(tree.kids)
}

/// The labels of a sequence of trees, tree after tree.
pub open spec fn preorder_forest(trees: Seq<Tree>) -> Seq<Seq<char>>
    decreases trees,
{
    if trees.len() == 0 {
        Seq::empty()
    } else {
        preorder_forest(trees.drop_last()) + preorder(trees.last())
    }
}

/// The number of nodes on the longest path from the root down to a leaf.
pub open spec fn height(tree: Tree) -> nat
    decreases tree,
{
    1 + tallest(tree.kids)
}

/// The greatest height among the trees, 0 where there is none.
pub open spec fn tallest(trees: Seq<Tree>) -> nat
    decreases trees,
{
    if trees.len() == 0 {
        0
    } else {
        let rest = tallest(trees.drop_last());
        let last = height(trees.last());
        if rest >= last {
            rest
        } else {
            last
        }
    }
}

/// The line that declares a vertex of the graph description.
pub open spec fn dot_vertex(label: Seq<char>) -> Seq<char> {
    "\""@ + label + "\" [label=\""@ + label + "\"];\n"@
}

/// The line that declares an edge of the graph description.
pub open spec fn dot_edge(from: Seq<char>, to: Seq<char>) -> Seq<char> {
    "\""@ + from + "\" -> \""@ + to + "\";\n"@
}

/// The vertex of a tree's root, then for each child its edge and its own lines.
pub open spec fn dot_lines(tree: Tree) -> Seq<char>
    decreases tree,
{
    dot_vertex(tree.label) + dot_branches(tree.label, tree.kids)
}

/// For each tree the edge from `parent` to its root, followed by its lines.
pub open spec fn dot_branches(parent: Seq<char>, trees: Seq<Tree>) -> Seq<char>
    decreases trees,
{
    if trees.len() == 0 {
        Seq::empty()
    } else {
        dot_branches(parent, trees.drop_last()) + dot_edge(parent, trees.last().label)
            + dot_lines(trees.last())
    }
}

/// The whole graph description: header, lines of the tree, closing brace.
pub open spec fn dot_graph(tree: Tree) -> Seq<char> {
    "digraph axioms {rankdir=LR;overlap=prism;overlap_scaling=-5;\n"@ + dot_lines(tree) + "\n}"@
}

impl Node {
    /// A node without children.
    pub fn new(statement: String) -> (node: Self)
        ensures
            node@ == (Tree { label: statement@, kids: Seq::empty() }),
    {
        let node = Self { statement, children: Vec::new() };
        assert(node@.kids =~= Seq::empty());
        node
    }

    /// One line per node, parents before children.
    pub fn to_plain(&self) -> (out: String)
        ensures
            out@ == stack(preorder(self@)),
        decreases self,
    {
        let mut out = String::new();
        out.append(self.statement.as_str());
        out.append("\n");
        proof {
            reveal_strlit("\n");
            assert("\n"@ =~= newline());
            lemma_stack_single(self@.label);
            assert(self@.kids.take(0) =~= Seq::<Tree>::empty());
        }
        let mut i: usize = 0;
        while i < self.children.len()
            invariant
                i <= self.children.len(),
                self@.kids.len() == self.children.len(),
                out@ == stack(seq![self@.label]) + stack(preorder_forest(self@.kids.take(i as int))),
            decreases self.children.len() - i,
        {
            let part = self.children[i].to_plain();
            proof {
                let before = self@.kids.take(i as int);
                let after = self@.kids.take(i + 1);
                assert(after.drop_last() =~= before);
                assert(after.last() == self.children@[i as int].tree());
                lemma_stack_concat(preorder_forest(before), preorder(after.last()));
            }
            out.append(part.as_str());
            i += 1;
        }
        proof {
            assert(self@.kids.take(i as int) =~= self@.kids);
            lemma_stack_concat(seq![self@.label], preorder_forest(self@.kids));
        }
        out
    }

    /// Adds the statements of this tree to `out`, parents before children.
    fn gather(&self, out: &mut Vec<String>)
        ensures
            texts(final(out)@) == texts(old(out)@) + preorder(self@),
        decreases self,
    {
        let ghost before = texts(out@);
        out.push(self.statement.clone());
        proof {
            assert(self@.kids.take(0) =~= Seq::<Tree>::empty());
            assert(texts(out@) =~= before + seq![self@.label] + preorder_forest(self@.kids.take(0)));
        }
        let mut i: usize = 0;
        while i < self.children.len()
            invariant
                i <= self.children.len(),
                self@.kids.len() == self.children.len(),
                texts(out@) == before + seq![self@.label] + preorder_forest(
                    self@.kids.take(i as int),
                ),
            decreases self.children.len() - i,
        {
            self.children[i].gather(out);
            proof {
                let front = self@.kids.take(i as int);
                let next = self@.kids.take(i + 1);
                assert(next.drop_last() =~= front);
                assert(next.last() == self.children@[i as int].tree());
                assert(texts(out@) =~= before + seq![self@.label] + preorder_forest(next));
            }
            i += 1;
        }
        proof {
            assert(self@.kids.take(i as int) =~= self@.kids);
            assert(texts(out@) =~= before + preorder(self@));
        }
    }

    /// Every statement of the tree once: parents before children, siblings
    /// left to right, and of equal statements the first.
    pub fn statements(&self) -> (out: Vec<String>)
        ensures
            texts(out@) == distinct(preorder(self@)),
    {
        let mut all: Vec<String> = Vec::new();
        self.gather(&mut all);
        assert(texts(all@) =~= preorder(self@));
        dedup(&all)
    }

    /// The vertices and edges of the tree as lines of a graph description.
    pub fn to_dot(&self) -> (out: String)
        ensures
            out@ == dot_lines(self@),
        decreases self,
    {
        let mut out = String::new();
        out.append("\"");
        out.append(self.statement.as_str());
        out.append("\" [label=\"");
        out.append(self.statement.as_str());
        out.append("\"];\n");
        proof {
            assert(out@ =~= dot_vertex(self@.label));
            assert(self@.kids.take(0) =~= Seq::<Tree>::empty());
        }
        let mut i: usize = 0;
        while i < self.children.len()
            invariant
                i <= self.children.len(),
                self@.kids.len() == self.children.len(),
                out@ == dot_vertex(self@.label) + dot_branches(
                    self@.label,
                    self@.kids.take(i as int),
                ),
            decreases self.children.len() - i,
        {
            let child = &self.children[i];
            let ghost head = out@;
            out.append("\"");
            out.append(self.statement.as_str());
            out.append("\" -> \"");
            out.append(child.statement.as_str());
            out.append("\";\n");
            let part = child.to_dot();
            out.append(part.as_str());
            proof {
                let before = self@.kids.take(i as int);
                let after = self@.kids.take(i + 1);
                assert(after.drop_last() =~= before);
                assert(after.last() == child.tree());
                assert(out@ =~= head + dot_edge(self@.label, child@.label) + dot_lines(child@));
            }
            i += 1;
        }
        proof {
            assert(self@.kids.take(i as int) =~= self@.kids);
        }
        out
    }
}

impl Clone for Node {
    fn clone(&self) -> (copy: Self)
        ensures
            copy@ == self@,
        decreases self,
    {
        let mut children: Vec<Box<Node>> = Vec::new();
        let mut i: usize = 0;
        while i < self.children.len()
            invariant
                i <= self.children.len(),
                children.len() == i,
                forall|j: int| 0 <= j < i ==> children@[j].tree() == self.children@[j].tree(),
            decreases self.children.len() - i,
        {
            let child = (&*self.children[i]).clone();
            children.push(Box::new(child));
            i += 1;
        }
        let copy = Node { statement: self.statement.clone(), children };
        assert(copy@.kids =~= self@.kids);
        copy
    }
}

/// The graph description of a tree, ready for a layout tool.
pub fn node_to_dot(node: &Node) -> (out: String)
    ensures
        out@ == dot_graph(node@),
{
    let mut out = String::new();
    out.append("digraph axioms {rankdir=LR;overlap=prism;overlap_scaling=-5;\n");
    let body = node.to_dot();
    out.append(body.as_str());
    out.append("\n}");
    assert(out@ =~= dot_graph(node@));
    out
}

} // verus!
