//! The configuration of a run and what the run has produced so far.

use crate::expand::{harvest, seed, Expansion};
use crate::node::{dot_graph, node_to_dot, preorder, Node, Tree};
use crate::reduce::{reduction_of, Reducer};
use crate::text::stack;
use vstd::prelude::*;

verus! {

/// A run: the root statement, an optional context, the depth limit, and the
/// tree once the expansion is over.
pub struct Axiograph {
    /// The statement that the tree grows from.
    pub statement: String,
    /// Background text that came with the request.
    pub context: Option<String>,
    /// The greatest level at which a node may stand, the root standing at 0.
    pub depth: u32,
    /// The tree, `None` before the expansion and where the root was dropped.
    pub axiom_graph: Option<Box<Node>>,
}

impl Axiograph {
    /// The tree of the run, where there is one.
    pub open spec fn graph(&self) -> Option<Tree> {
        match self.axiom_graph {
            Some(node) => Some(node@),
            None => None,
        }
    }

    /// A run that has not expanded anything yet.
    pub fn new(root_axiom: String, max_depth: u32, context: Option<String>) -> (run: Self)
        ensures
            run.statement == root_axiom,
            run.depth == max_depth,
            run.context == context,
            run.axiom_graph is None,
    {
        Self { statement: root_axiom, context, depth: max_depth, axiom_graph: None }
    }

    /// The expansion of the root statement within the depth limit, before
    /// anything was asked.
    pub fn expansion(&self) -> (expansion: Expansion)
        ensures
            expansion@ == seed(self.statement@, self.depth as nat),
            expansion.limit() == self.depth,
    {
        Expansion::new(self.statement.clone(), self.depth)
    }

    /// Takes over the tree that an expansion has grown. The configuration
    /// stays as it is.
    pub fn run(&mut self, expansion: &Expansion)
        ensures
            final(self).graph() == harvest(expansion@),
            final(self).statement == old(self).statement,
            final(self).context == old(self).context,
            final(self).depth == old(self).depth,
    {
        self.axiom_graph = expansion.finish();
    }

    /// The tree, where the expansion left one.
    pub fn get_axioms(&self) -> (out: Option<&Node>)
        ensures
            match out {
                Some(node) => self.graph() == Some(node@),
                None => self.graph() is None,
            },
    {
        match &self.axiom_graph {
            Some(node) => Some(&**node),
            None => None,
        }
    }

    /// One line per node of the tree, parents before children.
    pub fn to_plain(&self) -> (out: String)
        requires
            self.axiom_graph is Some,
        ensures
            out@ == stack(preorder(self.graph()->0)),
    {
        match &self.axiom_graph {
            Some(node) => node.to_plain(),
            None => String::new(),
        }
    }

    /// The graph description of the tree.
    pub fn to_dot(&self) -> (out: String)
        requires
            self.axiom_graph is Some,
        ensures
            out@ == dot_graph(self.graph()->0),
    {
        match &self.axiom_graph {
            Some(node) => node_to_dot(node),
            None => String::new(),
        }
    }

    /// The reduction of the tree's statements to a text within the threshold,
    /// before its first round.
    pub fn summarize(&self) -> (reducer: Reducer)
        requires
            self.axiom_graph is Some,
        ensures
            reducer@ == reduction_of(stack(preorder(self.graph()->0))),
    {
        let plain = self.to_plain();
        Reducer::new(plain.as_str())
    }
}

} // verus!
