//! A handle to a node, for chaining registration calls.

pub mod node;

use vstd::prelude::*;

use crate::fuzzy_cmd::refnode::node::Node;

verus! {

/// A handle to a [`Node`] borrowed from its parent: registration through the
/// handle acts on that node in place.
pub struct RefNode<'a> {
    /// The node the handle stands for.
    pub node: &'a mut Node,
}

impl<'a> RefNode<'a> {
    /// Bind the node behind this handle to an action key, making it a leaf.
    /// Any subnodes the node held are discarded.
    pub fn call(self, f: u64)
        ensures
            (*final(self.node))@.function == Some(f),
            (*final(self.node))@.children == Seq::<(Seq<char>, node::NodeView)>::empty(),
    {
        self.node.call(f);
    }
}

} // verus!
