use vstd::prelude::*;

use crate::logic_block::LogicBlock;
use crate::storing_block::StoringBlock;

verus! {

/// A node of the circuit graph.
#[derive(Debug)]
pub enum Node {
    LogicBlock(LogicBlock),
    StoringBlock(StoringBlock),
}

impl Node {
    /// Whether the node is on.
    pub open spec fn spec_is_on(&self) -> bool {
        match self {
            Node::LogicBlock(b) => b.spec_is_on(),
            Node::StoringBlock(b) => b.is_on,
        }
    }

    /// The children, in order.
    pub open spec fn children(&self) -> Seq<u32> {
        match self {
            Node::LogicBlock(b) => b.children_view(),
            Node::StoringBlock(b) => b.children@,
        }
    }

    /// Whether the node is on.
    pub fn is_on(&self) -> (r: bool)
        ensures
            r == self.spec_is_on(),
    {
        match self {
            Node::LogicBlock(node) => node.is_on(),
            Node::StoringBlock(node) => node.is_on,
        }
    }

    /// The children, in order.
    pub fn get_children(&self) -> (r: &Vec<u32>)
        ensures
            r@ == self.children(),
    {
        match self {
            Node::LogicBlock(node) => node.get_children(),
            Node::StoringBlock(node) => &node.children,
        }
    }
}

} // verus!
