//! The decision tree, its mathematical model, and traversals over the model.

use vstd::prelude::*;

verus! {

/// One instruction encoding: the bit pattern and the mask of the bits that
/// the pattern constrains (1 = constrained, 0 = don't care).
#[derive(Clone, Copy, Debug, PartialEq, Eq)]
pub struct Encoding {
    pub opcode: u32,
    pub mask: u32,
}

/// A rule as it is carried through the builder and stored in leaves: the
/// bits of its mask not yet decided on the path from the root, and the
/// position of the instruction in the builder's input.
#[derive(Clone, Copy, Debug, PartialEq, Eq)]
pub struct LeafNode {
    pub mask: u32,
    pub insn: usize,
}

/// A node of the decision tree; each branch owns its two subtrees.
#[derive(Debug)]
pub enum DecisionTreeNode {
    Leaf { index: Option<usize>, insns: Vec<LeafNode> },
    Branch { index: Option<usize>, decision_bit: u32, zero: DecisionTree, one: DecisionTree },
}

/// A decision tree; `None` only for an empty rule set.
pub type DecisionTree = Option<Box<DecisionTreeNode>>;

/// The mathematical model of a decision tree.
pub enum SpecTree {
    Empty,
    Leaf { index: Option<usize>, insns: Seq<LeafNode> },
    Branch { index: Option<usize>, bit: u32, zero: Box<SpecTree>, one: Box<SpecTree> },
}

/// The model of an executable tree.
pub open spec fn view_tree(t: DecisionTree) -> SpecTree
    decreases t,
{
    match t {
        None => SpecTree::Empty,
        Some(b) => match *b {
            DecisionTreeNode::Leaf { index, insns } => SpecTree::Leaf { index, insns: insns@ },
            DecisionTreeNode::Branch { index, decision_bit, zero, one } => SpecTree::Branch {
                index,
                bit: decision_bit,
                zero: Box::new(view_tree(zero)),
                one: Box::new(view_tree(one)),
            },
        },
    }
}

/// The number of nodes, leaves and branches.
pub open spec fn node_count(t: SpecTree) -> nat
    decreases t,
{
    match t {
        SpecTree::Empty => 0,
        SpecTree::Leaf { .. } => 1,
        SpecTree::Branch { zero, one, .. } => 1 + node_count(*zero) + node_count(*one),
    }
}

} // verus!
