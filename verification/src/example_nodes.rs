//! Example nodes implementing trait [`Node`]
use vstd::prelude::*;
use crate::traits::Node;

verus! {

/// Use this, if you do not need to store extra information
#[derive(Clone, Debug)]
pub struct EmptyNode {}

impl Node for EmptyNode {
    fn new_from_index(index: usize) -> Self {
        EmptyNode {  }
    }
}

/// Example node that contains a `usize` which will, if not changed,
/// correspond to the index of the Vertex
#[derive(Clone, Debug)]
pub struct CountingNode {
    /// Contained data
    pub index: usize,
}

impl CountingNode {
    /// Returns the index of the node
    pub fn number(&self) -> (r: usize)
        ensures
            r == self.index,
    {
        self.index
    }
}

impl Node for CountingNode {
    fn new_from_index(index: usize) -> (r: Self)
        ensures
            r.index == index,
    {
        CountingNode { index }
    }
}

/// minimal example for a node
#[derive(Clone)]
pub struct TestNode {}

impl Node for TestNode {
    fn new_from_index(index: usize) -> Self {
        TestNode {  }
    }
}

} // verus!
