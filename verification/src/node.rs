//! One scalar input paired with one trainable weight.

use crate::model::NodeView;
use vstd::prelude::*;

verus! {

/// A single input with its weight. The input is fixed at creation; the weight
/// starts at zero and changes only when the owning net learns.
pub struct Node {
    input: i32,
    weight: i32,
}

impl View for Node {
    type V = NodeView;

    closed spec fn view(&self) -> NodeView {
        NodeView { input: self.input as int, weight: self.weight as int }
    }
}

impl Node {
    /// A node for `input`, with weight zero.
    pub fn new(input: i32) -> (node: Node)
        ensures
            node@ == (NodeView { input: input as int, weight: 0 }),
    {
        Node { input, weight: 0 }
    }

    /// The node's input.
    pub fn input(&self) -> (input: i32)
        ensures
            input == self@.input,
    {
        self.input
    }

    /// The node's current weight.
    pub fn weight(&self) -> (weight: i32)
        ensures
            weight == self@.weight,
    {
        self.weight
    }

    /// Adds `rate` to the weight.
    pub(crate) fn raise(&mut self, rate: i32)
        requires
            i32::MIN <= old(self)@.weight + rate <= i32::MAX,
        ensures
            final(self)@ == (NodeView {
                input: old(self)@.input,
                weight: old(self)@.weight + rate,
            }),
    {
        self.weight = self.weight + rate;
    }

    /// A stored node is always within the machine range.
    pub proof fn lemma_in_range(&self)
        ensures
            self@.in_range(),
    {
    }
}

} // verus!
