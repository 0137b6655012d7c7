//! The mathematical model: nodes and nets over unbounded integers.

use vstd::prelude::*;

verus! {

/// A node as the arithmetic sees it: an input and a weight.
pub struct NodeView {
    pub input: int,
    pub weight: int,
}

impl NodeView {
    /// The node's share of the weighted sum.
    pub open spec fn product(self) -> int {
        self.input * self.weight
    }

    /// The node after `steps` learning steps at `rate`: a strictly positive
    /// input gains `rate` per step, any other input leaves the weight alone.
    pub open spec fn trained(self, rate: int, steps: nat) -> NodeView {
        if self.input > 0 {
            NodeView { input: self.input, weight: self.weight + steps * rate }
        } else {
            self
        }
    }

    /// Both scalars fit the machine type that stores them.
    pub open spec fn in_range(self) -> bool {
        &&& i32::MIN <= self.input <= i32::MAX
        &&& i32::MIN <= self.weight <= i32::MAX
    }
}

/// Stored scalars as the integers they stand for.
pub open spec fn as_ints(values: Seq<i32>) -> Seq<int> {
    Seq::new(values.len(), |i: int| values[i] as int)
}

/// The sum of `input * weight` over the nodes, in order.
pub open spec fn weighted_sum(nodes: Seq<NodeView>) -> int
    decreases nodes.len(),
{
    if nodes.len() == 0 {
        0
    } else {
        weighted_sum(nodes.drop_last()) + nodes.last().product()
    }
}

/// The largest magnitude that one node's product can have.
pub const PRODUCT_BOUND: i128 = 0x4000_0000_0000_0000;

/// A net as the arithmetic sees it.
pub struct NetView {
    pub nodes: Seq<NodeView>,
    pub target: int,
    pub learning_rate: int,
}

impl NetView {
    /// The net built from `inputs`: one node per input, in order, every weight zero.
    pub open spec fn fresh(inputs: Seq<int>, target: int, learning_rate: int) -> NetView {
        NetView {
            nodes: Seq::new(inputs.len(), |i: int| NodeView { input: inputs[i], weight: 0 }),
            target,
            learning_rate,
        }
    }

    /// The weights, in the order of the inputs.
    pub open spec fn weights(self) -> Seq<int> {
        Seq::new(self.nodes.len(), |i: int| self.nodes[i].weight)
    }

    /// The weighted sum of the inputs.
    pub open spec fn result(self) -> int {
        weighted_sum(self.nodes)
    }

    /// How far the weighted sum is below the target.
    pub open spec fn error(self) -> int {
        self.target - self.result()
    }

    /// The weighted sum has reached or passed the target.
    pub open spec fn reached(self) -> bool {
        self.error() <= 0
    }

    /// The net after `steps` learning steps.
    pub open spec fn trained(self, steps: nat) -> NetView {
        NetView {
            nodes: Seq::new(
                self.nodes.len(),
                |i: int| self.nodes[i].trained(self.learning_rate, steps),
            ),
            target: self.target,
            learning_rate: self.learning_rate,
        }
    }

    /// The net after one learning step.
    pub open spec fn learned(self) -> NetView {
        self.trained(1)
    }

    /// The first trial in `from..trials` at which the net, trained once per
    /// earlier trial, has reached its target.
    pub open spec fn first_reached(self, from: nat, trials: nat) -> Option<nat>
        decreases trials - from,
    {
        if from >= trials {
            None
        } else if self.trained(from).reached() {
            Some(from)
        } else {
            self.first_reached(from + 1, trials)
        }
    }

    /// The trial at which a run of `trials` trials stops early, if it does.
    pub open spec fn stopping_trial(self, trials: nat) -> Option<nat> {
        self.first_reached(0, trials)
    }

    /// The number of learning steps that a run of `trials` trials takes: one
    /// per trial before the stopping trial, or one per trial if there is none.
    pub open spec fn learning_steps(self, trials: nat) -> nat {
        match self.stopping_trial(trials) {
            Some(trial) => trial,
            None => trials,
        }
    }

    /// After `steps` learning steps every weight still fits its machine type.
    pub open spec fn fits_after(self, steps: nat) -> bool {
        forall|i: int|
            0 <= i < self.nodes.len() ==> (#[trigger] self.nodes[i]).trained(
                self.learning_rate,
                steps,
            ).in_range()
    }

    /// A run of `trials` trials never leaves the range of the machine type.
    pub open spec fn can_run(self, trials: nat) -> bool {
        self.fits_after(self.learning_steps(trials))
    }
}

} // verus!
