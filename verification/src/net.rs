//! The net: an ordered sequence of nodes with a target and a learning rate.

use crate::lemmas::{
    lemma_fits_between, lemma_learning_steps, lemma_never_stops, lemma_product_bound,
    lemma_room_for_next_step, lemma_room_suffices, lemma_stops_at, lemma_trained_twice,
    lemma_trained_zero, lemma_weighted_sum_step,
};
use crate::model::{as_ints, weighted_sum, NetView, NodeView, PRODUCT_BOUND};
use crate::node::Node;
use vstd::prelude::*;

verus! {

/// What one trial observed: its index, the weighted sum and the error.
#[derive(Clone, Copy, Debug, PartialEq, Eq)]
pub struct Trial {
    pub index: usize,
    pub result: i128,
    pub error: i128,
}

/// `trace` holds, in order, what the first trials of a run of `net` observe:
/// trial `i` sees the net after `i` learning steps.
pub open spec fn is_trace_of(trace: Seq<Trial>, net: NetView) -> bool {
    forall|i: int|
        0 <= i < trace.len() ==> {
            &&& (#[trigger] trace[i]).index == i
            &&& trace[i].result == net.trained(i as nat).result()
            &&& trace[i].error == net.trained(i as nat).error()
        }
}

/// An ordered sequence of nodes, the target that their weighted sum is to
/// reach, and the amount by which a learning step raises a weight.
pub struct Net {
    index: usize,
    nodes: Vec<Node>,
    target: i64,
    learning_rate: i32,
}

impl View for Net {
    type V = NetView;

    closed spec fn view(&self) -> NetView {
        NetView {
            nodes: Seq::new(self.nodes@.len(), |i: int| self.nodes@[i]@),
            target: self.target as int,
            learning_rate: self.learning_rate as int,
        }
    }
}

impl Net {
    /// The position of the traversal cursor.
    pub closed spec fn cursor(&self) -> nat {
        self.index as nat
    }

    /// The cursor is at rest: no traversal is under way.
    pub open spec fn wf(&self) -> bool {
        self.cursor() == 0
    }

    /// A net with one node per input, in order, every weight zero.
    pub fn new(inputs: Vec<i32>, target: i64, learning_rate: i32) -> (net: Net)
        ensures
            net.wf(),
            net@ == NetView::fresh(as_ints(inputs@), target as int, learning_rate as int),
    {
        let ghost given: Seq<i32> = inputs@;
        let mut net = Net { index: 0, nodes: Vec::new(), target, learning_rate };
        net.initialize(inputs);
        assert forall|i: int| 0 <= i < given.len() implies net.nodes@[i]@ == (NodeView {
            input: given[i] as int,
            weight: 0,
        }) by {
            assert(net.nodes@[0 + i] == net.nodes@[i]);
        }
        assert(net@.nodes =~= NetView::fresh(
            as_ints(given),
            target as int,
            learning_rate as int,
        ).nodes);
        net
    }

    /// Appends one node per input, in order.
    fn initialize(&mut self, inputs: Vec<i32>)
        ensures
            final(self).index == old(self).index,
            final(self).target == old(self).target,
            final(self).learning_rate == old(self).learning_rate,
            final(self).nodes@.len() == old(self).nodes@.len() + inputs@.len(),
            forall|i: int|
                0 <= i < old(self).nodes@.len() ==> final(self).nodes@[i] == old(self).nodes@[i],
            forall|i: int|
                0 <= i < inputs@.len() ==> (#[trigger] final(self).nodes@[old(self).nodes@.len()
                    + i])@ == (NodeView { input: inputs@[i] as int, weight: 0 }),
    {
        let ghost base: int = self.nodes@.len() as int;
        let ghost given: Seq<i32> = inputs@;
        for input in it: inputs
            invariant
                it.seq() == given,
                base == old(self).nodes@.len(),
                self.index == old(self).index,
                self.target == old(self).target,
                self.learning_rate == old(self).learning_rate,
                self.nodes@.len() == base + it.index(),
                forall|i: int| 0 <= i < base ==> self.nodes@[i] == old(self).nodes@[i],
                forall|i: int|
                    0 <= i < it.index() ==> (#[trigger] self.nodes@[base + i])@ == (NodeView {
                        input: given[i] as int,
                        weight: 0,
                    }),
        {
            self.add_node(input);
        }
    }

    /// Runs up to `trials` trials. Each trial evaluates the weighted sum and
    /// stops the run if the sum has reached the target; otherwise the net
    /// learns and the next trial follows. Returns the final weights and the
    /// trial at which the run stopped, if it did.
    pub fn run(&mut self, trials: usize) -> (outcome: (Vec<i32>, Option<usize>))
        requires
            old(self).wf(),
            old(self)@.can_run(trials as nat),
        ensures
            final(self).wf(),
            final(self)@ == old(self)@.trained(old(self)@.learning_steps(trials as nat)),
            as_ints(outcome.0@) == final(self)@.weights(),
            match outcome.1 {
                Some(trial) => old(self)@.stopping_trial(trials as nat) == Some(trial as nat),
                None => old(self)@.stopping_trial(trials as nat) is None,
            },
    {
        let (weights, stopped, _) = self.run_traced(trials);
        (weights, stopped)
    }

    /// [`Net::run`], which also hands back what each trial observed, in order.
    pub fn run_traced(&mut self, trials: usize) -> (outcome: (
        Vec<i32>,
        Option<usize>,
        Vec<Trial>,
    ))
        requires
            old(self).wf(),
            old(self)@.can_run(trials as nat),
        ensures
            final(self).wf(),
            final(self)@ == old(self)@.trained(old(self)@.learning_steps(trials as nat)),
            as_ints(outcome.0@) == final(self)@.weights(),
            match outcome.1 {
                Some(trial) => {
                    &&& old(self)@.stopping_trial(trials as nat) == Some(trial as nat)
                    &&& outcome.2@.len() == trial + 1
                },
                None => {
                    &&& old(self)@.stopping_trial(trials as nat) is None
                    &&& outcome.2@.len() == trials
                },
            },
            is_trace_of(outcome.2@, old(self)@),
    {
        let mut trace: Vec<Trial> = Vec::new();
        proof {
            lemma_trained_zero(self@);
            self.lemma_stored_in_range();
        }
        for trial in 0..trials
            invariant
                self.wf(),
                old(self)@.nodes.len() <= usize::MAX,
                self@ == old(self)@.trained(trial as nat),
                old(self)@.can_run(trials as nat),
                old(self)@.fits_after(0),
                forall|earlier: nat|
                    earlier < trial ==> !(#[trigger] old(self)@.trained(earlier)).reached(),
                trace@.len() == trial,
                is_trace_of(trace@, old(self)@),
        {
            let result: i128 = self.evaluate();
            let error: i128 = self.evaluate_err(result);
            trace.push(Trial { index: trial, result, error });
            // Reaching the target, or passing it, ends the run.
            if error <= 0 {
                proof {
                    lemma_stops_at(old(self)@, trials as nat, trial as nat);
                }
                return (self.weights(), Some(trial), trace);
            }
            // Short of the target, there is room for one more step.
            proof {
                let start = old(self)@;
                lemma_learning_steps(start, trials as nat, trial as nat);
                lemma_fits_between(
                    start,
                    (trial + 1) as nat,
                    start.learning_steps(trials as nat),
                );
                lemma_room_for_next_step(start, trial as nat);
                lemma_trained_twice(start, trial as nat, 1);
            }
            self.learn();
        }
        proof {
            lemma_never_stops(old(self)@, trials as nat);
        }
        (self.weights(), None, trace)
    }

    /// The weighted sum of the inputs: every node is visited once, in order.
    pub fn evaluate(&mut self) -> (result: i128)
        requires
            old(self).wf(),
        ensures
            final(self).wf(),
            final(self)@ == old(self)@,
            result == old(self)@.result(),
            -(old(self)@.nodes.len() * PRODUCT_BOUND) <= result <= old(self)@.nodes.len()
                * PRODUCT_BOUND,
    {
        let mut result: i128 = 0;
        loop
            invariant_except_break
                self.index <= self.nodes.len(),
                result == weighted_sum(self@.nodes.take(self.index as int)),
                -(self.index * PRODUCT_BOUND) <= result <= self.index * PRODUCT_BOUND,
            invariant
                self.nodes@ == old(self).nodes@,
                self.target == old(self).target,
                self.learning_rate == old(self).learning_rate,
            ensures
                self.index == 0,
                result == weighted_sum(self@.nodes),
                -(self.nodes.len() * PRODUCT_BOUND) <= result <= self.nodes.len() * PRODUCT_BOUND,
            decreases self.nodes.len() - self.index,
        {
            let ghost at: int = self.index as int;
            let ghost before: Seq<Node> = self.nodes@;
            match self.next() {
                Some(node) => {
                    let input: i32 = node.input();
                    let weight: i32 = node.weight();
                    proof {
                        lemma_product_bound(input as int, weight as int);
                    }
                    result = result + (input as i128) * (weight as i128);
                },
                None => {
                    assert(self@.nodes.take(at) =~= self@.nodes);
                    break ;
                },
            }
            proof {
                assert(self.nodes@ =~= before);
                lemma_weighted_sum_step(self@.nodes, at);
            }
        }
        result
    }

    /// The error of a weighted sum: how far `result` is below the target.
    pub fn evaluate_err(&self, result: i128) -> (error: i128)
        requires
            i128::MIN <= self@.target - result <= i128::MAX,
        ensures
            error == self@.target - result,
    {
        (self.target() as i128) - result
    }

    /// One learning step: every node with a strictly positive input gains
    /// the learning rate; the other weights stay as they are.
    pub fn learn(&mut self)
        requires
            old(self).wf(),
            old(self)@.fits_after(1),
        ensures
            final(self).wf(),
            final(self)@ == old(self)@.learned(),
    {
        let learning_rate: i32 = self.learning_rate();
        let ghost start: Seq<Node> = self.nodes@;
        let ghost rate: int = learning_rate as int;
        loop
            invariant_except_break
                self.index <= self.nodes.len(),
                forall|j: int|
                    0 <= j < self.index ==> (#[trigger] self.nodes@[j])@ == start[j]@.trained(
                        rate,
                        1,
                    ),
                forall|j: int| self.index <= j < self.nodes.len() ==> self.nodes@[j] == start[j],
            invariant
                old(self)@.fits_after(1),
                start == old(self).nodes@,
                rate == learning_rate == old(self).learning_rate,
                self.nodes@.len() == start.len(),
                self.target == old(self).target,
                self.learning_rate == old(self).learning_rate,
            ensures
                self.index == 0,
                forall|j: int|
                    0 <= j < self.nodes.len() ==> (#[trigger] self.nodes@[j])@ == start[j]@.trained(
                        rate,
                        1,
                    ),
            decreases self.nodes.len() - self.index,
        {
            let ghost at: int = self.index as int;
            match self.next() {
                Some(node) => {
                    assert(old(self)@.nodes[at].trained(rate, 1).in_range());
                    if node.input() > 0 {
                        node.raise(learning_rate);
                    }
                },
                None => {
                    break ;
                },
            }
        }
        assert(self@.nodes =~= old(self)@.learned().nodes);
    }

    /// Whether every weight still fits its machine type after `steps` more
    /// learning steps. Where it does, a run of `steps` trials is in order.
    pub fn has_room_for(&mut self, steps: usize) -> (fits: bool)
        requires
            old(self).wf(),
        ensures
            final(self).wf(),
            final(self)@ == old(self)@,
            fits == old(self)@.fits_after(steps as nat),
            fits ==> old(self)@.can_run(steps as nat),
    {
        let learning_rate: i32 = self.learning_rate();
        let mut fits: bool = true;
        loop
            invariant_except_break
                self.index <= self.nodes.len(),
                fits == forall|j: int|
                    0 <= j < self.index ==> (#[trigger] old(self)@.nodes[j]).trained(
                        learning_rate as int,
                        steps as nat,
                    ).in_range(),
            invariant
                learning_rate == old(self).learning_rate,
                self.nodes@ == old(self).nodes@,
                self.target == old(self).target,
                self.learning_rate == old(self).learning_rate,
            ensures
                self.index == 0,
                fits == old(self)@.fits_after(steps as nat),
            decreases self.nodes.len() - self.index,
        {
            let ghost at: int = self.index as int;
            match self.next() {
                Some(node) => {
                    let input: i32 = node.input();
                    let weight: i32 = node.weight();
                    assert(node@ == old(self)@.nodes[at]);
                    if input > 0 {
                        assert(-0x8000_0000_0000_0000_0000_0000 <= steps * learning_rate
                            <= 0x8000_0000_0000_0000_0000_0000) by (nonlinear_arith)
                            requires
                                0 <= steps <= 0xffff_ffff_ffff_ffff,
                                -0x8000_0000 <= learning_rate <= 0x7fff_ffff,
                        ;
                        let gain: i128 = (steps as i128) * (learning_rate as i128);
                        let raised: i128 = (weight as i128) + gain;
                        if raised < (i32::MIN as i128) || raised > (i32::MAX as i128) {
                            fits = false;
                        }
                    }
                },
                None => {
                    break ;
                },
            }
        }
        proof {
            if fits {
                self.lemma_stored_in_range();
                lemma_room_suffices(self@, steps as nat);
            }
        }
        fits
    }

    /// Hands out the node under the cursor and moves the cursor on; past the
    /// last node it hands out nothing and puts the cursor back to the start.
    fn next(&mut self) -> (node: Option<&mut Node>)
        requires
            old(self).index <= old(self).nodes.len(),
        ensures
            old(self).index < old(self).nodes.len() ==> node.is_some(),
            node matches Some(n) ==> {
                &&& old(self).index < old(self).nodes.len()
                &&& *n == old(self).nodes@[old(self).index as int]
                &&& final(self).nodes@ == old(self).nodes@.update(old(self).index as int, *final(n))
                &&& final(self).index == old(self).index + 1
                &&& final(self).target == old(self).target
                &&& final(self).learning_rate == old(self).learning_rate
            },
            node is None ==> {
                &&& final(self).index == 0
                &&& final(self).nodes@ == old(self).nodes@
                &&& final(self).target == old(self).target
                &&& final(self).learning_rate == old(self).learning_rate
            },
    {
        if self.len() > self.index() {
            let i: usize = self.index();
            self.index += 1;
            return Some(&mut self.nodes[i]);
        }
        self.index = 0;
        None
    }

    /// Appends a node for `input`.
    fn add_node(&mut self, input: i32)
        ensures
            final(self).index == old(self).index,
            final(self).target == old(self).target,
            final(self).learning_rate == old(self).learning_rate,
            final(self).nodes@.len() == old(self).nodes@.len() + 1,
            forall|i: int|
                0 <= i < old(self).nodes@.len() ==> final(self).nodes@[i] == old(self).nodes@[i],
            final(self).nodes@[old(self).nodes@.len() as int]@ == (NodeView {
                input: input as int,
                weight: 0,
            }),
    {
        self.nodes.push(Node::new(input));
    }

    /// The number of nodes.
    pub fn len(&self) -> (len: usize)
        ensures
            len == self@.nodes.len(),
    {
        self.nodes.len()
    }

    fn index(&self) -> (index: usize)
        ensures
            index == self.index,
    {
        self.index
    }

    /// The value that the weighted sum is to reach.
    pub fn target(&self) -> (target: i64)
        ensures
            target == self@.target,
    {
        self.target
    }

    /// The amount that a learning step adds to a weight.
    pub fn learning_rate(&self) -> (learning_rate: i32)
        ensures
            learning_rate == self@.learning_rate,
    {
        self.learning_rate
    }

    /// The current weights, in the order of the inputs.
    pub fn weights(&mut self) -> (weights: Vec<i32>)
        requires
            old(self).wf(),
        ensures
            final(self).wf(),
            final(self)@ == old(self)@,
            as_ints(weights@) == old(self)@.weights(),
    {
        let mut result_vec: Vec<i32> = Vec::new();
        loop
            invariant_except_break
                self.index <= self.nodes.len(),
                result_vec@.len() == self.index,
            invariant
                self.nodes@ == old(self).nodes@,
                self.target == old(self).target,
                self.learning_rate == old(self).learning_rate,
                forall|j: int|
                    0 <= j < result_vec@.len() ==> result_vec@[j] as int == self.nodes@[j]@.weight,
            ensures
                self.index == 0,
                result_vec@.len() == self.nodes.len(),
            decreases self.nodes.len() - self.index,
        {
            match self.next() {
                Some(node) => {
                    result_vec.push(node.weight());
                },
                None => {
                    break ;
                },
            }
        }
        result_vec
    }

    /// What is stored is within the machine range.
    pub proof fn lemma_stored_in_range(&self)
        ensures
            self@.fits_after(0),
            self@.nodes.len() <= usize::MAX,
    {
        let net = self@;
        assert forall|i: int| 0 <= i < net.nodes.len() implies (#[trigger] net.nodes[i]).trained(
            net.learning_rate,
            0,
        ).in_range() by {
            self.nodes@[i].lemma_in_range();
        }
        assert(self.nodes.len() <= usize::MAX);
    }
}

} // verus!
