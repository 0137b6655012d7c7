//! What holds of every net: how learning moves the weights and the weighted
//! sum, and when a run stops.

use crate::lemmas::{
    lemma_never_stops, lemma_products_non_decreasing, lemma_trained_zero,
    lemma_weighted_sum_monotone, lemma_weighted_sum_of_zero_weights, lemma_weighted_sum_strict,
};
use crate::model::{as_ints, NetView};
use vstd::prelude::*;

verus! {

/// Learning changes weights only, and only those of nodes with a strictly
/// positive input: the number of nodes, every input, the target and the
/// learning rate stay as they are, and so does the weight of every node
/// whose input is zero or less.
pub proof fn lemma_learning_changes_weights_only(net: NetView, steps: nat)
    ensures
        net.trained(steps).nodes.len() == net.nodes.len(),
        net.trained(steps).target == net.target,
        net.trained(steps).learning_rate == net.learning_rate,
        forall|i: int|
            0 <= i < net.nodes.len() ==> {
                &&& (#[trigger] net.trained(steps).nodes[i]).input == net.nodes[i].input
                &&& net.nodes[i].input <= 0 ==> net.trained(steps).nodes[i].weight
                    == net.nodes[i].weight
                &&& net.nodes[i].input > 0 ==> net.trained(steps).nodes[i].weight
                    == net.nodes[i].weight + steps * net.learning_rate
            },
{
}

/// In a fresh net that has taken `steps` learning steps, the weight of a
/// strictly positive input is `steps` times the learning rate, and every
/// other weight is zero.
pub proof fn lemma_fresh_weights(inputs: Seq<int>, target: int, learning_rate: int, steps: nat)
    ensures
        NetView::fresh(inputs, target, learning_rate).trained(steps).weights() == Seq::new(
            inputs.len(),
            |i: int|
                if inputs[i] > 0 {
                    steps * learning_rate
                } else {
                    0
                },
        ),
{
    let net = NetView::fresh(inputs, target, learning_rate);
    assert(net.trained(steps).weights() =~= Seq::new(
        inputs.len(),
        |i: int|
            if inputs[i] > 0 {
                steps * learning_rate
            } else {
                0
            },
    ));
}

/// Weights read twice from a net that has not changed in between are the
/// same, scalar for scalar.
pub proof fn lemma_weights_are_repeatable(net: NetView, first: Seq<i32>, second: Seq<i32>)
    requires
        as_ints(first) == net.weights(),
        as_ints(second) == net.weights(),
    ensures
        first == second,
{
    assert(first.len() == as_ints(first).len() == as_ints(second).len() == second.len());
    assert forall|i: int| 0 <= i < first.len() implies first[i] == second[i] by {
        assert(first[i] as int == as_ints(first)[i] == as_ints(second)[i] == second[i] as int);
    }
    assert(first =~= second);
}

/// With a positive learning rate, more learning never lowers the weighted
/// sum: over the trials of a run the results do not decrease.
pub proof fn lemma_result_non_decreasing(net: NetView, earlier: nat, later: nat)
    requires
        net.learning_rate > 0,
        earlier <= later,
    ensures
        net.trained(earlier).result() <= net.trained(later).result(),
{
    lemma_products_non_decreasing(net, earlier, later);
    lemma_weighted_sum_monotone(net.trained(earlier).nodes, net.trained(later).nodes);
}

/// With a positive learning rate and a positive input, more learning raises
/// the weighted sum.
pub proof fn lemma_result_increasing(net: NetView, earlier: nat, later: nat, positive: int)
    requires
        net.learning_rate > 0,
        earlier < later,
        0 <= positive < net.nodes.len(),
        net.nodes[positive].input > 0,
    ensures
        net.trained(earlier).result() < net.trained(later).result(),
{
    lemma_products_non_decreasing(net, earlier, later);
    let rate = net.learning_rate;
    let node = net.nodes[positive];
    assert(node.input * (node.weight + earlier * rate) < node.input * (node.weight + later * rate))
        by (nonlinear_arith)
        requires
            node.input > 0,
            rate > 0,
            earlier < later,
    ;
    lemma_weighted_sum_strict(net.trained(earlier).nodes, net.trained(later).nodes, positive);
}

/// One learning step at a positive learning rate does not lower the
/// weighted sum.
pub proof fn lemma_learning_does_not_lower_result(net: NetView)
    requires
        net.learning_rate > 0,
    ensures
        net.result() <= net.learned().result(),
{
    lemma_trained_zero(net);
    lemma_result_non_decreasing(net, 0, 1);
}

/// A net without a positive input learns nothing: its weights stay as they
/// are, however many steps it takes.
pub proof fn lemma_no_positive_input_learns_nothing(net: NetView, steps: nat)
    requires
        forall|i: int| 0 <= i < net.nodes.len() ==> net.nodes[i].input <= 0,
    ensures
        net.trained(steps) == net,
{
    assert(net.trained(steps).nodes =~= net.nodes);
}

/// A fresh net without a positive input keeps every weight at zero and its
/// weighted sum at zero through every trial.
pub proof fn lemma_no_positive_input_stays_at_zero(
    inputs: Seq<int>,
    target: int,
    learning_rate: int,
    steps: nat,
)
    requires
        forall|i: int| 0 <= i < inputs.len() ==> inputs[i] <= 0,
    ensures
        NetView::fresh(inputs, target, learning_rate).trained(steps).result() == 0,
        NetView::fresh(inputs, target, learning_rate).trained(steps).weights() == Seq::new(
            inputs.len(),
            |i: int| 0int,
        ),
{
    let net = NetView::fresh(inputs, target, learning_rate);
    lemma_no_positive_input_learns_nothing(net, steps);
    lemma_weighted_sum_of_zero_weights(net.nodes);
}

/// A fresh net without a positive input never reaches a positive target: a
/// run spends all of its trials and does not stop early.
pub proof fn lemma_no_positive_input_never_converges(
    inputs: Seq<int>,
    target: int,
    learning_rate: int,
    trials: nat,
)
    requires
        forall|i: int| 0 <= i < inputs.len() ==> inputs[i] <= 0,
        target > 0,
    ensures
        NetView::fresh(inputs, target, learning_rate).stopping_trial(trials) is None,
        NetView::fresh(inputs, target, learning_rate).learning_steps(trials) == trials,
{
    let net = NetView::fresh(inputs, target, learning_rate);
    assert forall|trial: nat| trial < trials implies !(#[trigger] net.trained(trial)).reached() by {
        lemma_no_positive_input_stays_at_zero(inputs, target, learning_rate, trial);
    }
    lemma_never_stops(net, trials);
}

/// A run of no trials evaluates nothing, learns nothing and does not stop
/// early, whatever the target.
pub proof fn lemma_zero_trials(net: NetView)
    ensures
        net.stopping_trial(0) is None,
        net.learning_steps(0) == 0,
        net.trained(net.learning_steps(0)) == net,
{
    lemma_trained_zero(net);
}

/// A net without nodes whose target is zero or less stops at the first
/// trial of any run that has one, having learned nothing.
pub proof fn lemma_empty_net_stops_at_once(net: NetView, trials: nat)
    requires
        net.nodes.len() == 0,
        net.target <= 0,
        trials > 0,
    ensures
        net.stopping_trial(trials) == Some(0nat),
        net.learning_steps(trials) == 0,
        net.trained(net.learning_steps(trials)).weights() == Seq::<int>::empty(),
{
}

} // verus!
