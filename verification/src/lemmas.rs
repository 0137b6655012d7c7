//! Facts about the model that the contracts and the theorems rest on.

use crate::model::{weighted_sum, NetView, NodeView, PRODUCT_BOUND};
use vstd::prelude::*;

verus! {

/// A product of two stored scalars stays within [`PRODUCT_BOUND`].
pub proof fn lemma_product_bound(input: int, weight: int)
    requires
        i32::MIN <= input <= i32::MAX,
        i32::MIN <= weight <= i32::MAX,
    ensures
        -PRODUCT_BOUND <= input * weight <= PRODUCT_BOUND,
{
    assert(-0x4000_0000_0000_0000 <= input * weight <= 0x4000_0000_0000_0000) by (nonlinear_arith)
        requires
            -0x8000_0000 <= input <= 0x7fff_ffff,
            -0x8000_0000 <= weight <= 0x7fff_ffff,
    ;
}

/// The sum over the first `at + 1` nodes is the sum over the first `at`
/// nodes plus the product of node `at`.
pub proof fn lemma_weighted_sum_step(nodes: Seq<NodeView>, at: int)
    requires
        0 <= at < nodes.len(),
    ensures
        weighted_sum(nodes.take(at + 1)) == weighted_sum(nodes.take(at)) + nodes[at].product(),
{
    assert(nodes.take(at + 1).drop_last() =~= nodes.take(at));
}

/// Node by node, products that are no smaller give a sum that is no smaller.
pub proof fn lemma_weighted_sum_monotone(lower: Seq<NodeView>, upper: Seq<NodeView>)
    requires
        lower.len() == upper.len(),
        forall|i: int| 0 <= i < lower.len() ==> lower[i].product() <= upper[i].product(),
    ensures
        weighted_sum(lower) <= weighted_sum(upper),
    decreases lower.len(),
{
    if lower.len() > 0 {
        lemma_weighted_sum_monotone(lower.drop_last(), upper.drop_last());
    }
}

/// Node by node, products that are no smaller and one that is larger give a
/// sum that is larger.
pub proof fn lemma_weighted_sum_strict(lower: Seq<NodeView>, upper: Seq<NodeView>, at: int)
    requires
        lower.len() == upper.len(),
        forall|i: int| 0 <= i < lower.len() ==> lower[i].product() <= upper[i].product(),
        0 <= at < lower.len(),
        lower[at].product() < upper[at].product(),
    ensures
        weighted_sum(lower) < weighted_sum(upper),
    decreases lower.len(),
{
    if at == lower.len() - 1 {
        lemma_weighted_sum_monotone(lower.drop_last(), upper.drop_last());
    } else {
        lemma_weighted_sum_strict(lower.drop_last(), upper.drop_last(), at);
    }
}

/// Nodes whose weights are all zero sum to zero.
pub proof fn lemma_weighted_sum_of_zero_weights(nodes: Seq<NodeView>)
    requires
        forall|i: int| 0 <= i < nodes.len() ==> nodes[i].weight == 0,
    ensures
        weighted_sum(nodes) == 0,
    decreases nodes.len(),
{
    if nodes.len() > 0 {
        lemma_weighted_sum_of_zero_weights(nodes.drop_last());
    }
}

/// Training for no steps changes nothing.
pub proof fn lemma_trained_zero(net: NetView)
    ensures
        net.trained(0) == net,
{
    assert(net.trained(0).nodes =~= net.nodes);
}

/// Training in two stages is training for the sum of their steps.
pub proof fn lemma_trained_twice(net: NetView, first: nat, second: nat)
    ensures
        net.trained(first).trained(second) == net.trained(first + second),
{
    let rate = net.learning_rate;
    assert((first + second) * rate == first * rate + second * rate) by (nonlinear_arith);
    assert(net.trained(first).trained(second).nodes =~= net.trained(first + second).nodes);
}

/// With a positive learning rate, no node's product is smaller after more
/// learning steps.
pub proof fn lemma_products_non_decreasing(net: NetView, earlier: nat, later: nat)
    requires
        net.learning_rate > 0,
        earlier <= later,
    ensures
        forall|i: int|
            0 <= i < net.nodes.len() ==> (#[trigger] net.trained(earlier).nodes[i]).product()
                <= net.trained(later).nodes[i].product(),
{
    let rate = net.learning_rate;
    assert forall|i: int| 0 <= i < net.nodes.len() implies (#[trigger] net.trained(
        earlier,
    ).nodes[i]).product() <= net.trained(later).nodes[i].product() by {
        let node = net.nodes[i];
        if node.input > 0 {
            assert(node.input * (node.weight + earlier * rate) <= node.input * (node.weight + later
                * rate)) by (nonlinear_arith)
                requires
                    node.input > 0,
                    rate > 0,
                    earlier <= later,
            ;
        }
    }
}

/// Between no step and `most` steps every weight stays within the range
/// that it is in at both ends.
pub proof fn lemma_fits_between(net: NetView, steps: nat, most: nat)
    requires
        steps <= most,
        net.fits_after(0),
        net.fits_after(most),
    ensures
        net.fits_after(steps),
{
    let rate = net.learning_rate;
    assert forall|i: int| 0 <= i < net.nodes.len() implies (#[trigger] net.nodes[i]).trained(
        rate,
        steps,
    ).in_range() by {
        let node = net.nodes[i];
        assert((0 <= steps * rate <= most * rate) || (most * rate <= steps * rate <= 0))
            by (nonlinear_arith)
            requires
                0 <= steps <= most,
        ;
    }
}

/// Where the weights fit after `steps + 1` steps, the net trained for
/// `steps` steps has room for one more.
pub proof fn lemma_room_for_next_step(net: NetView, steps: nat)
    requires
        net.fits_after(steps + 1),
    ensures
        net.trained(steps).fits_after(1),
{
    lemma_trained_twice(net, steps, 1);
    let at = net.trained(steps);
    assert forall|i: int| 0 <= i < at.nodes.len() implies (#[trigger] at.nodes[i]).trained(
        at.learning_rate,
        1,
    ).in_range() by {
        assert(at.trained(1).nodes[i] == at.nodes[i].trained(at.learning_rate, 1));
    }
}

/// What `first_reached` finds: the least trial from `from` on, below
/// `trials`, at which the target is reached; nothing if there is none.
pub proof fn lemma_first_reached(net: NetView, from: nat, trials: nat)
    ensures
        match net.first_reached(from, trials) {
            Some(trial) => {
                &&& from <= trial < trials
                &&& net.trained(trial).reached()
                &&& forall|earlier: nat|
                    from <= earlier < trial ==> !(#[trigger] net.trained(earlier)).reached()
            },
            None => forall|trial: nat|
                from <= trial < trials ==> !(#[trigger] net.trained(trial)).reached(),
        },
    decreases trials - from,
{
    if from < trials && !net.trained(from).reached() {
        lemma_first_reached(net, from + 1, trials);
    }
}

/// A run stops at the first trial at which the target is reached.
pub proof fn lemma_stops_at(net: NetView, trials: nat, trial: nat)
    requires
        trial < trials,
        net.trained(trial).reached(),
        forall|earlier: nat| earlier < trial ==> !(#[trigger] net.trained(earlier)).reached(),
    ensures
        net.stopping_trial(trials) == Some(trial),
        net.learning_steps(trials) == trial,
{
    lemma_first_reached(net, 0, trials);
}

/// A run in which no trial reaches the target does not stop early.
pub proof fn lemma_never_stops(net: NetView, trials: nat)
    requires
        forall|trial: nat| trial < trials ==> !(#[trigger] net.trained(trial)).reached(),
    ensures
        net.stopping_trial(trials) is None,
        net.learning_steps(trials) == trials,
{
    lemma_first_reached(net, 0, trials);
}

/// A run takes at most one learning step per trial, and more than `done`
/// of them where none of the trials up to `done` reaches the target.
pub proof fn lemma_learning_steps(net: NetView, trials: nat, done: nat)
    requires
        done < trials,
        forall|trial: nat| trial <= done ==> !(#[trigger] net.trained(trial)).reached(),
    ensures
        done < net.learning_steps(trials) <= trials,
{
    lemma_first_reached(net, 0, trials);
}

/// Room for one learning step per trial is room for the run.
pub proof fn lemma_room_suffices(net: NetView, trials: nat)
    requires
        net.fits_after(0),
        net.fits_after(trials),
    ensures
        net.can_run(trials),
{
    lemma_first_reached(net, 0, trials);
    lemma_fits_between(net, net.learning_steps(trials), trials);
}

} // verus!
