use perceptron::{Net, Trial};

/// Inputs 0, 0, 10, 0, 1, 0, 1; weights in tenths, so a learning rate of one
/// tenth is 1 and a target of 30 is 300.
fn example() -> Net {
    Net::new(vec![0, 0, 10, 0, 1, 0, 1], 300, 1)
}

#[test]
fn nine_trials_do_not_reach_the_target() {
    let mut net = example();
    assert!(net.has_room_for(9));
    let (weights, stopped) = net.run(9);
    assert_eq!(weights, vec![0, 0, 9, 0, 9, 0, 9]);
    assert_eq!(stopped, None);
}

#[test]
fn the_target_is_reached_at_trial_twenty_five() {
    let mut net = example();
    assert!(net.has_room_for(100));
    let (weights, stopped) = net.run(100);
    assert_eq!(stopped, Some(25));
    assert_eq!(weights, vec![0, 0, 25, 0, 25, 0, 25]);
}

#[test]
fn twenty_five_trials_are_one_too_few() {
    let mut net = example();
    let (weights, stopped) = net.run(25);
    assert_eq!(stopped, None);
    assert_eq!(weights, vec![0, 0, 25, 0, 25, 0, 25]);
    let (weights, stopped) = net.run(1);
    assert_eq!(stopped, Some(0));
    assert_eq!(weights, vec![0, 0, 25, 0, 25, 0, 25]);
}

#[test]
fn twenty_six_trials_stop_at_the_last_one() {
    let mut net = example();
    let (_, stopped) = net.run(26);
    assert_eq!(stopped, Some(25));
}

#[test]
fn each_trial_sees_twelve_tenths_more() {
    let mut net = example();
    let (_, stopped, trace) = net.run_traced(9);
    assert_eq!(stopped, None);
    assert_eq!(trace.len(), 9);
    for (t, trial) in trace.iter().enumerate() {
        let result = 12 * t as i128;
        assert_eq!(*trial, Trial { index: t, result, error: 300 - result });
    }
}

#[test]
fn the_trace_ends_with_the_stopping_trial() {
    let mut net = example();
    let (_, stopped, trace) = net.run_traced(40);
    assert_eq!(stopped, Some(25));
    assert_eq!(trace.len(), 26);
    assert_eq!(trace[24], Trial { index: 24, result: 288, error: 12 });
    assert_eq!(trace[25], Trial { index: 25, result: 300, error: 0 });
}

#[test]
fn results_never_decrease_with_a_positive_rate() {
    let mut net = Net::new(vec![3, -4, 0, 7, -1], 1_000, 2);
    net.learn();
    net.learn();
    let (_, stopped, trace) = net.run_traced(30);
    assert_eq!(stopped, None);
    assert_eq!(trace.len(), 30);
    assert_eq!(trace[0].result, 40);
    for pair in trace.windows(2) {
        assert!(pair[0].result < pair[1].result);
        assert_eq!(pair[1].result - pair[0].result, 20);
    }
}

#[test]
fn results_stay_level_without_a_positive_input() {
    let mut net = Net::new(vec![-3, 0, -7], 5, 2);
    let (_, _, trace) = net.run_traced(10);
    for pair in trace.windows(2) {
        assert!(pair[0].result <= pair[1].result);
        assert_eq!(pair[0].result, pair[1].result);
    }
}

#[test]
fn passing_the_target_stops_the_run_too() {
    // One node of input 7: the sums are 0, 21, 42, and 42 is past 30.
    let mut net = Net::new(vec![7], 30, 3);
    let (weights, stopped, trace) = net.run_traced(10);
    assert_eq!(stopped, Some(2));
    assert_eq!(weights, vec![6]);
    assert_eq!(trace[2], Trial { index: 2, result: 42, error: -12 });
}

#[test]
fn no_positive_input_never_converges() {
    let mut net = Net::new(vec![0, -3, 0, -10], 1, 5);
    let (weights, stopped, trace) = net.run_traced(50);
    assert_eq!(weights, vec![0, 0, 0, 0]);
    assert_eq!(stopped, None);
    assert_eq!(trace.len(), 50);
    for (t, trial) in trace.iter().enumerate() {
        assert_eq!(*trial, Trial { index: t, result: 0, error: 1 });
    }
}

#[test]
fn zero_trials_change_nothing() {
    let mut net = example();
    let (weights, stopped, trace) = net.run_traced(0);
    assert_eq!(weights, vec![0; 7]);
    assert_eq!(stopped, None);
    assert!(trace.is_empty());
}

#[test]
fn zero_trials_do_not_look_at_the_target() {
    let mut net = Net::new(vec![1, 2], -5, 1);
    assert_eq!(net.run(0), (vec![0, 0], None));
    let mut net = Net::new(vec![], 0, 1);
    assert_eq!(net.run(0), (vec![], None));
}

#[test]
fn zero_trials_keep_learned_weights() {
    let mut net = Net::new(vec![1, 0, 2], 1_000, 4);
    net.learn();
    net.learn();
    assert_eq!(net.run(0), (vec![8, 0, 8], None));
}

#[test]
fn an_empty_net_meets_a_target_of_zero_at_once() {
    let mut net = Net::new(vec![], 0, 1);
    let (weights, stopped, trace) = net.run_traced(5);
    assert_eq!(weights, Vec::<i32>::new());
    assert_eq!(stopped, Some(0));
    assert_eq!(trace, vec![Trial { index: 0, result: 0, error: 0 }]);
}

#[test]
fn an_empty_net_meets_a_negative_target_at_once() {
    let mut net = Net::new(vec![], -30, 1);
    let (weights, stopped, trace) = net.run_traced(1);
    assert_eq!(weights, Vec::<i32>::new());
    assert_eq!(stopped, Some(0));
    assert_eq!(trace, vec![Trial { index: 0, result: 0, error: -30 }]);
}

#[test]
fn an_empty_net_never_meets_a_positive_target() {
    let mut net = Net::new(vec![], 1, 1);
    assert_eq!(net.run(20), (vec![], None));
}

#[test]
fn a_second_run_goes_on_from_the_first() {
    let mut split = example();
    let (_, first) = split.run(10);
    let (weights, second) = split.run(20);
    assert_eq!(first, None);
    assert_eq!(second, Some(15));
    let mut whole = example();
    assert_eq!(whole.run(30), (weights, Some(25)));
}

#[test]
fn a_negative_rate_lowers_the_weights() {
    let mut net = Net::new(vec![2, -2, 5], 10, -3);
    let (weights, stopped, trace) = net.run_traced(4);
    assert_eq!(weights, vec![-12, 0, -12]);
    assert_eq!(stopped, None);
    assert_eq!(trace[3], Trial { index: 3, result: -63, error: 73 });
}

#[test]
fn a_rate_of_zero_learns_nothing() {
    let mut net = Net::new(vec![1, 2, 3], 1, 0);
    assert!(net.has_room_for(usize::MAX));
    assert_eq!(net.run(1_000), (vec![0, 0, 0], None));
}

#[test]
fn a_run_may_end_with_the_largest_weight() {
    let mut net = Net::new(vec![1], i64::MAX, i32::MAX);
    assert!(net.has_room_for(1));
    assert!(!net.has_room_for(2));
    let (weights, stopped) = net.run(1);
    assert_eq!(weights, vec![i32::MAX]);
    assert_eq!(stopped, None);
    assert!(net.has_room_for(0));
    assert!(!net.has_room_for(1));
}
