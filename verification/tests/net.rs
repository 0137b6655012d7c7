use perceptron::Net;

#[test]
fn a_new_net_keeps_what_it_was_given() {
    let net = Net::new(vec![4, -5, 6], 77, -2);
    assert_eq!(net.len(), 3);
    assert_eq!(net.target(), 77);
    assert_eq!(net.learning_rate(), -2);
}

#[test]
fn a_new_net_has_zero_weights() {
    let mut net = Net::new(vec![4, -5, 6, 0], 77, 3);
    assert_eq!(net.weights(), vec![0, 0, 0, 0]);
    assert_eq!(net.evaluate(), 0);
}

#[test]
fn an_empty_net_has_no_weights() {
    let mut net = Net::new(Vec::new(), 1, 1);
    assert_eq!(net.len(), 0);
    assert_eq!(net.weights(), Vec::<i32>::new());
    assert_eq!(net.evaluate(), 0);
    net.learn();
    assert_eq!(net.weights(), Vec::<i32>::new());
}

#[test]
fn weights_twice_in_a_row_are_the_same() {
    let mut net = Net::new(vec![1, 0, -1, 9], 50, 7);
    net.learn();
    let first = net.weights();
    let second = net.weights();
    assert_eq!(first, vec![7, 0, 0, 7]);
    assert_eq!(first, second);
}

#[test]
fn learning_raises_only_positive_inputs() {
    let mut net = Net::new(vec![-1, 0, 2, i32::MIN, i32::MAX, 1], 0, 5);
    net.learn();
    assert_eq!(net.weights(), vec![0, 0, 5, 0, 5, 5]);
    net.learn();
    assert_eq!(net.weights(), vec![0, 0, 10, 0, 10, 10]);
}

#[test]
fn evaluate_sums_input_times_weight() {
    let mut net = Net::new(vec![3, -4, 10, 0, 1], 0, 2);
    net.learn();
    net.learn();
    net.learn();
    // 3 * 6 + 10 * 6 + 1 * 6; the weights of -4 and 0 stay at zero.
    assert_eq!(net.evaluate(), 84);
    assert_eq!(net.evaluate(), 84);
}

#[test]
fn evaluate_with_a_negative_rate() {
    let mut net = Net::new(vec![3, 5], 0, -2);
    net.learn();
    assert_eq!(net.weights(), vec![-2, -2]);
    assert_eq!(net.evaluate(), -16);
}

#[test]
fn evaluate_holds_the_largest_products() {
    let mut net = Net::new(vec![i32::MAX, i32::MAX, i32::MAX], 0, i32::MAX);
    net.learn();
    let product = (i32::MAX as i128) * (i32::MAX as i128);
    assert_eq!(net.evaluate(), 3 * product);
}

#[test]
fn the_error_is_the_target_less_the_result() {
    let net = Net::new(vec![1], 30, 1);
    assert_eq!(net.evaluate_err(12), 18);
    assert_eq!(net.evaluate_err(30), 0);
    assert_eq!(net.evaluate_err(42), -12);
    assert_eq!(net.evaluate_err(-5), 35);
}

#[test]
fn room_is_counted_for_positive_inputs_only() {
    let mut net = Net::new(vec![-7, 0], 1, i32::MAX);
    assert!(net.has_room_for(usize::MAX));
    let mut net = Net::new(vec![-7, 0, 1], 1, i32::MAX);
    assert!(net.has_room_for(1));
    assert!(!net.has_room_for(2));
    assert!(!net.has_room_for(usize::MAX));
}

#[test]
fn room_counts_the_weight_already_gained() {
    let mut net = Net::new(vec![1], 1, 1_000_000_000);
    assert!(net.has_room_for(2));
    assert!(!net.has_room_for(3));
    net.learn();
    assert!(net.has_room_for(1));
    assert!(!net.has_room_for(2));
    assert_eq!(net.weights(), vec![1_000_000_000]);
}

#[test]
fn room_below_is_counted_too() {
    let mut net = Net::new(vec![1], 1, i32::MIN);
    assert!(net.has_room_for(1));
    assert!(!net.has_room_for(2));
    net.learn();
    assert_eq!(net.weights(), vec![i32::MIN]);
}
