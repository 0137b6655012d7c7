use perceptron::Node;

#[test]
fn a_new_node_has_its_input_and_no_weight() {
    let node = Node::new(10);
    assert_eq!(node.input(), 10);
    assert_eq!(node.weight(), 0);
}

#[test]
fn a_node_takes_any_input() {
    for input in [0, -1, 1, i32::MIN, i32::MAX] {
        let node = Node::new(input);
        assert_eq!(node.input(), input);
        assert_eq!(node.weight(), 0);
    }
}
