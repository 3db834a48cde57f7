use linked_lists::double_linked_list::Node as DoublyNode;
use linked_lists::linked_list::Node;

#[test]
fn new_node_holds_its_value_and_no_successor() {
    let node = Node::new(5);
    assert_eq!(format!("{:?}", node), "Node { data: 5, next: None }");
}

#[test]
fn nodes_compare_by_value() {
    assert_eq!(Node::new(5), Node::new(5));
    assert_ne!(Node::new(5), Node::new(6));
    let node = Node::new(String::from("a"));
    assert_eq!(node.clone(), node);
}

#[test]
fn new_doubly_node_holds_its_value_and_no_neighbours() {
    let node = DoublyNode::new(5);
    assert_eq!(format!("{:?}", node), "Node { data: 5, previous: None, next: None }");
}

#[test]
fn doubly_nodes_compare_by_value() {
    assert_eq!(DoublyNode::new(5), DoublyNode::new(5));
    assert_ne!(DoublyNode::new(5), DoublyNode::new(6));
    let node = DoublyNode::new(String::from("a"));
    assert_eq!(node.clone(), node);
}
