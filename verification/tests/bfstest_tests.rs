use rust_algorithms::bfstest::find_path_to_element;
use rust_algorithms::bfstest::Link;
use rust_algorithms::bfstest::Node;
use rust_algorithms::bfstest::Tree;

#[test]
fn bfstest_add_link() {
    let mut tree = Tree::new();
    tree.add_link(Link::new((1, 2), 5));
    tree.add_link(Link::new((2, 5), 8));
    assert_eq!(tree.link_list.len(), 2);
    assert_eq!(tree.link_list[0].members.1, 2);
}

#[test]
fn bfstest_find_link() {
    let mut tree = Tree::new();
    tree.add_link(Link::new((1, 2), 5));
    tree.add_link(Link::new((2, 5), 8));
    let link = tree.find_link(2, 1);
    assert_eq!(link.is_some(), true);
    let unwrapped_link = link.unwrap();
    assert_eq!(unwrapped_link.cost, 5);
    assert_eq!(tree.find_link(7, 9).is_none(), true);
}

#[test]
fn bfstest_test_node() {
    let node = Node::new(1, "A");
    assert_eq!(node.root_id, 1);
    assert_eq!(node.name, "A");
}

#[test]
fn bfstest_test_discover_element_to_self() {
    let tree = Tree::new();
    let result = find_path_to_element(tree, 1, 1).unwrap();
    assert_eq!(result.links[0], Link::new((1, 1), 0));
    assert_eq!(result.cost, 0);
}

#[test]
fn bfstest_test_discover_two_elements() {
    let mut tree = Tree::new();
    let node1 = Node::new(1, "Node 1");
    let node2 = Node::new(2, "Node 2");
    tree.add_node(node1);
    tree.add_node(node2);
    let link1 = Link::new((1, 2), 5);
    tree.add_link(link1);
    let result = find_path_to_element(tree, 1, 2).unwrap();
    println!("{:?}", result);
    assert_eq!(result.links[0], link1);
    assert_eq!(result.cost, 5);
}

#[test]
fn bfstest_test_discover_multiple_elements() {
    let mut tree = Tree::new();
    let node1 = Node::new(1, "Node 1");
    let node2 = Node::new(2, "Node 2");
    let node3 = Node::new(3, "Node 3");
    let node4 = Node::new(4, "Node 4");
    let node5 = Node::new(5, "Node 5");
    let node6 = Node::new(6, "Node 6");
    let node7 = Node::new(7, "Node 7");
    tree.add_node(node1);
    tree.add_node(node2);
    tree.add_node(node3);
    tree.add_node(node4);
    tree.add_node(node5);
    tree.add_node(node6);
    tree.add_node(node7);
    let link1 = Link::new((1, 3), 1);
    let link2 = Link::new((1, 2), 1);
    let link3 = Link::new((2, 4), 2);
    let link4 = Link::new((3, 5), 1);
    let link5 = Link::new((3, 6), 1);
    let link6 = Link::new((4, 7), 1);
    tree.add_link(link1);
    tree.add_link(link2);
    tree.add_link(link3);
    tree.add_link(link4);
    tree.add_link(link5);
    tree.add_link(link6);
    let result = find_path_to_element(tree, 1, 7).unwrap();
    assert_eq!(result.cost, 4);
    assert_eq!(result.links[0], Link::new((1, 2), 1));
    assert_eq!(result.links[1], Link::new((2, 4), 2));
    assert_eq!(result.links[2], Link::new((4, 7), 1));
}

#[test]
fn bfstest_discover_elements_with_loose_end_links() {
    let mut tree = Tree::new();
    let node1 = Node::new(1, "Node 1");
    let node2 = Node::new(2, "Node 2");
    tree.add_node(node1);
    tree.add_node(node2);
    let link1 = Link::new((1, 2), 1);
    let link2 = Link::new((1, 3), 1);
    tree.add_link(link1);
    tree.add_link(link2);
    let result = find_path_to_element(tree, 1, 2).unwrap();
    assert_eq!(result.cost, 1);
    assert_eq!(result.links[0], Link::new((1, 2), 1));
}

#[test]
fn bfstest_discover_elements_with_objects_linked_to_themselves() {
    let mut tree = Tree::new();
    let node1 = Node::new(1, "Node 1");
    let node2 = Node::new(2, "Node 2");
    tree.add_node(node1);
    tree.add_node(node2);
    let link1 = Link::new((1, 2), 5);
    let link2 = Link::new((1, 1), 5);
    tree.add_link(link1);
    tree.add_link(link2);
    let result = find_path_to_element(tree, 1, 2).unwrap();
    println!("{:?}", result);
    assert_eq!(result.links[0], link1);
    assert_eq!(result.cost, 5);
}

#[test]
fn bfstest_run_calc_absent_is_noop() {
    let mut tree = Tree::new();
    tree.add_node(Node::new(4, "A"));
    tree.add_node(Node::new(2, "B"));
    tree.add_link(Link::new((2, 4), 5));
    tree.run_calc(999, true);
    assert_eq!(tree.get_node(4).unwrap().root_id, 4);
    assert_eq!(tree.get_node(4).unwrap().msg_count, 0);
    assert_eq!(tree.get_node(2).unwrap().root_id, 2);
    assert_eq!(tree.node_list.len(), 2);
    assert_eq!(tree.link_list.len(), 1);
}

#[test]
fn bfstest_run_calc_updates_neighbors() {
    let mut tree = Tree::new();
    tree.add_node(Node::new(4, "A"));
    tree.add_node(Node::new(2, "B"));
    tree.add_node(Node::new(3, "C"));
    tree.add_link(Link::new((2, 4), 5));
    tree.add_link(Link::new((3, 2), 8));
    tree.run_calc(2, false);
    assert_eq!(tree.get_node(4).unwrap().root_id, 2);
    assert_eq!(tree.get_node(4).unwrap().root_cost, 5);
    assert_eq!(tree.get_node(4).unwrap().next_hop, Some(2));
    assert_eq!(tree.get_node(3).unwrap().root_id, 2);
    assert_eq!(tree.get_node(3).unwrap().root_cost, 8);
}

#[test]
fn bfstest_simulate_converges() {
    let mut tree = Tree::new();
    tree.add_node(Node::new(4, "A"));
    tree.add_node(Node::new(2, "B"));
    tree.add_node(Node::new(3, "C"));
    tree.add_link(Link::new((2, 4), 5));
    tree.add_link(Link::new((3, 2), 8));
    tree.simulate(10, 5, true);
    assert!(tree.node_list.iter().all(|node| node.root_id == 2));
    assert!(tree.node_list.iter().all(|node| node.msg_count > 5));
}
