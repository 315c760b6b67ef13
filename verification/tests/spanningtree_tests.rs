use rust_algorithms::spanningtree::Link;
use rust_algorithms::spanningtree::Node;
use rust_algorithms::spanningtree::Tree;

#[test]
fn spanningtree_add_link() {
    let mut tree = Tree::new();
    tree.add_link(Link::new((1, 2), 5));
    tree.add_link(Link::new((2, 5), 8));
    assert_eq!(tree.link_list.len(), 2);
    assert_eq!(tree.link_list[0].members.1, 2);
}

#[test]
fn spanningtree_find_link() {
    let mut tree = Tree::new();
    tree.add_link(Link::new((1, 2), 5));
    tree.add_link(Link::new((2, 5), 8));
    let link = tree.find_link(2, 1);
    assert_eq!(link.is_some(), true);
    let unwrapped_link = link.unwrap();
    assert_eq!(unwrapped_link.cost, 5);
    assert_eq!(tree.find_link(7, 9).is_none(), true);
}

#[test]
fn find_links() {
    let mut tree = Tree::new();
    tree.add_link(Link::new((1, 2), 5));
    tree.add_link(Link::new((2, 5), 8));
    tree.add_link(Link::new((7, 9), 2));
    let links = tree.find_links(2);
    assert_eq!(links.len(), 2);
}

#[test]
fn multiple_nodes_with_same_id() {
    let mut tree = Tree::new();
    tree.add_node(Node::new(4, "E"));
    tree.add_node(Node::new(4, "E"));
    assert_eq!(tree.node_list.len(), 1);
}

#[test]
fn test_run_calc() {
    let mut tree = Tree::new();
    tree.add_node(Node::new(5, "A"));
    tree.add_node(Node::new(1, "B"));
    tree.add_node(Node::new(1, "B"));
    tree.add_node(Node::new(3, "C"));
    tree.add_node(Node::new(7, "D"));
    let node2 = Node::new(6, "E");
    tree.add_node(node2);
    tree.add_node(Node::new(4, "F"));
    tree.add_link(Link::new((5, 1), 10));
    tree.add_link(Link::new((5, 3), 10));
    tree.add_link(Link::new((1, 7), 15));
    tree.add_link(Link::new((1, 6), 10));
    tree.add_link(Link::new((3, 7), 3));
    tree.add_link(Link::new((3, 6), 10));
    tree.add_link(Link::new((7, 6), 2));
    tree.add_link(Link::new((7, 4), 10));
    tree.add_link(Link::new((6, 4), 2));
    assert_eq!(tree.run_calc(999, false), false);
    assert_eq!(tree.run_calc(3, false), true);
    tree.simulate(10, 10, true);
    assert_eq!(tree.node_list.iter().all(|node| node.msg_count > 10), true);
    assert_eq!(tree.node_list.iter().all(|node| node.root_id == 1), true);
    assert_eq!(tree.get_node(3).unwrap().next_hop.unwrap(), 7);
    assert_eq!(tree.node_list[1].root_id, 1);
    for node in tree.node_list {
        println!("ID: {}, Name: {}, Messages: {}, Next Hop: {}, Root Cost: {}, Root ID: {}", node.id, node.name, node.msg_count, node.next_hop.unwrap_or(0), node.root_cost, node.root_id);
    }
}

#[test]
fn test_link() {
    let link = Link::new((3, 9), 4);
    assert_eq!(link.cost, 4);
    assert_eq!(link.members.0, 3);
}

#[test]
fn spanningtree_test_node() {
    let node = Node::new(1, "A");
    assert_eq!(node.root_id, 1);
    assert_eq!(node.name, "A");
}
