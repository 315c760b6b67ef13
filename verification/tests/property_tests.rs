use rust_algorithms::spanningtree::Link;
use rust_algorithms::spanningtree::Node;
use rust_algorithms::spanningtree::Tree;

#[test]
fn suggestion_accepts_more_senior_root() {
    let mut node = Node::new(3, "Node Three");
    let accepted = node.receive_suggestion(2, 8, 10);
    assert_eq!(accepted, true);
    assert_eq!(node.root_id, 2);
    assert_eq!(node.root_cost, 10);
    assert_eq!(node.next_hop, Some(8));
    assert_eq!(node.msg_count, 1);
}

#[test]
fn suggestion_rejects_less_senior_root() {
    let mut node = Node::new(3, "Node Three");
    let accepted = node.receive_suggestion(5, 8, 1);
    assert_eq!(accepted, false);
    assert_eq!(node.root_id, 3);
    assert_eq!(node.root_cost, 0);
    assert_eq!(node.next_hop, None);
    assert_eq!(node.msg_count, 1);
}

#[test]
fn suggestion_accepts_cheaper_path_to_same_root() {
    let mut node = Node::new(3, "Node Three");
    assert!(node.receive_suggestion(2, 8, 10));
    let accepted = node.receive_suggestion(2, 9, 7);
    assert_eq!(accepted, true);
    assert_eq!(node.root_id, 2);
    assert_eq!(node.root_cost, 7);
    assert_eq!(node.next_hop, Some(9));
    assert_eq!(node.msg_count, 2);
}

#[test]
fn suggestion_idempotent_after_acceptance() {
    let mut node = Node::new(3, "Node Three");
    assert!(node.receive_suggestion(2, 8, 10));
    let again = node.receive_suggestion(2, 8, 10);
    assert_eq!(again, false);
    assert_eq!(node.root_id, 2);
    assert_eq!(node.root_cost, 10);
    assert_eq!(node.next_hop, Some(8));
    assert_eq!(node.msg_count, 2);
}

#[test]
fn root_cost_never_increases_for_fixed_root() {
    let mut node = Node::new(9, "Node Nine");
    assert!(node.receive_suggestion(1, 4, 20));
    assert_eq!(node.receive_suggestion(1, 5, 25), false);
    assert_eq!(node.root_cost, 20);
    assert!(node.receive_suggestion(1, 6, 12));
    assert_eq!(node.root_cost, 12);
    assert_eq!(node.receive_suggestion(1, 7, 12), false);
    assert_eq!(node.root_cost, 12);
    assert_eq!(node.next_hop, Some(6));
}

#[test]
fn duplicate_link_insert_is_noop() {
    let mut tree = Tree::new();
    tree.add_link(Link::new((1, 2), 5));
    tree.add_link(Link::new((1, 2), 5));
    assert_eq!(tree.link_list.len(), 1);
    tree.add_link(Link::new((2, 1), 9));
    assert_eq!(tree.link_list.len(), 1);
    assert_eq!(tree.link_list[0].cost, 5);
}

#[test]
fn duplicate_node_insert_is_noop() {
    let mut tree = Tree::new();
    tree.add_node(Node::new(4, "first"));
    tree.add_node(Node::new(4, "second"));
    assert_eq!(tree.node_list.len(), 1);
    assert_eq!(tree.get_node(4).unwrap().name, "first");
    assert_eq!(tree.root_id, Some(4));
}

#[test]
fn find_link_symmetric_pairs() {
    let mut tree = Tree::new();
    tree.add_link(Link::new((8, 1), 6));
    tree.add_link(Link::new((4, 1), 3));
    let ab = tree.find_link(1, 8).unwrap();
    let ba = tree.find_link(8, 1).unwrap();
    assert_eq!(ab.members, ba.members);
    assert_eq!(ab.cost, ba.cost);
    assert_eq!(tree.find_link(1, 4).unwrap().cost, tree.find_link(4, 1).unwrap().cost);
    assert_eq!(tree.find_link(8, 4).is_none(), true);
    assert_eq!(tree.find_link(4, 8).is_none(), true);
}

#[test]
fn run_calc_single_sweep_updates_neighbors() {
    let mut tree = Tree::new();
    tree.add_node(Node::new(4, "A"));
    tree.add_node(Node::new(2, "B"));
    tree.add_node(Node::new(3, "C"));
    tree.add_link(Link::new((2, 4), 5));
    tree.add_link(Link::new((3, 2), 8));
    let run = tree.run_calc(2, false);
    assert_eq!(run, true);
    let node4 = tree.get_node(4).unwrap();
    assert_eq!(node4.root_id, 2);
    assert_eq!(node4.root_cost, 5);
    assert_eq!(node4.next_hop, Some(2));
    let node3 = tree.get_node(3).unwrap();
    assert_eq!(node3.root_id, 2);
    assert_eq!(node3.root_cost, 8);
}

#[test]
fn run_calc_recursive_cascades() {
    let mut tree = Tree::new();
    tree.add_node(Node::new(4, "A"));
    tree.add_node(Node::new(2, "B"));
    tree.add_node(Node::new(3, "C"));
    tree.add_link(Link::new((2, 4), 5));
    tree.add_link(Link::new((3, 2), 8));
    assert_eq!(tree.run_calc(2, true), true);
    assert_eq!(tree.get_node(3).unwrap().root_id, 2);
    assert_eq!(tree.get_node(3).unwrap().root_cost, 8);
    assert_eq!(tree.get_node(4).unwrap().root_id, 2);
    assert_eq!(tree.get_node(4).unwrap().root_cost, 5);
}

#[test]
fn run_calc_absent_node_is_noop() {
    let mut tree = Tree::new();
    tree.add_node(Node::new(4, "A"));
    tree.add_node(Node::new(2, "B"));
    tree.add_link(Link::new((2, 4), 5));
    let run = tree.run_calc(999, true);
    assert_eq!(run, false);
    let node4 = tree.get_node(4).unwrap();
    assert_eq!(node4.root_id, 4);
    assert_eq!(node4.root_cost, 0);
    assert_eq!(node4.next_hop, None);
    assert_eq!(node4.msg_count, 0);
    let node2 = tree.get_node(2).unwrap();
    assert_eq!(node2.root_id, 2);
    assert_eq!(node2.msg_count, 0);
    assert_eq!(tree.link_list.len(), 1);
    assert_eq!(tree.node_list.len(), 2);
}

#[test]
fn convergence_elects_minimum_id() {
    let mut tree = Tree::new();
    tree.add_node(Node::new(4, "A"));
    tree.add_node(Node::new(2, "B"));
    tree.add_node(Node::new(3, "C"));
    tree.add_link(Link::new((2, 4), 5));
    tree.add_link(Link::new((3, 2), 8));
    tree.simulate(10, 5, true);
    assert!(tree.node_list.iter().all(|node| node.root_id == 2));
    assert_eq!(tree.get_node(2).unwrap().root_cost, 0);
    assert_eq!(tree.get_node(4).unwrap().root_cost, 5);
    assert_eq!(tree.get_node(3).unwrap().root_cost, 8);
}

#[test]
fn simulate_terminates_past_min_hops() {
    let mut tree = Tree::new();
    tree.add_node(Node::new(10, "a"));
    tree.add_node(Node::new(20, "b"));
    tree.add_node(Node::new(30, "c"));
    tree.add_node(Node::new(40, "d"));
    tree.add_node(Node::new(50, "e"));
    tree.add_node(Node::new(60, "f"));
    tree.add_link(Link::new((10, 20), 1));
    tree.add_link(Link::new((20, 30), 2));
    tree.add_link(Link::new((30, 40), 3));
    tree.add_link(Link::new((40, 50), 4));
    tree.add_link(Link::new((50, 60), 5));
    tree.simulate(10, 100, true);
    assert!(tree.node_list.iter().all(|node| node.msg_count > 100));
    assert!(tree.node_list.iter().all(|node| node.root_id == 10));
}

#[test]
fn simulate_empty_topology_is_noop() {
    let mut tree = Tree::new();
    tree.simulate(10, 100, true);
    assert_eq!(tree.node_list.len(), 0);
    assert_eq!(tree.link_list.len(), 0);
}

#[test]
fn simulate_min_hops_zero_runs_one_round() {
    let mut tree = Tree::new();
    tree.add_node(Node::new(1, "a"));
    tree.add_node(Node::new(2, "b"));
    tree.add_link(Link::new((1, 2), 3));
    tree.simulate(4, 0, false);
    assert_eq!(tree.node_list.len(), 2);
    let total: usize = tree.node_list.iter().map(|node| node.msg_count).sum();
    assert!(total <= 4);
}

#[test]
fn self_link_does_not_disturb_propagation() {
    let mut tree = Tree::new();
    tree.add_node(Node::new(7, "a"));
    tree.add_node(Node::new(5, "b"));
    tree.add_link(Link::new((7, 7), 1));
    tree.add_link(Link::new((5, 7), 2));
    assert_eq!(tree.run_calc(5, true), true);
    let node7 = tree.get_node(7).unwrap();
    assert_eq!(node7.root_id, 5);
    assert_eq!(node7.root_cost, 2);
    assert_eq!(node7.msg_count, 1);
}

#[test]
fn tree_root_id_tracks_minimum_inserted() {
    let mut tree = Tree::new();
    assert_eq!(tree.root_id, None);
    tree.add_node(Node::new(9, "a"));
    assert_eq!(tree.root_id, Some(9));
    tree.add_node(Node::new(3, "b"));
    assert_eq!(tree.root_id, Some(3));
    tree.add_node(Node::new(5, "c"));
    assert_eq!(tree.root_id, Some(3));
}

#[test]
fn get_node_absent_is_none() {
    let mut tree = Tree::new();
    tree.add_node(Node::new(2, "Second Node"));
    assert_eq!(tree.get_node(2).is_some(), true);
    assert_eq!(tree.get_node(2).unwrap().name, "Second Node");
    assert_eq!(tree.get_node(7).is_none(), true);
}

#[test]
fn run_calc_rejected_suggestions_change_nothing() {
    let mut tree = Tree::new();
    tree.add_node(Node::new(5, "A"));
    tree.add_node(Node::new(1, "B"));
    tree.add_node(Node::new(3, "C"));
    tree.add_link(Link::new((5, 1), 10));
    tree.add_link(Link::new((5, 3), 10));
    assert_eq!(tree.run_calc(5, true), true);
    assert_eq!(tree.get_node(5).unwrap().root_id, 5);
    assert_eq!(tree.get_node(1).unwrap().root_id, 1);
    assert_eq!(tree.get_node(3).unwrap().root_id, 3);
    assert_eq!(tree.get_node(1).unwrap().root_cost, 0);
    assert_eq!(tree.get_node(3).unwrap().root_cost, 0);
    assert_eq!(tree.get_node(1).unwrap().msg_count, 1);
    assert_eq!(tree.get_node(3).unwrap().msg_count, 1);
}
