use rust_algorithms::bfs::bfs_search_node;
use rust_algorithms::graph::Graph;
use rust_algorithms::graph::Link;
use rust_algorithms::graph::Node;

#[test]
fn bfs_test_discover_no_start_element() {
    let mut graph = Graph::new();
    let node1 = Node::new("Node 1");
    graph.add_node(node1);
    assert_eq!(bfs_search_node(graph, 2, 1).is_none(), true);
}

#[test]
fn bfs_test_discover_no_target_element() {
    let mut graph = Graph::new();
    let node1 = Node::new("Node 1");
    graph.add_node(node1);
    assert_eq!(bfs_search_node(graph, 1, 2).is_none(), true);
}

#[test]
fn bfs_test_discover_no_start_and_target_element() {
    let graph = Graph::new();
    assert_eq!(bfs_search_node(graph, 1, 2).is_none(), true);
}

#[test]
fn bfs_test_discover_no_link() {
    let mut graph = Graph::new();
    let node1 = Node::new("Node 1");
    let node2 = Node::new("Node 1");
    graph.add_node(node1);
    graph.add_node(node2);
    graph.add_link(Link::new((1, 3), 1));
    assert_eq!(bfs_search_node(graph, 1, 2).is_none(), true);
}

#[test]
fn bfs_test_discover_element_to_self() {
    let graph = Graph::new();
    let result = bfs_search_node(graph, 1, 1).unwrap();
    assert_eq!(result.links[0], Link::new((1, 1), 0));
    assert_eq!(result.cost, 0);
}

#[test]
fn bfs_test_discover_two_elements() {
    let mut graph = Graph::new();
    let mut node1 = Node::new("Node 1");
    let mut node2 = Node::new("Node 2");
    node1.id = graph.add_node(node1);
    node2.id = graph.add_node(node2);
    let link1 = Link::new((node1.id, node2.id), 5);
    graph.add_link(link1);
    let result = bfs_search_node(graph, node1.id, node2.id).unwrap();
    let link0 = Link::new((node1.id, node1.id), 0);
    assert_eq!(result.links[0], link0);
    assert_eq!(result.links[1], link1);
    assert_eq!(result.cost, 5);
}

#[test]
fn bfs_test_discover_multiple_elements() {
    let mut graph = Graph::new();
    let mut node1 = Node::new("Node 1");
    let mut node2 = Node::new("Node 2");
    let mut node3 = Node::new("Node 3");
    let mut node4 = Node::new("Node 4");
    let mut node5 = Node::new("Node 5");
    let mut node6 = Node::new("Node 6");
    let mut node7 = Node::new("Node 7");
    node1.id = graph.add_node(node1);
    node2.id = graph.add_node(node2);
    node3.id = graph.add_node(node3);
    node4.id = graph.add_node(node4);
    node5.id = graph.add_node(node5);
    node6.id = graph.add_node(node6);
    node7.id = graph.add_node(node7);
    let link1 = Link::new((node1.id, node3.id), 1);
    let link2 = Link::new((node1.id, node2.id), 1);
    let link3 = Link::new((node2.id, node4.id), 2);
    let link4 = Link::new((node3.id, node5.id), 1);
    let link5 = Link::new((node3.id, node6.id), 1);
    let link6 = Link::new((node4.id, node7.id), 1);
    graph.add_link(link1);
    graph.add_link(link2);
    graph.add_link(link3);
    graph.add_link(link4);
    graph.add_link(link5);
    graph.add_link(link6);
    let result = bfs_search_node(graph, node1.id, node7.id).unwrap();
    assert_eq!(result.cost, 4);
    assert_eq!(result.links[1], Link::new((node1.id, node2.id), 1));
    assert_eq!(result.links[2], Link::new((node2.id, node4.id), 2));
    assert_eq!(result.links[3], Link::new((node4.id, node7.id), 1));
}

#[test]
fn bfs_discover_elements_with_loose_end_links() {
    let mut graph = Graph::new();
    let mut node1 = Node::new("Node 1");
    let mut node2 = Node::new("Node 2");
    node1.id = graph.add_node(node1);
    node2.id = graph.add_node(node2);
    let link1 = Link::new((node1.id, node2.id), 1);
    let link2 = Link::new((1, 65999), 1);
    graph.add_link(link1);
    graph.add_link(link2);
    let result = bfs_search_node(graph, node1.id, node2.id).unwrap();
    assert_eq!(result.cost, 1);
    assert_eq!(result.links[1], Link::new((node1.id, node2.id), 1));
}

#[test]
fn bfs_discover_elements_with_objects_linked_to_themselves() {
    let mut graph = Graph::new();
    let mut node1 = Node::new("Node 1");
    let mut node2 = Node::new("Node 2");
    node1.id = graph.add_node(node1);
    node2.id = graph.add_node(node2);
    let link1 = Link::new((node1.id, node2.id), 5);
    let link2 = Link::new((node1.id, node1.id), 5);
    graph.add_link(link1);
    graph.add_link(link2);
    let result = bfs_search_node(graph, node1.id, node2.id).unwrap();
    assert_eq!(result.links[1], link1);
    assert_eq!(result.cost, 5);
}

#[test]
fn bfs_discover_elements_with_circular_graphs() {
    let mut graph = Graph::new();
    let mut node1 = Node::new("Node 1");
    let mut node2 = Node::new("Node 2");
    let mut node3 = Node::new("Node 3");
    let mut node4 = Node::new("Node 4");
    let mut node5 = Node::new("Node 5");
    let mut node6 = Node::new("Node 6");
    let mut node7 = Node::new("Node 7");
    node1.id = graph.add_node(node1);
    node2.id = graph.add_node(node2);
    node3.id = graph.add_node(node3);
    node4.id = graph.add_node(node4);
    node5.id = graph.add_node(node5);
    node6.id = graph.add_node(node6);
    node7.id = graph.add_node(node7);
    let link1 = Link::new((node1.id, node3.id), 1);
    let link2 = Link::new((node1.id, node2.id), 1);
    let link3 = Link::new((node2.id, node4.id), 2);
    let link4 = Link::new((node3.id, node5.id), 1);
    let link5 = Link::new((node5.id, node1.id), 1);
    let link6 = Link::new((node4.id, node7.id), 1);
    graph.add_link(link1);
    graph.add_link(link2);
    graph.add_link(link3);
    graph.add_link(link4);
    graph.add_link(link5);
    graph.add_link(link6);
    let result = bfs_search_node(graph, node1.id, node7.id).unwrap();
    assert_eq!(result.cost, 4);
    assert_eq!(result.links[1], Link::new((node1.id, node2.id), 1));
    assert_eq!(result.links[2], Link::new((node2.id, node4.id), 2));
    assert_eq!(result.links[3], Link::new((node4.id, node7.id), 1));
}
