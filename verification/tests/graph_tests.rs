use rust_algorithms::graph::Graph;
use rust_algorithms::graph::Link;
use rust_algorithms::graph::Node;
use rust_algorithms::graph::SearchResult;

#[test]
fn graph_new() {
    let graph = Graph::new();
    assert_eq!(graph.link_list.len(), 0);
    assert_eq!(graph.node_list.len(), 0);
}

#[test]
fn graph_add_link() {
    let mut graph = Graph::new();
    graph.add_link(Link::new((1, 2), 5));
    graph.add_link(Link::new((2, 5), 8));
    assert_eq!(graph.link_list.len(), 2);
    assert_eq!(graph.link_list[0].members.1, 2);
}

#[test]
fn graph_find_link() {
    let mut graph = Graph::new();
    graph.add_link(Link::new((1, 2), 5));
    graph.add_link(Link::new((2, 5), 8));
    let link = graph.find_link(2, 1);
    assert_eq!(link.is_some(), true);
    let unwrapped_link = link.unwrap();
    assert_eq!(unwrapped_link.cost, 5);
    assert_eq!(graph.find_link(7, 9).is_none(), true);
}

#[test]
fn find_links_from_node() {
    let mut graph = Graph::new();
    let node1 = Node::new("Node 1");
    let node2 = Node::new("Node 2");
    graph.add_node(node1);
    graph.add_node(node2);
    let link1 = Link::new((1, 1), 1);
    let link2 = Link::new((1, 2), 1);
    let link3 = Link::new((1, 3), 1);
    let link4 = Link::new((2, 2), 1);
    graph.add_link(link1);
    graph.add_link(link2);
    graph.add_link(link3);
    graph.add_link(link4);
    let links = graph.find_links_from_node(1);
    assert_eq!(links.len(), 3);
    assert!(links.contains(&link1));
    assert!(links.contains(&link2));
    assert!(links.contains(&link3));
}

#[test]
fn add_node() {
    let mut graph = Graph::new();
    let node = Node::new("Node1");
    graph.add_node(node);
    assert_eq!(graph.node_list[0].id, 0);
    assert_eq!(graph.node_list[0].name, node.name);
}

#[test]
fn add_already_existing_node() {
    let mut graph = Graph::new();
    let node = Node::new("Node1");
    let id1 = graph.add_node(node);
    let id2 = graph.add_node(node);
    assert_eq!(id1, id2);
}

#[test]
fn get_node() {
    let mut graph = Graph::new();
    let node = Node::new("Node1");
    graph.add_node(node);
    let node_retrieved = graph.get_node(0).unwrap();
    assert_eq!(node_retrieved.name, node.name);
    let node_retrieved2 = graph.get_node(2);
    assert!(node_retrieved2.is_none());
}

#[test]
fn new() {
    let link = Link::new((1, 2), 3);
    assert_eq!(link.members, (1, 2));
    assert_eq!(link.cost, 3);
}

#[test]
fn graph_test_node() {
    let node = Node::new("A");
    assert_eq!(node.id, -1);
    assert_eq!(node.name, "A");
}

#[test]
fn search_result_new() {
    let result = SearchResult::new();
    assert_eq!(result.cost, 0);
    assert_eq!(result.links.len(), 0);

    let testlink = Link::new((1, 1), 2);
    let buildresult = SearchResult::new().cost(2).links(vec![testlink]);

    assert_eq!(buildresult.cost, 2);
    assert_eq!(buildresult.links, vec!(testlink));
}
