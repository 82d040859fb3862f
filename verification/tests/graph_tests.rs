use digraph::{Graph, GraphError, Node};

#[test]
fn graph_test_lib_simple_creating() {
    let mut node1 = Node::new(1, String::from("Node 1"));
    let mut node2 = Node::new(2, String::from("Node 2"));
    let mut node3 = Node::new(3, String::from("Node 3"));

    node1.add_edge(2);
    node1.add_edge(3);
    node2.add_edge(1);
    node3.add_edge(1);

    let mut graph = Graph::new();
    graph.add_nodes(vec![node1, node2, node3]).unwrap();

    assert_eq!(graph.nodes.len(), 3);
}

#[test]
fn lib_simple_creating() {
    let mut node1 = Node::new(1, String::from("Node 1"));
    let mut node2 = Node::new(2, String::from("Node 2"));
    let mut node3 = Node::new(3, String::from("Node 3"));

    node1.add_edge(2);
    node1.add_edge(3);
    node2.add_edge(1);
    node3.add_edge(1);

    let mut graph = Graph::new();
    graph.add_nodes(vec![node1, node2, node3]).unwrap();

    assert_eq!(graph.nodes.len(), 3);
}

#[test]
fn duplicate_node_id() {
    let node1 = Node::new(1, String::from("Node 1"));
    let node2 = Node::new(1, String::from("Node 2"));

    let mut graph = Graph::new();
    let r = graph.add_nodes(vec![node1, node2]);
    assert_eq!(r, Err(GraphError::DuplicateId));
    assert_eq!(graph.nodes.len(), 0);
}

#[test]
fn non_existing_edge() {
    let mut node1 = Node::new(1, String::from("Node 1"));
    let node2 = Node::new(2, String::from("Node 2"));

    node1.add_edge(2);
    node1.add_edge(3);

    let mut graph = Graph::new();
    let r = graph.add_nodes(vec![node1, node2]);
    assert_eq!(r, Err(GraphError::DanglingEdge));
    assert_eq!(graph.nodes.len(), 0);
}

#[test]
fn graph_test_lib_simple_bfs() {
    let mut node1 = Node::new(1, String::from("Node 1"));
    let mut node2 = Node::new(2, String::from("Node 2"));
    let mut node3 = Node::new(3, String::from("Node 3"));
    let node4 = Node::new(4, String::from("Node 4"));
    let node5 = Node::new(5, String::from("Node 5"));
    let node6 = Node::new(6, String::from("Node 6"));
    let node7 = Node::new(7, String::from("Node 7"));

    node1.add_edge(2);
    node1.add_edge(3);
    node2.add_edge(4);
    node2.add_edge(5);
    node3.add_edge(6);
    node3.add_edge(7);

    let mut graph = Graph::new();
    graph
        .add_nodes(vec![node1, node2, node3, node4, node5, node6, node7])
        .unwrap();

    let result = graph.breadth_first_search(1);
    assert_eq!(result.len(), 7);
    assert_eq!(result.get(&1).unwrap().len(), 2);
    assert_eq!(result.get(&2).unwrap().len(), 2);
    assert_eq!(result.get(&3).unwrap().len(), 2);
    assert_eq!(result.get(&4).unwrap().len(), 0);
    assert_eq!(result.get(&5).unwrap().len(), 0);
    assert_eq!(result.get(&6).unwrap().len(), 0);
    assert_eq!(result.get(&7).unwrap().len(), 0);
}

#[test]
fn lib_simple_bfs() {
    let mut node1 = Node::new(1, String::from("Node 1"));
    let mut node2 = Node::new(2, String::from("Node 2"));
    let mut node3 = Node::new(3, String::from("Node 3"));
    let node4 = Node::new(4, String::from("Node 4"));
    let node5 = Node::new(5, String::from("Node 5"));
    let node6 = Node::new(6, String::from("Node 6"));
    let node7 = Node::new(7, String::from("Node 7"));

    node1.add_edge(2);
    node1.add_edge(3);
    node2.add_edge(4);
    node2.add_edge(5);
    node3.add_edge(6);
    node3.add_edge(7);

    let mut graph = Graph::new();
    graph
        .add_nodes(vec![node1, node2, node3, node4, node5, node6, node7])
        .unwrap();

    let result = graph.breadth_first_search(1);
    assert_eq!(result.len(), 7);
    assert_eq!(result.get(&1).unwrap().len(), 2);
    assert_eq!(result.get(&2).unwrap().len(), 2);
    assert_eq!(result.get(&3).unwrap().len(), 2);
    assert_eq!(result.get(&4).unwrap().len(), 0);
    assert_eq!(result.get(&5).unwrap().len(), 0);
    assert_eq!(result.get(&6).unwrap().len(), 0);
    assert_eq!(result.get(&7).unwrap().len(), 0);
}

#[test]
fn serialization() {
    let mut node1 = Node::new(1, String::from("Node"));
    let mut node2 = Node::new(2, String::from("Node"));
    let mut node3 = Node::new(3, String::from("Node"));
    let node4 = Node::new(4, String::from("Node"));
    let node5 = Node::new(5, String::from("Node"));
    let node6 = Node::new(6, String::from("Node"));
    let node7 = Node::new(7, String::from("Node"));

    node1.add_edge(2);
    node1.add_edge(3);
    node2.add_edge(4);
    node2.add_edge(5);
    node3.add_edge(6);
    node3.add_edge(7);

    let mut graph = Graph::new();
    graph
        .add_nodes(vec![node1, node2, node3, node4, node5, node6, node7])
        .unwrap();

    let result = graph.serialization();
    assert_eq!(
        result,
        "1 Node 2 3 \n2 Node 4 5 \n3 Node 6 7 \n4 Node \n5 Node \n6 Node \n7 Node \n"
    );
}

#[test]
fn deserialization() {
    let serialized = "1 Node 2 3
                                2 Node 4 5
                                3 Node 6 7
                                4 Node 
                                5 Node 
                                6 Node 
                                7 Node ";
    let graph = Graph::<String>::deserialization(serialized).unwrap();
    assert_eq!(graph.nodes.len(), 7);
}
