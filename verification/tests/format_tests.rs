use digraph::{Graph, GraphError, Node};

fn node_with_edges(id: i32, data: &str, edges: &[i32]) -> Node<String> {
    let mut n = Node::new(id, String::from(data));
    for e in edges {
        n.add_edge(*e);
    }
    n
}

#[test]
fn format_literal_example() {
    let mut graph = Graph::new();
    graph
        .add_nodes(vec![
            node_with_edges(1, "a", &[2, 3]),
            node_with_edges(2, "b", &[3]),
            node_with_edges(3, "c", &[]),
        ])
        .unwrap();
    assert_eq!(graph.serialization(), "1 a 2 3 \n2 b 3 \n3 c \n");
}

#[test]
fn bfs_literal_example() {
    let mut graph = Graph::new();
    graph
        .add_nodes(vec![
            node_with_edges(1, "a", &[2, 3]),
            node_with_edges(2, "b", &[3]),
            node_with_edges(3, "c", &[]),
        ])
        .unwrap();
    let result = graph.breadth_first_search(1);
    assert_eq!(result.len(), 3);
    assert_eq!(result.get(&1).unwrap(), &vec![2, 3]);
    assert_eq!(result.get(&2).unwrap(), &vec![3]);
    assert_eq!(result.get(&3).unwrap(), &Vec::<i32>::new());
}

#[test]
fn bfs_skips_unreachable_nodes() {
    let mut graph = Graph::new();
    graph
        .add_nodes(vec![
            node_with_edges(1, "a", &[2]),
            node_with_edges(2, "b", &[1]),
            node_with_edges(3, "c", &[1]),
        ])
        .unwrap();
    let result = graph.breadth_first_search(1);
    assert_eq!(result.len(), 2);
    assert!(result.contains_key(&1));
    assert!(result.contains_key(&2));
    assert!(!result.contains_key(&3));
}

#[test]
fn bfs_terminates_on_cycles() {
    let mut graph = Graph::new();
    graph
        .add_nodes(vec![
            node_with_edges(1, "a", &[2]),
            node_with_edges(2, "b", &[3]),
            node_with_edges(3, "c", &[1, 1, 2]),
        ])
        .unwrap();
    let result = graph.breadth_first_search(1);
    assert_eq!(result.len(), 3);
    assert_eq!(result.get(&3).unwrap(), &vec![1, 1, 2]);
}

#[test]
fn deserialization_literal_example() {
    let text = "1 Node 2 3\n2 Node 4 5\n3 Node 6 7\n4 Node\n5 Node\n6 Node\n7 Node";
    let graph = Graph::<String>::deserialization(text).unwrap();
    assert_eq!(graph.nodes.len(), 7);
    let node3 = graph.nodes.iter().find(|n| n.id == 3).unwrap();
    assert_eq!(node3.edges, vec![6, 7]);
    let node4 = graph.nodes.iter().find(|n| n.id == 4).unwrap();
    assert_eq!(node4.edges.len(), 0);
}

#[test]
fn round_trip_preserves_graph() {
    let mut graph = Graph::new();
    graph
        .add_nodes(vec![
            node_with_edges(10, "alpha", &[-3, 7]),
            node_with_edges(-3, "beta", &[10]),
            node_with_edges(7, "gamma", &[]),
        ])
        .unwrap();
    let text = graph.serialization();
    let back = Graph::<String>::deserialization(&text).unwrap();
    assert_eq!(back.nodes.len(), graph.nodes.len());
    for (orig, copy) in graph.nodes.iter().zip(back.nodes.iter()) {
        assert_eq!(orig.id, copy.id);
        assert_eq!(&copy.data, &orig.data);
        assert_eq!(orig.edges, copy.edges);
    }
}

#[test]
fn serialization_of_empty_graph_is_empty() {
    let graph: Graph<String> = Graph::new();
    assert_eq!(graph.serialization(), "");
}

#[test]
fn deserialization_tolerates_line_endings_and_indentation() {
    let text = "  1 a 2 \r\n\r\n\t2 b \n";
    let graph = Graph::<String>::deserialization(text).unwrap();
    assert_eq!(graph.nodes.len(), 2);
    assert_eq!(graph.nodes[0].id, 1);
    assert_eq!(graph.nodes[0].data, "a");
    assert_eq!(graph.nodes[0].edges, vec![2]);
    assert_eq!(graph.nodes[1].edges.len(), 0);
}

#[test]
fn deserialization_rejects_missing_payload() {
    let r = Graph::<String>::deserialization("1\n");
    assert_eq!(r.err(), Some(GraphError::MalformedLine));
}

#[test]
fn deserialization_rejects_non_integer_id() {
    let r = Graph::<String>::deserialization("x y\n");
    assert_eq!(r.err(), Some(GraphError::MalformedLine));
}

#[test]
fn deserialization_rejects_non_integer_edge() {
    let r = Graph::<String>::deserialization("1 a 2z\n");
    assert_eq!(r.err(), Some(GraphError::MalformedLine));
}

#[test]
fn deserialization_rejects_overflowing_id() {
    let r = Graph::<String>::deserialization("99999999999 a \n");
    assert_eq!(r.err(), Some(GraphError::MalformedLine));
}

#[test]
fn deserialization_rejects_duplicate_id() {
    let r = Graph::<String>::deserialization("1 a \n1 b \n");
    assert_eq!(r.err(), Some(GraphError::DuplicateId));
}

#[test]
fn deserialization_rejects_dangling_edge() {
    let r = Graph::<String>::deserialization("1 a 99 \n2 b \n");
    assert_eq!(r.err(), Some(GraphError::DanglingEdge));
}

#[test]
fn deserialization_parses_signs_and_zero() {
    let graph = Graph::<String>::deserialization("-5 neg +7 0 \n+7 pos \n0 zero \n").unwrap();
    assert_eq!(graph.nodes.len(), 3);
    assert_eq!(graph.nodes[0].id, -5);
    assert_eq!(graph.nodes[0].edges, vec![7, 0]);
    assert_eq!(graph.nodes[1].id, 7);
    assert_eq!(graph.nodes[2].id, 0);
}

#[test]
fn serialization_of_extreme_ids_round_trips() {
    let mut graph = Graph::new();
    graph
        .add_nodes(vec![
            node_with_edges(2147483647, "max", &[-2147483648]),
            node_with_edges(-2147483648, "min", &[2147483647]),
        ])
        .unwrap();
    let text = graph.serialization();
    assert_eq!(text, "2147483647 max -2147483648 \n-2147483648 min 2147483647 \n");
    let back = Graph::<String>::deserialization(&text).unwrap();
    assert_eq!(back.nodes[0].id, 2147483647);
    assert_eq!(back.nodes[1].id, -2147483648);
    assert_eq!(back.nodes[0].edges, vec![-2147483648]);
}

#[test]
fn add_nodes_validates_across_batches() {
    let mut graph = Graph::new();
    graph.add_nodes(vec![node_with_edges(1, "a", &[1])]).unwrap();

    let r = graph.add_nodes(vec![node_with_edges(2, "b", &[1])]);
    assert_eq!(r, Ok(()));
    assert_eq!(graph.nodes.len(), 2);

    let r = graph.add_nodes(vec![node_with_edges(1, "again", &[])]);
    assert_eq!(r, Err(GraphError::DuplicateId));
    assert_eq!(graph.nodes.len(), 2);

    let r = graph.add_nodes(vec![node_with_edges(3, "c", &[4])]);
    assert_eq!(r, Err(GraphError::DanglingEdge));
    assert_eq!(graph.nodes.len(), 2);
}
