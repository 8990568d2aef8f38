use hourglass::graph::{Graph, GraphError};
use std::collections::HashSet;

fn setup_graph() -> Graph<i32, ()> {
    let mut graph = Graph::new();

    let node0 = graph.add_node(0);
    let node1 = graph.add_node(1);
    let node2 = graph.add_node(2);
    let node3 = graph.add_node(3);

    graph.add_edge(node0, node1, ()).unwrap();
    graph.add_edge(node0, node2, ()).unwrap();
    graph.add_edge(node1, node2, ()).unwrap();
    graph.add_edge(node2, node3, ()).unwrap();

    graph
}

#[test]
fn test_add_node() {
    let mut graph = Graph::<i32, ()>::new();
    assert_eq!(graph.add_node(10), 0);
    assert_eq!(graph.add_node(20), 1);
}

#[test]
fn test_add_edge() {
    let mut graph = Graph::<i32, ()>::new();
    let node0 = graph.add_node(0);
    let node1 = graph.add_node(1);
    assert_eq!(graph.add_edge(node0, node1, ()), Ok(()));
    assert_eq!(
        graph.add_edge(node0, node0, ()),
        Err(GraphError::SelfLoopNotAllowed)
    );
    assert_eq!(
        graph.add_edge(node0, 2, ()),
        Err(GraphError::NodeDoesNotExist(2))
    );
    assert_eq!(
        graph.add_edge(node0, node1, ()),
        Err(GraphError::EdgeAlreadyExists(node0, node1))
    );
}

#[test]
fn test_bfs() {
    let graph = setup_graph();

    assert_eq!(
        graph.bfs(0).map(|v| v.into_iter().collect::<HashSet<_>>()),
        Ok([0, 1, 2, 3].iter().cloned().collect())
    );
    assert_eq!(
        graph.bfs(1).map(|v| v.into_iter().collect::<HashSet<_>>()),
        Ok([1, 2, 3].iter().cloned().collect())
    );
    assert_eq!(graph.bfs(4), Err(GraphError::NodeDoesNotExist(4)));
}

#[test]
fn test_dfs() {
    let graph = setup_graph();
    assert_eq!(
        graph.dfs(0).map(|v| v.into_iter().collect::<HashSet<_>>()),
        Ok([0, 1, 2, 3].iter().cloned().collect())
    );
    assert_eq!(
        graph.dfs(1).map(|v| v.into_iter().collect::<HashSet<_>>()),
        Ok([1, 2, 3].iter().cloned().collect())
    );
    assert_eq!(graph.dfs(4), Err(GraphError::NodeDoesNotExist(4)));
}

#[test]
fn test_detect_cycle() {
    let mut graph = Graph::new();

    let node0 = graph.add_node(0);
    let node1 = graph.add_node(1);
    let node2 = graph.add_node(2);
    let node3 = graph.add_node(3);

    assert_eq!(graph.detect_cycle(), Ok(()));

    graph.add_edge(node0, node1, ()).unwrap();
    assert_eq!(graph.detect_cycle(), Ok(()));

    graph.add_edge(node1, node2, ()).unwrap();
    assert_eq!(graph.detect_cycle(), Ok(()));

    graph.add_edge(node2, node0, ()).unwrap();
    assert_eq!(graph.detect_cycle(), Err(GraphError::CycleDetected));

    graph.add_edge(node2, node3, ()).unwrap();
    assert_eq!(graph.detect_cycle(), Err(GraphError::CycleDetected));
}

#[test]
fn test_find_path() {
    let mut graph = Graph::new();

    let node0 = graph.add_node(0);
    let node1 = graph.add_node(1);
    let node2 = graph.add_node(2);
    let node3 = graph.add_node(3);
    let node4 = graph.add_node(4);

    graph.add_edge(node0, node1, ()).unwrap();
    graph.add_edge(node0, node2, ()).unwrap();
    graph.add_edge(node1, node3, ()).unwrap();
    graph.add_edge(node2, node3, ()).unwrap();
    graph.add_edge(node3, node4, ()).unwrap();

    // Path from node 0 to 4.
    let path = graph.find_path(node0, node4).unwrap();
    assert_eq!(path, Some(vec![0, 2, 3, 4]));

    // Path from node 1 to 3.
    let path = graph.find_path(node1, node3).unwrap();
    assert_eq!(path, Some(vec![1, 3]));

    // No path exists in this direction.
    let path = graph.find_path(node4, node0).unwrap();
    assert_eq!(path, None);

    // Path to a nonexistent node.
    let path = graph.find_path(node0, 5);
    assert_eq!(path, Err(GraphError::NodeDoesNotExist(5)));
}

#[test]
fn test_get_node() {
    let mut graph = Graph::<_, ()>::new();
    let node_id = graph.add_node(5);

    match graph.get_node(node_id) {
        Some(node) => assert_eq!(node.data, 5),
        None => panic!("Node does not exist."),
    }

    match graph.get_node_mut(node_id) {
        Some(node) => {
            node.data = 10;
            assert_eq!(node.data, 10);
        }
        None => panic!("Node does not exist."),
    }

    match graph.get_node(node_id) {
        Some(node) => assert_eq!(node.data, 10),
        None => panic!("Node does not exist."),
    }

    assert!(graph.get_node(999).is_none());
}

#[test]
fn test_get_edge_weight() {
    let mut graph = Graph::new();
    let node0 = graph.add_node(0);
    let node1 = graph.add_node(1);
    graph.add_edge(node0, node1, 5).unwrap();

    match graph.get_edge_weight(node0, node1) {
        Some(weight) => assert_eq!(*weight, 5),
        None => panic!("Edge does not exist."),
    }

    match graph.get_edge_weight_mut(node0, node1) {
        Some(weight) => {
            *weight = 10;
            assert_eq!(*weight, 10);
        }
        None => panic!("Edge does not exist."),
    }

    match graph.get_edge_weight(node0, node1) {
        Some(weight) => assert_eq!(*weight, 10),
        None => panic!("Edge does not exist."),
    }

    assert!(graph.get_edge_weight(node0, 999).is_none());
    assert!(graph.get_edge_weight(999, node1).is_none());
}
