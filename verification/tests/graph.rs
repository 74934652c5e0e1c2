use algocol::error::AgcErrorKind;
use algocol::graph::maps::{AdjacencyMatrix, Edge, EdgeKind};

#[test]
fn an_edge_joins_two_different_nodes() {
    let edge = Edge::try_new(0, 1, 5, EdgeKind::ToRight);
    assert!(matches!(edge, Ok(_)));
    let edge = edge.unwrap();
    assert_eq!((edge.left, edge.right, edge.cost), (0, 1, 5));
    assert_eq!(edge.edge_kind, EdgeKind::ToRight);
    let edge = Edge::new("a", "b", 7u8, EdgeKind::Bidirectional);
    assert_eq!((edge.left, edge.right, edge.cost), ("a", "b", 7));
    assert_eq!(edge.edge_kind, EdgeKind::Bidirectional);
}

#[test]
fn an_edge_from_a_node_to_itself_is_refused() {
    let edge = Edge::try_new(0, 0, 5, EdgeKind::ToLeft);
    assert!(matches!(edge, Err(_)));
    let error = edge.err().unwrap();
    assert_eq!(error.kind(), AgcErrorKind::SameNode);
    assert_eq!(error.description(), "left cannot be the same as right.");
}

#[test]
fn the_kinds_of_edge_have_their_names() {
    assert_eq!(EdgeKind::ToRight.to_string(), "ToRight");
    assert_eq!(EdgeKind::ToLeft.to_string(), "ToLeft");
    assert_eq!(EdgeKind::Bidirectional.to_string(), "Bidirectional");
}

#[test]
fn a_new_graph_has_no_nodes() {
    let matrix = AdjacencyMatrix::<i32, i32>::new();
    assert!(!matrix.registered(&0));
    assert!(matrix.get_adjacent(&0).is_none());
    assert!(matrix.get_edge(&0, &1).is_none());
}

#[test]
fn a_graph_with_nodes_has_them_and_no_edges() {
    let nodes = [1, 2, 3, 2];
    let matrix = AdjacencyMatrix::<i32, i32>::with_nodes(&nodes[..]);
    assert!(matrix.registered(&1));
    assert!(matrix.registered(&2));
    assert!(matrix.registered(&3));
    assert!(!matrix.registered(&4));
    assert!(matrix.get_adjacent(&2).unwrap().is_empty());
    assert!(matrix.get_edge(&1, &2).is_none());
}

#[test]
fn registering_a_node_keeps_what_is_next_to_it() {
    let mut matrix = AdjacencyMatrix::<i32, i32>::new();
    assert!(matrix.register_node(&7).is_empty());
    matrix.register_node(&7).insert(8, 3);
    assert!(matrix.registered(&7));
    assert!(!matrix.registered(&8));
    assert_eq!(matrix.register_node(&7).len(), 1);
    assert_eq!(matrix.get_edge(&7, &8), Some(&3));
}

#[test]
fn pushing_an_edge_goes_the_way_of_its_kind() {
    let mut matrix = AdjacencyMatrix::<i32, i32>::new();
    matrix.push(Edge::new(0, 1, 5, EdgeKind::ToRight)).unwrap();
    assert_eq!(matrix.get_edge(&0, &1), Some(&5));
    assert_eq!(matrix.get_edge(&1, &0), None);
    assert!(matrix.registered(&0));
    assert!(!matrix.registered(&1));
    matrix.push(Edge::new(2, 3, 6, EdgeKind::ToLeft)).unwrap();
    assert_eq!(matrix.get_edge(&3, &2), Some(&6));
    assert_eq!(matrix.get_edge(&2, &3), None);
    matrix.push(Edge::new(4, 5, 7, EdgeKind::Bidirectional)).unwrap();
    assert_eq!(matrix.get_edge(&4, &5), Some(&7));
    assert_eq!(matrix.get_edge(&5, &4), Some(&7));
}

#[test]
fn pushing_an_edge_again_keeps_the_lesser_cost() {
    let mut matrix = AdjacencyMatrix::<i32, i32>::new();
    matrix.push(Edge::new(0, 1, 5, EdgeKind::ToRight)).unwrap();
    matrix.push(Edge::new(0, 1, 9, EdgeKind::ToRight)).unwrap();
    assert_eq!(matrix.get_edge(&0, &1), Some(&5));
    matrix.push(Edge::new(0, 1, 2, EdgeKind::ToRight)).unwrap();
    assert_eq!(matrix.get_edge(&0, &1), Some(&2));
    matrix.push(Edge::new(1, 0, 1, EdgeKind::Bidirectional)).unwrap();
    assert_eq!(matrix.get_edge(&0, &1), Some(&1));
    assert_eq!(matrix.get_edge(&1, &0), Some(&1));
    matrix.push(Edge::new(0, 2, 4, EdgeKind::ToRight)).unwrap();
    assert_eq!(matrix.get_adjacent(&0).unwrap().len(), 2);
}

#[test]
fn pushing_an_edge_from_a_node_to_itself_is_refused() {
    let mut matrix = AdjacencyMatrix::<i32, i32>::new();
    for edge_kind in [EdgeKind::ToRight, EdgeKind::ToLeft, EdgeKind::Bidirectional] {
        let edge = Edge { left: 3, right: 3, cost: 1, edge_kind };
        let error = matrix.push(edge).unwrap_err();
        assert_eq!(error.kind(), AgcErrorKind::SameNode);
        assert_eq!(error.description(), "from cannot be the same as to");
        assert!(!matrix.registered(&3));
    }
}

#[test]
fn what_is_written_through_a_mutable_reference_stays() {
    let mut matrix = AdjacencyMatrix::<i32, i32>::new();
    matrix.push(Edge::new(0, 1, 5, EdgeKind::ToRight)).unwrap();
    assert!(matrix.get_mut_edge(&1, &0).is_none());
    assert!(matrix.get_mut_edge(&0, &2).is_none());
    *matrix.get_mut_edge(&0, &1).unwrap() = 11;
    assert_eq!(matrix.get_edge(&0, &1), Some(&11));
    assert!(matrix.get_mut_adjacent(&1).is_none());
    matrix.get_mut_adjacent(&0).unwrap().insert(2, 12);
    assert_eq!(matrix.get_edge(&0, &2), Some(&12));
    assert_eq!(matrix.get_edge(&0, &1), Some(&11));
}

#[test]
fn a_clone_of_a_graph_is_its_own() {
    let mut matrix = AdjacencyMatrix::<i32, i32>::new();
    matrix.push(Edge::new(0, 1, 5, EdgeKind::ToRight)).unwrap();
    let mut copy = matrix.clone();
    copy.push(Edge::new(0, 1, 2, EdgeKind::ToRight)).unwrap();
    assert_eq!(matrix.get_edge(&0, &1), Some(&5));
    assert_eq!(copy.get_edge(&0, &1), Some(&2));
}
