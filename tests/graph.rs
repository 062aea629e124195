use immersive_vj_system::{ConnectionId, DataType, GraphError, NodeConnection, NodeGraph, NodeId};

fn connect(g: &mut NodeGraph, a: NodeId, b: NodeId) -> Result<ConnectionId, GraphError> {
    g.add_connection(a, 0, b, 0, DataType::Float)
}

fn new_node(g: &mut NodeGraph) -> NodeId {
    let id = NodeId::new();
    g.add_node(id).unwrap();
    id
}

fn position(order: &[NodeId], id: NodeId) -> usize {
    order.iter().position(|&x| x == id).unwrap()
}

#[test]
fn test_node_creation() {
    let mut node_graph = NodeGraph::new();

    let node1 = new_node(&mut node_graph);
    let node2 = new_node(&mut node_graph);

    assert_eq!(node_graph.node_count(), 2);
    assert_ne!(node1, node2);
}

#[test]
fn test_node_connection() {
    let mut node_graph = NodeGraph::new();

    let node1 = new_node(&mut node_graph);
    let node2 = new_node(&mut node_graph);

    let result = connect(&mut node_graph, node1, node2);
    assert!(result.is_ok());

    assert_eq!(node_graph.connection_count(), 1);
}

#[test]
fn test_invalid_node_connection() {
    let mut node_graph = NodeGraph::new();

    let node1 = new_node(&mut node_graph);
    let invalid_node = NodeId::new();

    let result = connect(&mut node_graph, node1, invalid_node);
    assert!(result.is_err());
    assert_eq!(node_graph.connection_count(), 0);
}

#[test]
fn test_node_removal() {
    let mut node_graph = NodeGraph::new();

    let node1 = new_node(&mut node_graph);
    let node2 = new_node(&mut node_graph);
    let node3 = new_node(&mut node_graph);

    connect(&mut node_graph, node1, node2).unwrap();
    connect(&mut node_graph, node2, node3).unwrap();

    assert_eq!(node_graph.node_count(), 3);
    assert_eq!(node_graph.connection_count(), 2);

    node_graph.remove_node(node2).unwrap();

    // Node should be removed along with its connections
    assert_eq!(node_graph.node_count(), 2);
    assert_eq!(node_graph.connection_count(), 0);
}

#[test]
fn test_topological_sort() {
    let mut node_graph = NodeGraph::new();

    let node1 = new_node(&mut node_graph);
    let node2 = new_node(&mut node_graph);
    let node3 = new_node(&mut node_graph);
    let node4 = new_node(&mut node_graph);

    connect(&mut node_graph, node1, node2).unwrap();
    connect(&mut node_graph, node2, node3).unwrap();
    connect(&mut node_graph, node3, node4).unwrap();

    let order = node_graph.evaluation_order();
    assert_eq!(order.len(), 4);

    let pos1 = position(order, node1);
    let pos2 = position(order, node2);
    let pos3 = position(order, node3);
    let pos4 = position(order, node4);

    assert!(pos1 < pos2);
    assert!(pos2 < pos3);
    assert!(pos3 < pos4);
}

#[test]
fn test_cycle_detection() {
    let mut node_graph = NodeGraph::new();

    let node1 = new_node(&mut node_graph);
    let node2 = new_node(&mut node_graph);
    let node3 = new_node(&mut node_graph);

    connect(&mut node_graph, node1, node2).unwrap();
    connect(&mut node_graph, node2, node3).unwrap();
    let closing = connect(&mut node_graph, node3, node1);
    assert!(closing.is_err()); // Should fail due to cycle
    assert_eq!(closing, Err(GraphError::CycleDetected));
}

#[test]
fn test_connection_queries() {
    let mut node_graph = NodeGraph::new();

    let node1 = new_node(&mut node_graph);
    let node2 = new_node(&mut node_graph);
    let node3 = new_node(&mut node_graph);

    connect(&mut node_graph, node1, node2).unwrap();
    connect(&mut node_graph, node1, node3).unwrap();

    let outgoing: Vec<NodeId> =
        node_graph.get_output_connections(node1).iter().map(|c| c.to_node).collect();
    assert_eq!(outgoing.len(), 2);
    assert!(outgoing.contains(&node2));
    assert!(outgoing.contains(&node3));

    let incoming_node2: Vec<NodeId> =
        node_graph.get_input_connections(node2).iter().map(|c| c.from_node).collect();
    assert_eq!(incoming_node2.len(), 1);
    assert!(incoming_node2.contains(&node1));

    let incoming_node1 = node_graph.get_input_connections(node1);
    assert_eq!(incoming_node1.len(), 0);
}

#[test]
fn test_node_id_generation() {
    let mut node_graph = NodeGraph::new();

    let mut node_ids = Vec::new();
    for _ in 0..100 {
        node_ids.push(new_node(&mut node_graph));
    }

    // All IDs should be unique
    for i in 0..node_ids.len() {
        for j in (i + 1)..node_ids.len() {
            assert_ne!(node_ids[i], node_ids[j]);
        }
    }
}

#[test]
fn chain_of_four_orders_totally_and_rejects_closing_edge() {
    let mut g = NodeGraph::new();
    let ids: Vec<NodeId> = (1..=4).map(NodeId).collect();
    for &id in &ids {
        g.add_node(id).unwrap();
    }
    connect(&mut g, ids[0], ids[1]).unwrap();
    connect(&mut g, ids[1], ids[2]).unwrap();
    connect(&mut g, ids[2], ids[3]).unwrap();
    assert_eq!(g.evaluation_order(), &ids[..]);
    assert_eq!(
        g.add_connection(ids[3], 0, ids[0], 0, DataType::Float),
        Err(GraphError::CycleDetected)
    );
    assert_eq!(g.connection_count(), 3);
    assert_eq!(g.evaluation_order(), &ids[..]);
}

#[test]
fn fan_out_queries_and_removal() {
    let mut g = NodeGraph::new();
    let (n1, n2, n3) = (NodeId(1), NodeId(2), NodeId(3));
    for id in [n1, n2, n3] {
        g.add_node(id).unwrap();
    }
    connect(&mut g, n1, n2).unwrap();
    connect(&mut g, n1, n3).unwrap();
    assert_eq!(g.get_output_connections(n1).len(), 2);
    assert_eq!(g.get_input_connections(n1).len(), 0);
    g.remove_node(n2).unwrap();
    assert_eq!(g.connection_count(), 1);
    let left = g.get_connections_for_node(n1);
    assert_eq!(left.len(), 1);
    assert_eq!(left[0].from_node, n1);
    assert_eq!(left[0].to_node, n3);
}

#[test]
fn self_connection_is_a_cycle() {
    let mut g = NodeGraph::new();
    let a = NodeId(7);
    g.add_node(a).unwrap();
    assert_eq!(connect(&mut g, a, a), Err(GraphError::CycleDetected));
    assert_eq!(g.connection_count(), 0);
}

#[test]
fn diamond_order_respects_every_connection() {
    let mut g = NodeGraph::new();
    let ids: Vec<NodeId> = (10..15).map(NodeId).collect();
    for &id in ids.iter().rev() {
        g.add_node(id).unwrap();
    }
    let edges = [(0, 1), (0, 2), (1, 3), (2, 3), (3, 4), (0, 4)];
    for &(a, b) in &edges {
        connect(&mut g, ids[a], ids[b]).unwrap();
    }
    let order = g.evaluation_order().to_vec();
    assert_eq!(order.len(), 5);
    for &(a, b) in &edges {
        assert!(position(&order, ids[a]) < position(&order, ids[b]));
    }
    assert_eq!(connect(&mut g, ids[4], ids[1]), Err(GraphError::CycleDetected));
    assert_eq!(connect(&mut g, ids[3], ids[0]), Err(GraphError::CycleDetected));
    assert!(connect(&mut g, ids[1], ids[2]).is_ok());
}

#[test]
fn order_lists_every_live_node_once() {
    let mut g = NodeGraph::new();
    let ids: Vec<NodeId> = (0..6).map(NodeId).collect();
    for &id in &ids {
        g.add_node(id).unwrap();
    }
    connect(&mut g, ids[5], ids[0]).unwrap();
    connect(&mut g, ids[0], ids[3]).unwrap();
    g.remove_node(ids[2]).unwrap();
    let mut order = g.evaluation_order().to_vec();
    assert!(position(&order, ids[5]) < position(&order, ids[0]));
    assert!(position(&order, ids[0]) < position(&order, ids[3]));
    order.sort_by_key(|n| n.0);
    assert_eq!(order, vec![ids[0], ids[1], ids[3], ids[4], ids[5]]);
}

#[test]
fn removing_a_node_cascades_to_its_connections() {
    let mut g = NodeGraph::new();
    let (a, b, c, d) = (NodeId(1), NodeId(2), NodeId(3), NodeId(4));
    for id in [a, b, c, d] {
        g.add_node(id).unwrap();
    }
    connect(&mut g, a, b).unwrap();
    connect(&mut g, b, c).unwrap();
    connect(&mut g, d, b).unwrap();
    connect(&mut g, a, c).unwrap();
    g.remove_node(b).unwrap();
    assert!(!g.contains_node(b));
    assert!(g.get_input_connections(b).is_empty());
    assert!(g.get_output_connections(b).is_empty());
    assert_eq!(g.connection_count(), 1);
    let rest: Vec<NodeConnection> = g.get_connections_for_node(c);
    assert_eq!(rest.len(), 1);
    assert_eq!((rest[0].from_node, rest[0].to_node), (a, c));
    assert!(!g.dirty_nodes().contains(&b.0));
    assert_eq!(g.evaluation_order().len(), 3);
}

#[test]
fn marking_the_head_of_a_chain_dirties_downstream() {
    let mut g = NodeGraph::new();
    let (a, b, c) = (NodeId(1), NodeId(2), NodeId(3));
    for id in [a, b, c] {
        g.add_node(id).unwrap();
    }
    connect(&mut g, a, b).unwrap();
    connect(&mut g, b, c).unwrap();
    for id in [a, b, c] {
        g.clear_dirty(id);
    }
    assert!(g.dirty_nodes().is_empty());
    g.mark_dirty(a);
    assert!(g.is_dirty(a) && g.is_dirty(b) && g.is_dirty(c));
    g.clear_dirty(b);
    assert!(!g.is_dirty(b));
    assert!(g.is_dirty(c));
}

#[test]
fn mark_stops_at_already_dirty_node() {
    let mut g = NodeGraph::new();
    let (a, b, c) = (NodeId(1), NodeId(2), NodeId(3));
    for id in [a, b, c] {
        g.add_node(id).unwrap();
    }
    connect(&mut g, a, b).unwrap();
    connect(&mut g, b, c).unwrap();
    g.clear_dirty(a);
    g.clear_dirty(c);
    g.mark_dirty(a);
    assert!(g.is_dirty(a) && g.is_dirty(b));
    assert!(!g.is_dirty(c));
}

#[test]
fn new_nodes_and_new_inputs_are_dirty() {
    let mut g = NodeGraph::new();
    let (a, b, c) = (NodeId(1), NodeId(2), NodeId(3));
    g.add_node(a).unwrap();
    assert!(g.is_dirty(a));
    g.add_node(b).unwrap();
    g.add_node(c).unwrap();
    connect(&mut g, b, c).unwrap();
    g.clear_dirty(b);
    g.clear_dirty(c);
    connect(&mut g, a, b).unwrap();
    assert!(g.is_dirty(b));
    assert!(g.is_dirty(c));
}

#[test]
fn removing_a_connection_dirties_its_target() {
    let mut g = NodeGraph::new();
    let (a, b, c) = (NodeId(1), NodeId(2), NodeId(3));
    for id in [a, b, c] {
        g.add_node(id).unwrap();
    }
    let ab = connect(&mut g, a, b).unwrap();
    connect(&mut g, b, c).unwrap();
    for id in [a, b, c] {
        g.clear_dirty(id);
    }
    g.remove_connection(ab).unwrap();
    assert!(!g.is_dirty(a));
    assert!(g.is_dirty(b));
    assert!(g.is_dirty(c));
    assert_eq!(g.connection_count(), 1);
    assert_eq!(g.remove_connection(ab), Err(GraphError::ConnectionNotFound(ab)));
}

#[test]
fn clearing_twice_is_clearing_once() {
    let mut g = NodeGraph::new();
    let (a, b) = (NodeId(1), NodeId(2));
    g.add_node(a).unwrap();
    g.add_node(b).unwrap();
    g.clear_dirty(a);
    let once: Vec<u128> = {
        let mut v: Vec<u128> = g.dirty_nodes().iter().copied().collect();
        v.sort();
        v
    };
    g.clear_dirty(a);
    let mut twice: Vec<u128> = g.dirty_nodes().iter().copied().collect();
    twice.sort();
    assert_eq!(once, twice);
    assert!(!g.is_dirty(a));
    assert_eq!(twice, vec![2]);
}

#[test]
fn error_variants() {
    let mut g = NodeGraph::new();
    let (a, b, ghost) = (NodeId(1), NodeId(2), NodeId(99));
    g.add_node(a).unwrap();
    g.add_node(b).unwrap();
    assert_eq!(g.add_node(a), Err(GraphError::NodeAlreadyExists(a)));
    assert_eq!(g.remove_node(ghost), Err(GraphError::NodeNotFound(ghost)));
    assert_eq!(connect(&mut g, ghost, a), Err(GraphError::NodeNotFound(ghost)));
    assert_eq!(connect(&mut g, a, ghost), Err(GraphError::NodeNotFound(ghost)));
    assert_eq!(connect(&mut g, ghost, ghost), Err(GraphError::NodeNotFound(ghost)));
    let missing = ConnectionId(12345);
    assert_eq!(g.remove_connection(missing), Err(GraphError::ConnectionNotFound(missing)));
    assert_eq!(g.node_count(), 2);
    assert_eq!(g.connection_count(), 0);
}

#[test]
fn connection_record_keeps_ports_and_type() {
    let mut g = NodeGraph::new();
    let (a, b) = (NodeId(1), NodeId(2));
    g.add_node(a).unwrap();
    g.add_node(b).unwrap();
    let id = g.add_connection(a, 3, b, 5, DataType::Color).unwrap();
    let id2 = g.add_connection(a, 4, b, 6, DataType::Image).unwrap();
    assert_ne!(id, id2);
    let conns = g.get_input_connections(b);
    assert_eq!(conns.len(), 2);
    let first = conns.iter().find(|c| c.id == id).unwrap();
    assert_eq!(
        *first,
        NodeConnection {
            id,
            from_node: a,
            from_port: 3,
            to_node: b,
            to_port: 5,
            data_type: DataType::Color
        }
    );
    assert_eq!(g.get_connections_for_node(a).len(), 2);
}

#[test]
fn removing_the_last_added_and_a_middle_node_keeps_indices_consistent() {
    let mut g = NodeGraph::new();
    let ids: Vec<NodeId> = (1..=5).map(NodeId).collect();
    for &id in &ids {
        g.add_node(id).unwrap();
    }
    connect(&mut g, ids[3], ids[4]).unwrap();
    connect(&mut g, ids[4], ids[0]).unwrap();
    g.remove_node(ids[1]).unwrap();
    // the last node moved into the freed slot; it must still be addressable
    connect(&mut g, ids[2], ids[4]).unwrap();
    assert_eq!(connect(&mut g, ids[0], ids[3]), Err(GraphError::CycleDetected));
    g.remove_node(ids[4]).unwrap();
    assert_eq!(g.connection_count(), 0);
    assert!(connect(&mut g, ids[0], ids[3]).is_ok());
    assert_eq!(g.node_count(), 3);
}

#[test]
fn default_data_type_is_float() {
    assert_eq!(DataType::default(), DataType::Float);
}

#[test]
fn drawn_ids_are_version_four_uuids() {
    for _ in 0..20 {
        let n = NodeId::new().0;
        assert_eq!((n >> 76) & 0xf, 4);
        assert_eq!((n >> 62) & 0x3, 2);
        let c = ConnectionId::new().0;
        assert_eq!((c >> 76) & 0xf, 4);
        assert_eq!((c >> 62) & 0x3, 2);
    }
    let d = NodeId::default().0;
    assert_eq!((d >> 76) & 0xf, 4);
    let e = ConnectionId::default().0;
    assert_eq!((e >> 62) & 0x3, 2);
}

#[test]
fn default_graph_is_empty() {
    let g = NodeGraph::default();
    assert_eq!(g.node_count(), 0);
    assert_eq!(g.connection_count(), 0);
    assert!(g.evaluation_order().is_empty());
    assert!(g.dirty_nodes().is_empty());
}

#[test]
fn cleared_node_stays_clean_through_other_operations() {
    let mut g = NodeGraph::new();
    let (a, b, c) = (NodeId(1), NodeId(2), NodeId(3));
    g.add_node(a).unwrap();
    g.clear_dirty(a);
    g.add_node(b).unwrap();
    g.clear_dirty(b);
    g.clear_dirty(a);
    let _ = g.get_connections_for_node(a);
    let _ = g.evaluation_order();
    g.add_node(c).unwrap();
    assert_eq!(g.add_node(a), Err(GraphError::NodeAlreadyExists(a)));
    assert!(!g.is_dirty(a));
    assert!(g.is_dirty(c));
}
