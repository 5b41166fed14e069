use teaching_kg::{AddonEntityType, DistinctEntityType, GraphError, KnowledgeGraph, Relation};

fn default_distinct() -> DistinctEntityType {
    DistinctEntityType::KnowledgePoint
}

fn default_addons() -> Vec<AddonEntityType> {
    vec![
        AddonEntityType::Knowledge,
        AddonEntityType::Thinking,
        AddonEntityType::Example,
        AddonEntityType::Question,
        AddonEntityType::Question, // a duplicated type
    ]
}

fn default_relation() -> Relation {
    Relation::Contain
}

fn default_coor() -> (i64, i64) {
    (0, 0)
}

#[test]
fn test_add_entity() {
    let mut graph = KnowledgeGraph::default();
    let content = "Test Node".to_string();
    let id = graph.add_entity(
        content.clone(),
        default_distinct(),
        &default_addons(),
        default_coor(),
    );

    // the node exists
    assert!(graph.current.contains_entity(id));

    // and holds what was put in
    let node = graph.current.get_entity(id).unwrap();
    assert_eq!(node.content, content);
    assert_eq!(node.distinct_type, default_distinct());
    assert_eq!(node.addon_types.len(), 4); // the duplicate was dropped
}

#[test]
fn test_remove_entity() {
    let mut graph = KnowledgeGraph::default();
    let id = graph.add_entity(
        "Node to remove".to_string(),
        default_distinct(),
        &default_addons(),
        default_coor(),
    );
    assert!(graph.current.contains_entity(id));

    assert!(graph.remove_entity(id).is_ok());
    assert!(!graph.current.contains_entity(id));

    // removing the same node again fails
    match graph.remove_entity(id) {
        Err(GraphError::EntityNotFound(eid)) => assert_eq!(eid, id),
        _ => panic!("Expected EntityNotFound error"),
    }
}

#[test]
fn test_update_entity() {
    let mut graph = KnowledgeGraph::default();
    let id = graph.add_entity(
        "Old Content".to_string(),
        default_distinct(),
        &default_addons(),
        default_coor(),
    );
    assert!(
        graph
            .update_entity_content(
                id,
                "New Content".to_string(),
                default_distinct(),
                &default_addons(),
            )
            .is_ok()
    );
    assert_eq!(
        graph.current.get_entity(id).unwrap().content,
        "New Content".to_string()
    );
    // updating a missing node fails
    match graph.update_entity_content(
        999,
        "No Node".to_string(),
        default_distinct(),
        &default_addons(),
    ) {
        Err(GraphError::EntityNotFound(eid)) => assert_eq!(eid, 999),
        _ => panic!("Expected EntityNotFound error"),
    }
}

#[test]
fn test_edge_operations() {
    let mut graph = KnowledgeGraph::default();
    let from = graph.add_entity(
        "From Node".to_string(),
        default_distinct(),
        &default_addons(),
        default_coor(),
    );
    let to = graph.add_entity(
        "To Node".to_string(),
        default_distinct(),
        &default_addons(),
        default_coor(),
    );

    // adding an edge
    assert!(graph.add_edge(from, to, default_relation()).is_ok());
    assert!(graph.current.contains_edge(from, to));

    // adding the same ordered pair again overwrites rather than erring
    assert!(graph.add_edge(from, to, Relation::Order).is_ok());
    assert!(graph.current.contains_edge(from, to));

    // updating the edge
    assert!(graph.update_edge(from, to, default_relation()).is_ok());

    // removing the edge
    assert!(graph.remove_edge(from, to).is_ok());
    assert!(!graph.current.contains_edge(from, to));

    // removing a missing edge fails
    match graph.remove_edge(from, to) {
        Err(GraphError::EdgeNotFound(f, t)) => {
            assert_eq!(f, from);
            assert_eq!(t, to);
        }
        _ => panic!("Expected EdgeNotFound error"),
    }
}

#[test]
fn test_undo_redo() {
    let mut graph = KnowledgeGraph::default();
    let id = graph.add_entity(
        "Undo Node".to_string(),
        default_distinct(),
        &default_addons(),
        default_coor(),
    );
    assert!(graph.current.contains_entity(id));
    // undo removes the node
    assert!(graph.undo().is_ok());
    assert!(!graph.current.contains_entity(id));
    // redo restores it
    assert!(graph.redo().is_ok());
    assert!(graph.current.contains_entity(id));

    // an empty undo stack
    let mut graph2 = KnowledgeGraph::default();
    match graph2.undo() {
        Err(GraphError::NothingToUndo) => {}
        _ => panic!("Expected NothingToUndo error"),
    }
    // an empty redo stack
    match graph2.redo() {
        Err(GraphError::NothingToRedo) => {}
        _ => panic!("Expected NothingToRedo error"),
    }
}

#[test]
fn test_history_limit() {
    let mut graph = KnowledgeGraph::default();
    for i in 0..150 {
        graph.add_entity(
            format!("Node {}", i),
            default_distinct(),
            &default_addons(),
            default_coor(),
        );
    }
    // the undo stack is capped
    assert!(graph.undo_stack.len() == 100);
    // undo as often as possible
    let mut undos = 0;
    while graph.undo().is_ok() {
        undos += 1;
    }
    assert!(undos == 100);
}
