use teaching_kg::{
    AddonEntityType, DistinctEntityType, EntityNode, GraphError, KnowledgeGraph, Relation,
    SerdeError, SerializableEdge, Snapshot,
};

fn addons(list: &[AddonEntityType]) -> Vec<AddonEntityType> {
    list.to_vec()
}

#[test]
fn undo_restores_pre_mutation_snapshot() {
    let mut graph = KnowledgeGraph::default();
    graph.add_entity("a".to_string(), DistinctEntityType::KnowledgeArena, &[], (0, 0));
    let before = graph.current.clone();
    graph.add_entity("b".to_string(), DistinctEntityType::KnowledgeUnit, &[], (5, 5));
    let after = graph.current.clone();
    assert!(graph.undo().is_ok());
    assert_eq!(graph.current, before);
    assert!(graph.redo().is_ok());
    assert_eq!(graph.current, after);
}

#[test]
fn mutation_clears_redo() {
    let mut graph = KnowledgeGraph::default();
    graph.add_entity("a".to_string(), DistinctEntityType::KnowledgeArena, &[], (0, 0));
    assert!(graph.undo().is_ok());
    graph.add_entity("c".to_string(), DistinctEntityType::KnowledgePoint, &[], (1, 1));
    match graph.redo() {
        Err(GraphError::NothingToRedo) => {}
        _ => panic!("Expected NothingToRedo error"),
    }
}

#[test]
fn remove_entity_cascades_exactly() {
    let mut graph = KnowledgeGraph::default();
    let a = graph.add_entity("a".to_string(), DistinctEntityType::KnowledgeArena, &[], (0, 0));
    let b = graph.add_entity("b".to_string(), DistinctEntityType::KnowledgeUnit, &[], (1, 1));
    let c = graph.add_entity("c".to_string(), DistinctEntityType::KnowledgePoint, &[], (2, 2));
    graph.add_edge(a, b, Relation::Contain).unwrap();
    graph.add_edge(b, c, Relation::Order).unwrap();
    graph.add_edge(c, a, Relation::Contain).unwrap();
    graph.add_edge(c, b, Relation::Contain).unwrap();
    graph.remove_entity(a).unwrap();
    // edges touching a are gone, the one between b and c stays
    assert!(!graph.current.contains_edge(a, b));
    assert!(!graph.current.contains_edge(c, a));
    assert!(graph.current.contains_edge(b, c));
    assert!(graph.current.contains_edge(c, b));
    assert_eq!(graph.current.edge_count(), 2);
}

#[test]
fn bitmask_is_insertion_order_invariant() {
    let one = addons(&[
        AddonEntityType::Question,
        AddonEntityType::Thinking,
        AddonEntityType::Example,
    ]);
    let two = addons(&[
        AddonEntityType::Example,
        AddonEntityType::Example,
        AddonEntityType::Question,
        AddonEntityType::Thinking,
    ]);
    let n1 = EntityNode::new(1, "x".to_string(), DistinctEntityType::KnowledgePoint, &one, (0, 0));
    let n2 = EntityNode::new(1, "x".to_string(), DistinctEntityType::KnowledgePoint, &two, (0, 0));
    assert_eq!(n1.addon_types, n2.addon_types);
    assert_eq!(
        teaching_kg::codec::encode_entity(&n1),
        teaching_kg::codec::encode_entity(&n2)
    );
}

#[test]
fn round_trip_with_unicode_and_empty_addons() {
    let mut graph = KnowledgeGraph::default();
    graph.add_entity("纯文本 & <tags> 'quote' \"double\"".to_string(), DistinctEntityType::KnowledgeArena, &[], (-7, 42));
    graph.add_entity(String::new(), DistinctEntityType::KnowledgeDetail, &[AddonEntityType::Political], (0, -1));
    let snapshot = graph.current_snapshot();
    let xml = snapshot.to_xml();
    let decoded = Snapshot::from_xml(&xml).unwrap();
    assert_eq!(*snapshot, decoded);
}

#[test]
fn next_id_recomputed_on_load() {
    // a hand-written document with entity ids 3, 7 and 9
    let entity = |id: u64| {
        format!(
            "<entity><id>{}</id><class_name>知识领域</class_name><classification>c</classification><identity>i</identity><level>l</level><attach>000000</attach><opentool>o</opentool><content>n</content><x>0</x><y>0</y></entity>",
            id
        )
    };
    let doc = format!(
        "<KG>t<entities>{}{}{}</entities><relations></relations></KG>",
        entity(3),
        entity(7),
        entity(9)
    );
    let snap = Snapshot::from_xml(&doc).unwrap();
    assert_eq!(snap.next_id(), 10);
    assert_eq!(snap.entity_count(), 3);

    // an empty document starts the counter at 1
    let empty = "<KG>t<entities></entities><relations></relations></KG>";
    let snap2 = Snapshot::from_xml(empty).unwrap();
    assert_eq!(snap2.next_id(), 1);
    assert_eq!(snap2.entity_count(), 0);
}

#[test]
fn decode_rejects_malformed_documents() {
    assert!(matches!(
        Snapshot::from_xml("not a document"),
        Err(SerdeError::Deserialize)
    ));
    assert!(matches!(
        Snapshot::from_xml("<KG>t<entities></entities>"),
        Err(SerdeError::Deserialize)
    ));
    assert!(matches!(
        Snapshot::from_xml("<KG>t<entities></entities><relations></relations></KG>junk"),
        Err(SerdeError::Deserialize)
    ));
}

#[test]
fn decode_rejects_unknown_labels() {
    let bad_entity = "<KG>t<entities><entity><id>1</id><class_name>mystery</class_name><classification>c</classification><identity>i</identity><level>l</level><attach>000000</attach><opentool>o</opentool><content>n</content><x>0</x><y>0</y></entity></entities><relations></relations></KG>";
    match Snapshot::from_xml(bad_entity) {
        Err(SerdeError::Unexpected(field, value)) => {
            assert_eq!(field, "实体类型");
            assert_eq!(value, "mystery");
        }
        _ => panic!("Expected Unexpected error"),
    }
    let bad_edge = "<KG>t<entities></entities><relations><relation><name>n</name><headnodeid>1</headnodeid><tailnodeid>2</tailnodeid><class_name>mystery</class_name><mask>m</mask><classification>c</classification><head_need>h</head_need><tail_need>t</tail_need></relation></relations></KG>";
    match Snapshot::from_xml(bad_edge) {
        Err(SerdeError::Unexpected(field, value)) => {
            assert_eq!(field, "关系名");
            assert_eq!(value, "mystery");
        }
        _ => panic!("Expected Unexpected error"),
    }
}

#[test]
fn decode_accepts_alternate_order_spelling() {
    let doc = "<KG>t<entities><entity><id>1</id><class_name>知识领域</class_name><classification>c</classification><identity>i</identity><level>l</level><attach>000000</attach><opentool>o</opentool><content>n</content><x>0</x><y>0</y></entity><entity><id>2</id><class_name>知识点</class_name><classification>c</classification><identity>i</identity><level>l</level><attach>010101</attach><opentool>o</opentool><content>m</content><x>1</x><y>1</y></entity></entities><relations><relation><name>n</name><headnodeid>1</headnodeid><tailnodeid>2</tailnodeid><class_name>次序：次序关系</class_name><mask>m</mask><classification>c</classification><head_need>h</head_need><tail_need>t</tail_need></relation></relations></KG>";
    let snap = Snapshot::from_xml(doc).unwrap();
    assert_eq!(snap.get_relation(1, 2), Some(Relation::Order));
}

#[test]
fn escape_non_ascii_is_a_text_level_pass() {
    assert_eq!(
        teaching_kg::escape_non_ascii("Hello 世界！🦀@#& "),
        "Hello &#19990;&#30028;&#65281;&#129408;@#& "
    );
    assert_eq!(teaching_kg::escape_non_ascii(""), "");
    assert_eq!(teaching_kg::escape_non_ascii("plain"), "plain");
}

#[test]
fn serializable_edge_round_trip() {
    let edge = SerializableEdge::from_edge(114514, 1919810, Relation::Order);
    assert_eq!(edge.headnodeid, 114514);
    assert_eq!(edge.tailnodeid, 1919810);
    assert_eq!(edge.class_name, "次序关系");
    let (f, t, rel) = edge.to_edge().unwrap();
    assert_eq!((f, t, rel), (114514, 1919810, Relation::Order));

    let mut odd = SerializableEdge::from_edge(1, 2, Relation::Contain);
    odd.class_name = "次序：次序关系".to_string();
    let (_, _, rel2) = odd.to_edge().unwrap();
    assert_eq!(rel2, Relation::Order);

    odd.class_name = "mystery".to_string();
    match odd.to_edge() {
        Err(SerdeError::Unexpected(field, value)) => {
            assert_eq!(field, "关系名");
            assert_eq!(value, "mystery");
        }
        _ => panic!("Expected Unexpected error"),
    }
}

#[test]
fn full_editing_scenario() {
    let mut graph = KnowledgeGraph::default();
    let id_a = graph.add_entity(
        "A".to_string(),
        DistinctEntityType::KnowledgeArena,
        &[],
        (0, 0),
    );
    assert_eq!(id_a, 1);
    let id_b = graph.add_entity(
        "B".to_string(),
        DistinctEntityType::KnowledgePoint,
        &[AddonEntityType::Example, AddonEntityType::Question],
        (1, 1),
    );
    assert_eq!(id_b, 2);
    assert!(graph.add_edge(1, 2, Relation::Contain).is_ok());

    // encoding then decoding reproduces both entities and the edge
    let xml = graph.current_snapshot().to_xml();
    let decoded = Snapshot::from_xml(&xml).unwrap();
    assert_eq!(*graph.current_snapshot(), decoded);
    assert!(decoded.contains_entity(1) && decoded.contains_entity(2));
    assert_eq!(decoded.get_relation(1, 2), Some(Relation::Contain));

    // removing entity 1 leaves zero edges and one entity
    assert!(graph.remove_entity(1).is_ok());
    assert_eq!(graph.current.edge_count(), 0);
    assert_eq!(graph.current.entity_count(), 1);
    assert!(graph.current.contains_entity(2));

    // undo restores entity 1 and the edge
    assert!(graph.undo().is_ok());
    assert!(graph.current.contains_entity(1));
    assert!(graph.current.contains_edge(1, 2));

    // a second undo steps back before the edge was added
    assert!(graph.undo().is_ok());
    assert!(graph.current.contains_entity(1));
    assert!(graph.current.contains_entity(2));
    assert_eq!(graph.current.edge_count(), 0);

    // a third undo returns to the single-entity state
    assert!(graph.undo().is_ok());
    assert!(graph.current.contains_entity(1));
    assert!(!graph.current.contains_entity(2));
    assert_eq!(graph.current.entity_count(), 1);

    // a fourth undo hits the empty state, and one more fails
    assert!(graph.undo().is_ok());
    assert_eq!(graph.current.entity_count(), 0);
    match graph.undo() {
        Err(GraphError::NothingToUndo) => {}
        _ => panic!("Expected NothingToUndo error"),
    }
}
