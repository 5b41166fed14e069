use teaching_kg::{
    AddonEntityType, DistinctEntityType, EntityNode, KnowledgeGraph, Relation, Snapshot,
};

#[test]
fn test_encode_entity_node() {
    let default_id = 114514;
    let default_content = "Hello 世界！🦀@#& ";
    let default_addons = vec![
        AddonEntityType::Thinking,
        AddonEntityType::Political,
        AddonEntityType::Question,
    ];
    let default_coordinate = (1, 2);

    let distinct_types = [
        DistinctEntityType::KnowledgeArena,
        DistinctEntityType::KnowledgeUnit,
        DistinctEntityType::KnowledgePoint,
        DistinctEntityType::KnowledgeDetail,
    ];

    let xmls = [
        "<entity><id>114514</id><class_name>&#30693;&#35782;&#39046;&#22495;</class_name><classification>&#20869;&#23481;&#26041;&#27861;&#22411;&#33410;&#28857;</classification><identity>&#30693;&#35782;</identity><level>&#19968;&#32423;</level><attach>111000</attach><opentool>&#26080;</opentool><content>Hello &#19990;&#30028;&#65281;&#129408;@#&amp; </content><x>1</x><y>2</y></entity>",
        "<entity><id>114514</id><class_name>&#30693;&#35782;&#21333;&#20803;</class_name><classification>&#20869;&#23481;&#26041;&#27861;&#22411;&#33410;&#28857;</classification><identity>&#30693;&#35782;</identity><level>&#20108;&#32423;</level><attach>111000</attach><opentool>&#26080;</opentool><content>Hello &#19990;&#30028;&#65281;&#129408;@#&amp; </content><x>1</x><y>2</y></entity>",
        "<entity><id>114514</id><class_name>&#30693;&#35782;&#28857;</class_name><classification>&#20869;&#23481;&#26041;&#27861;&#22411;&#33410;&#28857;</classification><identity>&#30693;&#35782;</identity><level>&#24402;&#32435;&#32423;</level><attach>111000</attach><opentool>&#26080;</opentool><content>Hello &#19990;&#30028;&#65281;&#129408;@#&amp; </content><x>1</x><y>2</y></entity>",
        "<entity><id>114514</id><class_name>&#20851;&#38190;&#30693;&#35782;&#32454;&#33410;</class_name><classification>&#20869;&#23481;&#26041;&#27861;&#22411;&#33410;&#28857;</classification><identity>&#30693;&#35782;</identity><level>&#20869;&#23481;&#32423;</level><attach>111000</attach><opentool>&#26080;</opentool><content>Hello &#19990;&#30028;&#65281;&#129408;@#&amp; </content><x>1</x><y>2</y></entity>",
    ];

    for (distinct_type, xml_gt) in distinct_types.iter().zip(xmls.iter()) {
        let node = EntityNode::new(
            default_id,
            default_content.to_string(),
            *distinct_type,
            &default_addons,
            default_coordinate,
        );

        let xml = teaching_kg::codec::encode_entity(&node);
        assert_eq!(xml, *xml_gt);
    }
}

#[test]
fn test_encode_relation() {
    let (id_1, id_2) = (114514, 1919810);
    let relations = [
        ((id_1, id_2), Relation::Contain),
        ((id_1, id_2), Relation::Order),
    ];
    let xmls = [
        "<relation><name>&#21253;&#21547;</name><headnodeid>114514</headnodeid><tailnodeid>1919810</tailnodeid><class_name>&#21253;&#21547;&#20851;&#31995;</class_name><mask>&#30693;&#35782;&#36830;&#32447;</mask><classification>&#21253;&#21547;&#20851;&#31995;</classification><head_need>&#20869;&#23481;&#26041;&#27861;&#22411;&#33410;&#28857;</head_need><tail_need>&#20869;&#23481;&#26041;&#27861;&#22411;&#33410;&#28857;</tail_need></relation>",
        "<relation><name>&#21253;&#21547;</name><headnodeid>114514</headnodeid><tailnodeid>1919810</tailnodeid><class_name>&#27425;&#24207;&#20851;&#31995;</class_name><mask>&#30693;&#35782;&#36830;&#32447;</mask><classification>&#27425;&#24207;&#20851;&#31995;</classification><head_need>&#20869;&#23481;&#26041;&#27861;&#22411;&#33410;&#28857;</head_need><tail_need>&#20869;&#23481;&#26041;&#27861;&#22411;&#33410;&#28857;</tail_need></relation>",
    ];
    for (((head, tail), relation), xml_gt) in relations.iter().zip(xmls.iter()) {
        let xml = teaching_kg::codec::encode_edge(*head, *tail, *relation);
        assert_eq!(xml, *xml_gt);
    }
}

fn create_knowledge_graph() -> Result<KnowledgeGraph, Box<dyn std::error::Error>> {
    let mut knowledge_graph = KnowledgeGraph::default();

    let id_1 = knowledge_graph.add_entity(
        "什么是计算思维".to_string(),
        DistinctEntityType::KnowledgeArena,
        &[AddonEntityType::Thinking],
        (0, 0),
    );
    let id_2 = knowledge_graph.add_entity(
        "典型的计算思维".to_string(),
        DistinctEntityType::KnowledgePoint,
        &[
            AddonEntityType::Thinking,
            AddonEntityType::Example,
            AddonEntityType::Question,
        ],
        (1, 1),
    );
    let id_3 = knowledge_graph.add_entity(
        "小白鼠检验毒水瓶问题,怎样求解？".to_string(),
        DistinctEntityType::KnowledgeDetail,
        &[
            AddonEntityType::Practice,
            AddonEntityType::Example,
            AddonEntityType::Question,
        ],
        (2, 2),
    );
    let id_4 = knowledge_graph.add_entity(
        "水瓶编号：由十进制编号到二进制编号".to_string(),
        DistinctEntityType::KnowledgeDetail,
        &[
            AddonEntityType::Practice,
            AddonEntityType::Example,
            AddonEntityType::Thinking,
        ],
        (3, 3),
    );
    knowledge_graph.add_edge(id_1, id_2, Relation::Contain).map_err(|e| e.message())?;
    knowledge_graph.add_edge(id_1, id_3, Relation::Contain).map_err(|e| e.message())?;
    knowledge_graph.add_edge(id_3, id_4, Relation::Order).map_err(|e| e.message())?;

    Ok(knowledge_graph)
}

#[test]
fn test_encode_snapshot() -> Result<(), Box<dyn std::error::Error>> {
    let knowledge_graph = create_knowledge_graph()?;
    let xml = knowledge_graph
        .current_snapshot()
        .to_xml()
        .replace(['\n', ' '], "");

    // the overall document shape
    let pattern = r"^<KG>&#25945;&#23398;&#30693;&#35782;&#22270;&#35889;<entities>(?:<entity>.*?</entity>)+</entities><relations>(?:<relation>.*?</relation>)+</relations></KG>$";
    assert!(regex::Regex::new(pattern)?.is_match(&xml));

    // the content
    assert!(xml.contains("<entity><id>1</id><class_name>&#30693;&#35782;&#39046;&#22495;</class_name><classification>&#20869;&#23481;&#26041;&#27861;&#22411;&#33410;&#28857;</classification><identity>&#30693;&#35782;</identity><level>&#19968;&#32423;</level><attach>100000</attach><opentool>&#26080;</opentool><content>&#20160;&#20040;&#26159;&#35745;&#31639;&#24605;&#32500;</content><x>0</x><y>0</y></entity>"));
    assert!(xml.contains("<entity><id>2</id><class_name>&#30693;&#35782;&#28857;</class_name><classification>&#20869;&#23481;&#26041;&#27861;&#22411;&#33410;&#28857;</classification><identity>&#30693;&#35782;</identity><level>&#24402;&#32435;&#32423;</level><attach>101010</attach><opentool>&#26080;</opentool><content>&#20856;&#22411;&#30340;&#35745;&#31639;&#24605;&#32500;</content><x>1</x><y>1</y></entity>"));
    assert!(xml.contains("<entity><id>3</id><class_name>&#20851;&#38190;&#30693;&#35782;&#32454;&#33410;</class_name><classification>&#20869;&#23481;&#26041;&#27861;&#22411;&#33410;&#28857;</classification><identity>&#30693;&#35782;</identity><level>&#20869;&#23481;&#32423;</level><attach>001011</attach><opentool>&#26080;</opentool><content>&#23567;&#30333;&#40736;&#26816;&#39564;&#27602;&#27700;&#29942;&#38382;&#39064;,&#24590;&#26679;&#27714;&#35299;&#65311;</content><x>2</x><y>2</y></entity>"));
    assert!(xml.contains("<entity><id>4</id><class_name>&#20851;&#38190;&#30693;&#35782;&#32454;&#33410;</class_name><classification>&#20869;&#23481;&#26041;&#27861;&#22411;&#33410;&#28857;</classification><identity>&#30693;&#35782;</identity><level>&#20869;&#23481;&#32423;</level><attach>100011</attach><opentool>&#26080;</opentool><content>&#27700;&#29942;&#32534;&#21495;&#65306;&#30001;&#21313;&#36827;&#21046;&#32534;&#21495;&#21040;&#20108;&#36827;&#21046;&#32534;&#21495;</content><x>3</x><y>3</y></entity>"));
    assert!(xml.contains("<relation><name>&#21253;&#21547;</name><headnodeid>1</headnodeid><tailnodeid>2</tailnodeid><class_name>&#21253;&#21547;&#20851;&#31995;</class_name><mask>&#30693;&#35782;&#36830;&#32447;</mask><classification>&#21253;&#21547;&#20851;&#31995;</classification><head_need>&#20869;&#23481;&#26041;&#27861;&#22411;&#33410;&#28857;</head_need><tail_need>&#20869;&#23481;&#26041;&#27861;&#22411;&#33410;&#28857;</tail_need></relation>"));
    assert!(xml.contains("<relation><name>&#21253;&#21547;</name><headnodeid>1</headnodeid><tailnodeid>3</tailnodeid><class_name>&#21253;&#21547;&#20851;&#31995;</class_name><mask>&#30693;&#35782;&#36830;&#32447;</mask><classification>&#21253;&#21547;&#20851;&#31995;</classification><head_need>&#20869;&#23481;&#26041;&#27861;&#22411;&#33410;&#28857;</head_need><tail_need>&#20869;&#23481;&#26041;&#27861;&#22411;&#33410;&#28857;</tail_need></relation>"));
    assert!(xml.contains("<relation><name>&#21253;&#21547;</name><headnodeid>3</headnodeid><tailnodeid>4</tailnodeid><class_name>&#27425;&#24207;&#20851;&#31995;</class_name><mask>&#30693;&#35782;&#36830;&#32447;</mask><classification>&#27425;&#24207;&#20851;&#31995;</classification><head_need>&#20869;&#23481;&#26041;&#27861;&#22411;&#33410;&#28857;</head_need><tail_need>&#20869;&#23481;&#26041;&#27861;&#22411;&#33410;&#28857;</tail_need></relation>"));

    Ok(())
}

#[test]
fn test_decode_snapshot() -> Result<(), Box<dyn std::error::Error>> {
    let knowledge_graph = create_knowledge_graph()?;
    let snapshot = knowledge_graph.current_snapshot();
    let xml = snapshot.to_xml();

    let snapshot_decoded = Snapshot::from_xml(&xml).map_err(|e| e.message())?;
    assert_eq!(*snapshot, snapshot_decoded);

    Ok(())
}
