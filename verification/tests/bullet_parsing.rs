use md_decision_trees::parse_content;
use md_decision_trees::BulletFileParser;
use md_decision_trees::Node;
use md_decision_trees::NodeType;

fn vecs_match<T: Eq>(a: &Vec<T>, b: &Vec<T>) -> bool {
    if a.len() != b.len() {
        return false;
    }
    let num_matching = a.iter().zip(b.iter()).filter(|&(a, b)| a == b).count();
    return num_matching == a.len();
}

const BULLETS_FILE: &str = "(md-decision-trees)\n\nParent1\n* Child1.1\n* Child1.2\n  * Child1.2.1\n    * Child1.2.1.1\n  * Child1.2.2\n* Child1.3\n\nParent2\n* Child2.1\n* Child2.2";

#[test]
fn test_bullet_parsing() {
    let node_res = parse_content(BULLETS_FILE);
    assert!(node_res.is_ok());
    if let Ok(nodes) = node_res {
        assert!(nodes.nodes.len() == 10); //< Should match how many nodes are in the file

        // Get nodes for later testing & verify their names
        let get_node_with_name = |idx: usize, name: &str| -> &Node {
            let node_at_idx = &nodes.nodes[idx];
            assert!(node_at_idx.text == name);
            return node_at_idx;
        };
        let p1 = get_node_with_name(0, "Parent1");
        let c11 = get_node_with_name(1, "Child1.1");
        let c12 = get_node_with_name(2, "Child1.2");
        let c121 = get_node_with_name(3, "Child1.2.1");
        let c1211 = get_node_with_name(4, "Child1.2.1.1");
        let c122 = get_node_with_name(5, "Child1.2.2");
        let c13 = get_node_with_name(6, "Child1.3");
        let p2 = get_node_with_name(7, "Parent2");
        let c21 = get_node_with_name(8, "Child2.1");

        // Verify file order
        assert!(p1.file_order == 0);
        assert!(c11.file_order == 1);
        assert!(c12.file_order == 2);
        assert!(c121.file_order == 3);
        assert!(p2.file_order == 7);

        // Verify leveling
        assert!(p1.level == 0);
        assert!(c11.level == 1);
        assert!(c12.level == 1);
        assert!(c121.level == 2);
        assert!(p2.level == 0);
        assert!(c21.level == 1);

        // Verify parent index handling
        assert!(p1.parent_idxs.is_empty());
        assert!(vecs_match(&c11.parent_idxs, &Vec::from([p1.file_order])));
        assert!(vecs_match(&c12.parent_idxs, &Vec::from([p1.file_order])));
        assert!(vecs_match(&c121.parent_idxs, &Vec::from([c12.file_order])));
        assert!(vecs_match(&c1211.parent_idxs, &Vec::from([c121.file_order])));
        assert!(vecs_match(&c122.parent_idxs, &Vec::from([c12.file_order])));
        assert!(vecs_match(&c13.parent_idxs, &Vec::from([p1.file_order])));
        assert!(p2.parent_idxs.is_empty());
        assert!(vecs_match(&c21.parent_idxs, &Vec::from([p2.file_order])));
    }
}

#[test]
fn test_encoded_parsing() {
    let node_res =
        parse_content("(md-decision-trees)\n\nD: Pick a database\n* O: SQLite\n  * P: Simple\n  * C: No server\n");
    assert!(node_res.is_ok());
}

#[test]
fn test_parse_comparative_parent_idxs() {
    let parser = BulletFileParser::new();

    let assert_parents_are = |text: &str, same_type: Vec<u32>, diff_type: Vec<u32>| {
        let result = parser.parse_comparative_parent_idxs(text);
        assert!(result.is_some());
        let (same_type_res, diff_type_res) = result.unwrap();
        assert_eq!(same_type_res, same_type);
        assert_eq!(diff_type_res, diff_type);
    };

    assert_parents_are("P,1: Pro for Option 1", vec![1], vec![]);
    assert_parents_are("P,1,2,3: Pro for Options 1, 2, and 3", vec![1, 2, 3], vec![]);
    assert_parents_are(
        "P,1-C,2,3: Pro for Option 1, Con for Options 2 and 3",
        vec![1],
        vec![2, 3],
    );
    assert_parents_are(
        "C,1-P,2,3: Con for Option 1, Pro for Options 2 and 3",
        vec![1],
        vec![2, 3],
    );

    // Test failure cases - non comparative, and without a colon
    assert!(parser.parse_comparative_parent_idxs("P: Pro for Option").is_none());
    assert!(parser.parse_comparative_parent_idxs("P,1-C,2").is_none());
}

#[test]
fn pure_bullet_fixture_levels_and_parents() {
    // The nine-node pure-bullet outline: levels and primary parents follow
    // the DFS ancestor stack.
    let content = "(md-decision-trees)\n\nParent1\n* Child1.1\n* Child1.2\n  * Child1.2.1\n    * Child1.2.1.1\n  * Child1.2.2\n* Child1.3\n\nParent2\n* Child2.1";
    let nodes = parse_content(content).unwrap();
    assert_eq!(nodes.nodes.len(), 9);
    let levels: Vec<u32> = nodes.nodes.iter().map(|n| n.level).collect();
    assert_eq!(levels, vec![0, 1, 1, 2, 3, 2, 1, 0, 1]);
    let parents: Vec<Vec<u32>> = nodes.nodes.iter().map(|n| n.parent_idxs.clone()).collect();
    let expected: Vec<Vec<u32>> = vec![
        vec![],
        vec![0],
        vec![0],
        vec![2],
        vec![3],
        vec![2],
        vec![0],
        vec![],
        vec![7],
    ];
    assert_eq!(parents, expected);
    for n in nodes.nodes.iter() {
        assert!(n.type_is.is_none());
        assert!(n.parent_idxs_diff_type.is_empty());
    }
    for (i, n) in nodes.nodes.iter().enumerate() {
        assert_eq!(n.file_order as usize, i);
    }
}

#[test]
fn typed_basic_encoding_fields() {
    // Typed file: kinds, levels, and implicit parents.
    let content = "(md-decision-trees)\n\nD: Pick a database\n* O: SQLite\n  * P: Simple\n  * C: No server\n";
    let nodes = parse_content(content).unwrap();
    assert_eq!(nodes.nodes.len(), 4);
    let types: Vec<Option<NodeType>> = nodes.nodes.iter().map(|n| n.type_is).collect();
    assert_eq!(
        types,
        vec![
            Some(NodeType::Decision),
            Some(NodeType::Option),
            Some(NodeType::Pro),
            Some(NodeType::Con)
        ]
    );
    let levels: Vec<u32> = nodes.nodes.iter().map(|n| n.level).collect();
    assert_eq!(levels, vec![0, 1, 2, 2]);
    let parents: Vec<Vec<u32>> = nodes.nodes.iter().map(|n| n.parent_idxs.clone()).collect();
    assert_eq!(parents, vec![vec![], vec![0], vec![1], vec![1]]);
    assert_eq!(nodes.nodes[0].text, "Pick a database");
    assert_eq!(nodes.nodes[1].text, "SQLite");
    assert_eq!(nodes.nodes[2].text, "Simple");
    assert_eq!(nodes.nodes[3].text, "No server");
}

#[test]
fn comparative_pro_for_two_options() {
    // A comparative Pro names both options explicitly; the ancestor stack
    // does not override the explicit list.
    let content = "(md-decision-trees)\n\nD: Pick\n* O: One\n  * P,1,4: Good for both\n* O: Two\n";
    let nodes = parse_content(content).unwrap();
    let node = &nodes.nodes[2];
    assert_eq!(node.type_is, Some(NodeType::Pro));
    assert_eq!(node.level, 2);
    assert_eq!(node.parent_idxs, vec![1, 4]);
    assert!(node.parent_idxs_diff_type.is_empty());
    assert_eq!(node.text, "Good for both");
}

#[test]
fn comparative_pro_con_mixed() {
    let content = "(md-decision-trees)\n\nD: Pick\n* O: One\n  * P,4-C,1,7: Pro for 2, Con for 1 and 3\n";
    let nodes = parse_content(content).unwrap();
    let node = &nodes.nodes[2];
    assert_eq!(node.type_is, Some(NodeType::Pro));
    assert_eq!(node.parent_idxs, vec![4]);
    assert_eq!(node.parent_idxs_diff_type, vec![1, 7]);
    assert_eq!(node.text, "Pro for 2, Con for 1 and 3");
}

#[test]
fn comparative_con_pro_mixed() {
    let content = "(md-decision-trees)\n\nD: Pick\n* O: One\n  * C,7-P,1,4: Con for 3, Pro for 1 and 2\n";
    let nodes = parse_content(content).unwrap();
    let node = &nodes.nodes[2];
    assert_eq!(node.type_is, Some(NodeType::Con));
    assert_eq!(node.parent_idxs, vec![7]);
    assert_eq!(node.parent_idxs_diff_type, vec![1, 4]);
}

#[test]
fn handle_line_empty_yields_nothing() {
    let mut parser = BulletFileParser::new();
    let line = String::new();
    let r = parser.handle_line(&line).unwrap();
    assert!(r.is_none());
}

#[test]
fn handle_line_top_level_node() {
    let mut parser = BulletFileParser::new();
    let line = String::from("Just a root");
    let node = parser.handle_line(&line).unwrap().unwrap();
    assert_eq!(node.level, 0);
    assert_eq!(node.file_order, 0);
    assert_eq!(node.text, "Just a root");
    assert!(node.type_is.is_none());
    assert!(node.parent_idxs.is_empty());
}
