use md_decision_trees::parse_content;
use md_decision_trees::render_nodes;
use md_decision_trees::to_node_start_string;
use md_decision_trees::Node;
use md_decision_trees::NodeType;
use md_decision_trees::Nodes;

fn comparative_collection() -> Nodes {
    // A decision with three options and comparative Pro/Con nodes across
    // them, indexed as the writer's density requires.
    let mut nodes = Vec::new();

    nodes.push(Node::new(
        "Decision Node".to_string(),
        NodeType::Decision,
        0,
        0,
        vec![],
        vec![],
    ));
    let opt_1_idx = 1;
    nodes.push(Node::new(
        "Option 1".to_string(),
        NodeType::Option,
        opt_1_idx,
        1,
        vec![],
        vec![],
    ));
    // Pro node implicitly linking to Option 1
    nodes.push(Node::new(
        "Pro for Option 1".to_string(),
        NodeType::Pro,
        2,
        2,
        vec![],
        vec![],
    ));
    let opt_2_idx = 4;
    // Pro for multiple options, but not a Con for any
    nodes.push(Node::new(
        "Pro for Options 1 and 2".to_string(),
        NodeType::Pro,
        3,
        2,
        vec![opt_1_idx, opt_2_idx],
        vec![],
    ));
    nodes.push(Node::new(
        "Option 2".to_string(),
        NodeType::Option,
        opt_2_idx,
        1,
        vec![],
        vec![],
    ));
    // Con node implicitly linking to Option 2
    nodes.push(Node::new(
        "Con for Option 2".to_string(),
        NodeType::Con,
        5,
        2,
        vec![],
        vec![],
    ));
    let opt_3_idx = 7;
    // Pro node that is also a Con for 2 options
    nodes.push(Node::new(
        "Pro for Option 2, Con for Options 1 and 3".to_string(),
        NodeType::Pro,
        6,
        2,
        vec![opt_2_idx],
        vec![opt_1_idx, opt_3_idx],
    ));
    nodes.push(Node::new(
        "Option 3".to_string(),
        NodeType::Option,
        opt_3_idx,
        1,
        vec![],
        vec![],
    ));
    // Con node linking to one option, Pro for two others
    nodes.push(Node::new(
        "Con for Option 3, but Pro for 1 and 2".to_string(),
        NodeType::Con,
        8,
        2,
        vec![opt_3_idx],
        vec![opt_1_idx, opt_2_idx],
    ));
    Nodes { title: String::new(), nodes }
}

#[test]
fn test_comparative_encoding_writing() {
    let nodes = comparative_collection();
    let write_res = render_nodes(&nodes, "05_comparative_encoding_output");
    assert!(write_res.is_ok());
    let output_content = write_res.unwrap();

    // Check for the expected comparative encoding format
    assert!(output_content.contains("D: Decision Node"));
    assert!(output_content.contains("* O: Option 1"));
    assert!(output_content.contains("  * P: Pro for Option 1"));
    assert!(output_content.contains("  * P,1,4: Pro for Options 1 and 2"));
    assert!(output_content.contains("* O: Option 2"));
    assert!(output_content.contains("  * C: Con for Option 2"));
    assert!(output_content.contains("  * P,4-C,1,7: Pro for Option 2, Con for Options 1 and 3"));
    assert!(output_content.contains("* O: Option 3"));
    assert!(output_content.contains("  * C,7-P,1,4: Con for Option 3, but Pro for 1 and 2"));
}

#[test]
fn test_comparative_encoding_parsing() {
    let rendered = render_nodes(&comparative_collection(), "05_comparative_encoding_output").unwrap();
    let node_res = parse_content(&rendered);
    assert!(node_res.is_ok());
    if let Ok(nodes) = node_res {
        // Find the comparative node
        let comparative_node = nodes
            .nodes
            .iter()
            .find(|node| node.parent_idxs_diff_type.len() > 0)
            .expect("No comparative node found");

        // Verify it's a Pro node that is also a Con for other nodes
        assert_eq!(comparative_node.type_is, Some(NodeType::Pro));
        assert!(!comparative_node.parent_idxs.is_empty());
        assert!(!comparative_node.parent_idxs_diff_type.is_empty());
        assert!(comparative_node.text.contains("Pro for Option 2, Con for Options 1 and 3"));

        // Get the 3 option nodes to use their file_order indexs
        let option_nodes: Vec<&Node> = nodes
            .nodes
            .iter()
            .filter(|node| node.type_is == Some(NodeType::Option))
            .collect();
        assert_eq!(option_nodes.len(), 3);
        let option1 = option_nodes
            .iter()
            .find(|node| node.text == "Option 1")
            .expect("Option 1 not found");
        let option2 = option_nodes
            .iter()
            .find(|node| node.text == "Option 2")
            .expect("Option 2 not found");
        let option3 = option_nodes
            .iter()
            .find(|node| node.text == "Option 3")
            .expect("Option 3 not found");
        // Verify the comparative node's relationships
        assert_eq!(comparative_node.parent_idxs, vec![option2.file_order]);
        assert_eq!(
            comparative_node.parent_idxs_diff_type,
            vec![option1.file_order, option3.file_order]
        );
    }
}

#[test]
fn writer_minimal_encoding() {
    // A Pro with empty parent lists after an Option ancestor renders with
    // the bare kind letter: the single parent stays implicit.
    let nodes = Nodes {
        title: "(md-decision-trees)".to_string(),
        nodes: vec![
            Node::new("Pick".to_string(), NodeType::Decision, 0, 0, vec![], vec![]),
            Node::new("SQLite".to_string(), NodeType::Option, 1, 1, vec![], vec![]),
            Node::new("Simple".to_string(), NodeType::Pro, 2, 2, vec![], vec![]),
        ],
    };
    let out = render_nodes(&nodes, "ignored").unwrap();
    assert!(out.contains("  * P: Simple"));
    assert!(!out.contains("P,"));
}

#[test]
fn writer_exact_output() {
    let nodes = Nodes {
        title: "(md-decision-trees)".to_string(),
        nodes: vec![
            Node::new("Pick".to_string(), NodeType::Decision, 0, 0, vec![], vec![]),
            Node::new("SQLite".to_string(), NodeType::Option, 1, 1, vec![], vec![]),
        ],
    };
    let out = render_nodes(&nodes, "ignored").unwrap();
    assert_eq!(out, "(md-decision-trees)\n\nD: Pick\n* O: SQLite");
}

#[test]
fn writer_title_fallback_from_stem() {
    let nodes = Nodes {
        title: String::new(),
        nodes: vec![],
    };
    let out = render_nodes(&nodes, "my_tree").unwrap();
    assert_eq!(out, "# my_tree (md-decision-trees)");
}

#[test]
fn writer_single_explicit_parent_kept_implicit() {
    // One primary parent and no opposite-polarity parents: the numeric
    // list is omitted, mirroring the parser's implicit inference.
    let nodes = Nodes {
        title: "(md-decision-trees)".to_string(),
        nodes: vec![
            Node::new("Pick".to_string(), NodeType::Decision, 0, 0, vec![], vec![]),
            Node::new("SQLite".to_string(), NodeType::Option, 1, 1, vec![0], vec![]),
        ],
    };
    let out = render_nodes(&nodes, "ignored").unwrap();
    assert_eq!(out, "(md-decision-trees)\n\nD: Pick\n* O: SQLite");
}

#[test]
fn to_node_start_string_codes() {
    assert_eq!(to_node_start_string(&NodeType::Decision), Ok("D".to_string()));
    assert_eq!(to_node_start_string(&NodeType::Option), Ok("O".to_string()));
    assert_eq!(to_node_start_string(&NodeType::Pro), Ok("P".to_string()));
    assert_eq!(to_node_start_string(&NodeType::Con), Ok("C".to_string()));
    assert_eq!(to_node_start_string(&NodeType::Note), Ok("N".to_string()));
}

#[test]
fn node_type_from_str_bijection() {
    assert_eq!(NodeType::from_str("D"), Ok(NodeType::Decision));
    assert_eq!(NodeType::from_str("O"), Ok(NodeType::Option));
    assert_eq!(NodeType::from_str("P"), Ok(NodeType::Pro));
    assert_eq!(NodeType::from_str("C"), Ok(NodeType::Con));
    assert_eq!(NodeType::from_str("N"), Ok(NodeType::Note));
    assert_eq!(NodeType::from_str("X"), Err(()));
    assert_eq!(NodeType::from_str(""), Err(()));
    assert_eq!(NodeType::from_str("DD"), Err(()));
}

fn assert_same_parse(a: &Nodes, b: &Nodes) {
    assert_eq!(a.title, b.title);
    assert_eq!(a.nodes.len(), b.nodes.len());
    for (x, y) in a.nodes.iter().zip(b.nodes.iter()) {
        assert_eq!(x.text, y.text);
        assert_eq!(x.type_is, y.type_is);
        assert_eq!(x.file_order, y.file_order);
        assert_eq!(x.level, y.level);
        assert_eq!(x.parent_idxs, y.parent_idxs);
        assert_eq!(x.parent_idxs_diff_type, y.parent_idxs_diff_type);
    }
}

#[test]
fn file_round_trip_pure_bullets() {
    let content = "(md-decision-trees)\n\nParent1\n* Child1.1\n* Child1.2\n  * Child1.2.1\n    * Child1.2.1.1\n  * Child1.2.2\n* Child1.3\n\nParent2\n* Child2.1";
    let first = parse_content(content).unwrap();
    let rendered = render_nodes(&first, "ignored").unwrap();
    let second = parse_content(&rendered).unwrap();
    assert_same_parse(&first, &second);
}

#[test]
fn file_round_trip_typed() {
    let content = "(md-decision-trees)\n\nD: Pick a database\n* O: SQLite\n  * P: Simple\n  * C: No server\n";
    let first = parse_content(content).unwrap();
    let rendered = render_nodes(&first, "ignored").unwrap();
    let second = parse_content(&rendered).unwrap();
    assert_same_parse(&first, &second);
}

#[test]
fn file_round_trip_comparative() {
    let rendered = render_nodes(&comparative_collection(), "stem").unwrap();
    let first = parse_content(&rendered).unwrap();
    let rendered_again = render_nodes(&first, "stem").unwrap();
    let second = parse_content(&rendered_again).unwrap();
    assert_same_parse(&first, &second);
    assert_eq!(rendered, rendered_again);
}
