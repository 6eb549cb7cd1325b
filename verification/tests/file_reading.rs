use md_decision_trees::parse_content;
use md_decision_trees::MdtError;

#[test]
fn test_invalid_file() {
    let node_res = parse_content("This is not decision trees\nJust some text\n");
    assert!(node_res.is_err());
    if let Err(err) = node_res {
        assert!(err.message().contains("md-decision-trees"));
    }
}

#[test]
fn missing_header_on_empty_input() {
    assert_eq!(parse_content("").unwrap_err(), MdtError::MissingHeader);
}

#[test]
fn missing_header_kind_prefix() {
    let err = parse_content("no marker here").unwrap_err();
    assert_eq!(err, MdtError::MissingHeader);
    assert!(err.message().starts_with("MissingHeader"));
}

#[test]
fn title_kept_verbatim() {
    let nodes = parse_content("# My tree (md-decision-trees)\n\nRoot").unwrap();
    assert_eq!(nodes.title, "# My tree (md-decision-trees)");
    assert_eq!(nodes.nodes.len(), 1);
}

#[test]
fn crlf_line_endings_accepted() {
    let content = "(md-decision-trees)\r\n\r\nParent1\r\n  * Child1.1\r\n";
    let nodes = parse_content(content).unwrap();
    assert_eq!(nodes.title, "(md-decision-trees)");
    assert_eq!(nodes.nodes.len(), 2);
    assert_eq!(nodes.nodes[0].text, "Parent1");
    assert_eq!(nodes.nodes[1].text, "Child1.1");
    assert_eq!(nodes.nodes[1].parent_idxs, vec![0]);
}

#[test]
fn indentation_error_on_odd_indent() {
    let err = parse_content("(md-decision-trees)\n\nRoot\n * Child").unwrap_err();
    assert_eq!(err, MdtError::Indentation);
    assert!(err.message().starts_with("Indentation"));
}

#[test]
fn typed_lock_violation_after_typed_line() {
    let err = parse_content("(md-decision-trees)\n\nD: Pick\n* untyped bullet").unwrap_err();
    assert_eq!(err, MdtError::TypedLockViolation);
    assert!(err.message().starts_with("TypedLockViolation"));
}

#[test]
fn typed_lock_allows_empty_lines() {
    let nodes = parse_content("(md-decision-trees)\n\nD: Pick\n\n\nO: Another").unwrap();
    assert_eq!(nodes.nodes.len(), 2);
}

#[test]
fn malformed_comparative_missing_same_ids() {
    // A comparative that lists zero same-type ids fails the grammar.
    let err = parse_content("(md-decision-trees)\n\nD: Pick\n* O: One\n  * P,-C,1: bad").unwrap_err();
    assert_eq!(err, MdtError::MalformedComparative);
    assert!(err.message().starts_with("MalformedComparative"));
}

#[test]
fn malformed_comparative_same_polarity() {
    let err = parse_content("(md-decision-trees)\n\nD: Pick\n* O: One\n  * P,1-P,2: bad").unwrap_err();
    assert_eq!(err, MdtError::MalformedComparative);
}

#[test]
fn malformed_comparative_trailing_comma() {
    let err = parse_content("(md-decision-trees)\n\nD: Pick\n* O: One\n  * P,1,: bad").unwrap_err();
    assert_eq!(err, MdtError::MalformedComparative);
}

#[test]
fn overflow_on_huge_parent_index() {
    let err =
        parse_content("(md-decision-trees)\n\nD: Pick\n* O: One\n  * P,4294967296: too big").unwrap_err();
    assert_eq!(err, MdtError::InternalOverflow);
    assert!(err.message().starts_with("InternalOverflow"));
}

#[test]
fn largest_parent_index_accepted() {
    let nodes =
        parse_content("(md-decision-trees)\n\nD: Pick\n* O: One\n  * P,4294967295: at the edge").unwrap();
    assert_eq!(nodes.nodes[2].parent_idxs, vec![u32::MAX]);
}

#[test]
fn prefix_requires_colon_space() {
    // Without the ": " delimiter nothing is decoded; in an untyped file the
    // whole line is node text.
    let nodes = parse_content("(md-decision-trees)\n\nD:no space").unwrap();
    assert!(nodes.nodes[0].type_is.is_none());
    assert_eq!(nodes.nodes[0].text, "D:no space");
}

#[test]
fn empty_text_after_prefix() {
    let nodes = parse_content("(md-decision-trees)\n\nD: ").unwrap();
    assert_eq!(nodes.nodes.len(), 1);
    assert_eq!(nodes.nodes[0].type_is, Some(md_decision_trees::NodeType::Decision));
    assert_eq!(nodes.nodes[0].text, "");
}

#[test]
fn empty_bullet_text() {
    let nodes = parse_content("(md-decision-trees)\n\nRoot\n* ").unwrap();
    assert_eq!(nodes.nodes.len(), 2);
    assert_eq!(nodes.nodes[1].level, 1);
    assert_eq!(nodes.nodes[1].text, "");
    assert_eq!(nodes.nodes[1].parent_idxs, vec![0]);
}

#[test]
fn tab_indent_is_not_a_bullet() {
    // Only spaces count as bullet indentation; a tab-led line is read as a
    // top-level node, verbatim.
    let nodes = parse_content("(md-decision-trees)\n\nRoot\n\t* X").unwrap();
    assert_eq!(nodes.nodes[1].level, 0);
    assert_eq!(nodes.nodes[1].text, "\t* X");
}

#[test]
fn comparative_without_delimiter_violates_lock() {
    // Without the ": " delimiter the comparative prefix is plain text, and
    // in a typed file an untyped line is rejected.
    let err = parse_content("(md-decision-trees)\n\nD: Pick\n* P,1-C,2").unwrap_err();
    assert_eq!(err, MdtError::TypedLockViolation);
}

#[test]
fn unknown_prefix_letter_is_text() {
    let nodes = parse_content("(md-decision-trees)\n\nX: not a kind").unwrap();
    assert!(nodes.nodes[0].type_is.is_none());
    assert_eq!(nodes.nodes[0].text, "X: not a kind");
}
