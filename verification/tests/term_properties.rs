use tt_min::{LiteralValue, MergeError, ProductTerm, TernaryNode, TernaryTreeMinimization};

#[test]
fn test_equality_and_hash_ignore_insertion_order() {
    let mut term = ProductTerm::new();
    term.add_literal(String::from("A"), LiteralValue::False);
    term.add_literal(String::from("B"), LiteralValue::True);
    term.add_literal(String::from("C"), LiteralValue::DontCare);

    let mut other = ProductTerm::new();
    other.add_literal(String::from("C"), LiteralValue::DontCare);
    other.add_literal(String::from("B"), LiteralValue::True);
    other.add_literal(String::from("A"), LiteralValue::False);

    assert_eq!(term, other);
    assert_eq!(term.content_hash(), other.content_hash());
}

#[test]
fn test_merge_is_commutative() {
    let mut term = ProductTerm::new();
    term.add_literal(String::from("A"), LiteralValue::False);
    term.add_literal(String::from("B"), LiteralValue::True);

    let mut other = ProductTerm::new();
    other.add_literal(String::from("A"), LiteralValue::False);
    other.add_literal(String::from("B"), LiteralValue::False);

    let forward = term.merge(&other).unwrap();
    let backward = other.merge(&term).unwrap();
    assert_eq!(forward, backward);
}

#[test]
fn test_merge_failure_is_commutative() {
    let mut term = ProductTerm::new();
    term.add_literal(String::from("A"), LiteralValue::False);
    term.add_literal(String::from("B"), LiteralValue::DontCare);

    let mut other = ProductTerm::new();
    other.add_literal(String::from("A"), LiteralValue::False);
    other.add_literal(String::from("B"), LiteralValue::False);

    assert!(term.merge(&other).is_err());
    assert!(other.merge(&term).is_err());
}

#[test]
fn test_merge_error_variable_set_mismatch() {
    let mut term = ProductTerm::new();
    term.add_literal(String::from("A"), LiteralValue::True);
    term.add_literal(String::from("B"), LiteralValue::False);

    let mut other = ProductTerm::new();
    other.add_literal(String::from("A"), LiteralValue::True);
    other.add_literal(String::from("B"), LiteralValue::True);
    other.add_literal(String::from("C"), LiteralValue::DontCare);

    assert_eq!(term.merge(&other).unwrap_err(), MergeError::VariableSetMismatch);
}

#[test]
fn test_merge_error_multiple_differences() {
    let mut term = ProductTerm::new();
    term.add_literal(String::from("A"), LiteralValue::False);
    term.add_literal(String::from("B"), LiteralValue::False);

    let mut other = ProductTerm::new();
    other.add_literal(String::from("A"), LiteralValue::True);
    other.add_literal(String::from("B"), LiteralValue::True);

    assert_eq!(term.merge(&other).unwrap_err(), MergeError::MultipleDifferences);
}

#[test]
fn test_merge_error_dont_care_mismatch() {
    let mut term = ProductTerm::new();
    term.add_literal(String::from("A"), LiteralValue::DontCare);
    term.add_literal(String::from("B"), LiteralValue::False);

    let mut other = ProductTerm::new();
    other.add_literal(String::from("A"), LiteralValue::True);
    other.add_literal(String::from("B"), LiteralValue::DontCare);

    assert_eq!(term.merge(&other).unwrap_err(), MergeError::DontCareMismatch);
}

#[test]
fn test_merge_rejects_smaller_operand_with_dont_care() {
    let term = ProductTerm::new_with_literals(vec![
        ("A".to_string(), LiteralValue::True),
        ("B".to_string(), LiteralValue::False),
    ]);
    let other = ProductTerm::new_with_literals(vec![
        ("A".to_string(), LiteralValue::True),
        ("B".to_string(), LiteralValue::True),
        ("C".to_string(), LiteralValue::DontCare),
    ]);
    assert_eq!(term.merge(&other).unwrap_err(), MergeError::VariableSetMismatch);
}

#[test]
fn test_merge_empty_terms() {
    let term = ProductTerm::new();
    let other = ProductTerm::new();
    let merged = term.merge(&other).unwrap();
    assert!(merged.is_empty());
    assert_eq!(merged, ProductTerm::new());
}

#[test]
fn test_rendering() {
    let mut term = ProductTerm::new();
    term.add_literal(String::from("A"), LiteralValue::False);
    term.add_literal(String::from("B"), LiteralValue::True);
    assert_eq!(term.to_boolean_expression(), "~A&B");

    assert_eq!(ProductTerm::new().to_boolean_expression(), "");

    let mut dont_care_only = ProductTerm::new();
    dont_care_only.add_literal(String::from("A"), LiteralValue::DontCare);
    assert_eq!(dont_care_only.to_boolean_expression(), "");
}

#[test]
fn test_rendering_skips_inner_dont_care() {
    let term = ProductTerm::new_with_literals(vec![
        ("A".to_string(), LiteralValue::True),
        ("B".to_string(), LiteralValue::DontCare),
        ("C".to_string(), LiteralValue::False),
    ]);
    assert_eq!(term.to_boolean_expression(), "A&~C");
}

#[test]
fn test_add_literal_overwrites_without_reordering() {
    let mut term = ProductTerm::new();
    term.add_literal(String::from("A"), LiteralValue::DontCare);
    term.add_literal(String::from("B"), LiteralValue::True);
    term.add_literal(String::from("A"), LiteralValue::True);
    assert_eq!(term.to_boolean_expression(), "A&B");
}

#[test]
fn test_new_with_literals_later_duplicate_wins() {
    let term = ProductTerm::new_with_literals(vec![
        ("A".to_string(), LiteralValue::False),
        ("B".to_string(), LiteralValue::True),
        ("A".to_string(), LiteralValue::True),
    ]);
    let expected = ProductTerm::new_with_literals(vec![
        ("A".to_string(), LiteralValue::True),
        ("B".to_string(), LiteralValue::True),
    ]);
    assert_eq!(term, expected);
}

#[test]
fn test_remove_last_undoes_the_latest_append() {
    let mut term = ProductTerm::new();
    term.add_literal(String::from("A"), LiteralValue::False);
    term.add_literal(String::from("B"), LiteralValue::True);
    let removed = term.remove_last();
    assert!(matches!(removed, LiteralValue::True));
    assert_eq!(term.to_boolean_expression(), "~A");
    assert!(!term.is_empty());
    term.remove_last();
    assert!(term.is_empty());
}

#[test]
fn test_get_literals_snapshot() {
    let mut term = ProductTerm::new();
    term.add_literal(String::from("A"), LiteralValue::False);
    term.add_literal(String::from("B"), LiteralValue::DontCare);
    let literals = term.get_literals();
    assert_eq!(literals.len(), 2);
    assert_eq!(literals.get(&String::from("A")), Some(&LiteralValue::False));
    assert_eq!(literals.get(&String::from("B")), Some(&LiteralValue::DontCare));
    let in_order: Vec<String> = literals.keys().cloned().collect();
    assert_eq!(in_order, vec![String::from("A"), String::from("B")]);
}

#[test]
fn test_clone_is_equal_to_the_original() {
    let mut term = ProductTerm::new();
    term.add_literal(String::from("A"), LiteralValue::True);
    term.add_literal(String::from("B"), LiteralValue::False);
    let copy = term.clone();
    assert_eq!(copy, term);
    assert_eq!(copy.to_boolean_expression(), "A&~B");
}

#[test]
fn test_rotate_moves_first_variable_to_the_end() {
    let order = vec!["A".to_string(), "B".to_string(), "C".to_string()];
    let rotated = TernaryTreeMinimization::rotate(&order);
    assert_eq!(rotated, vec!["B".to_string(), "C".to_string(), "A".to_string()]);
}

#[test]
fn test_apply_with_single_variable_keeps_terms() {
    let mut set = Vec::new();
    set.push(ProductTerm::new_with_literals(vec![(
        "A".to_string(),
        LiteralValue::True,
    )]));
    let result = TernaryTreeMinimization::apply(&set, &vec!["A".to_string()]).unwrap();
    assert_eq!(result.len(), 1);
    assert!(set[0].matches_any(&result));
}

#[test]
fn test_apply_with_no_terms_yields_no_terms() {
    let set: Vec<ProductTerm> = Vec::new();
    let result =
        TernaryTreeMinimization::apply(&set, &vec!["A".to_string(), "B".to_string()]).unwrap();
    assert_eq!(result.len(), 0);
}

#[test]
fn test_apply_deduplicates_equal_inputs() {
    let mut set = Vec::new();
    set.push(ProductTerm::new_with_literals(vec![
        ("A".to_string(), LiteralValue::True),
        ("B".to_string(), LiteralValue::True),
    ]));
    set.push(ProductTerm::new_with_literals(vec![
        ("B".to_string(), LiteralValue::True),
        ("A".to_string(), LiteralValue::True),
    ]));
    let result = TernaryTreeMinimization::apply(&set, &vec!["A".to_string(), "B".to_string()])
        .unwrap();
    assert_eq!(result.len(), 1);
    assert!(set[0].matches_any(&result));
}

#[test]
fn test_ternary_node_holds_variable_and_term() {
    let mut node = TernaryNode::new();
    assert!(node.get_variable().is_none());
    assert!(node.get_term().is_none());

    node.set_variable(String::from("A"));
    assert_eq!(node.get_variable(), Some(&String::from("A")));

    let mut term = ProductTerm::new();
    term.add_literal(String::from("A"), LiteralValue::True);
    node.set_term(term.clone());
    assert_eq!(node.get_term().unwrap(), &term);

    let copy = TernaryNode::clone(&node);
    assert!(copy == node);

    let with_term = TernaryNode::new_with_term(term.clone());
    let with_all = TernaryNode::new_with_all(None, Some(term));
    assert!(with_term == with_all);
    assert!(!(with_term == node));
}
