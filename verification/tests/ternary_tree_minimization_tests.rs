use tt_min::{LiteralValue, ProductTerm, TernaryTreeMinimization};

#[test]
fn test_minimization_01() {
  let mut set = Vec::new();
  set.push(ProductTerm::new_with_literals(vec![
    ("A".to_string(), LiteralValue::False),
    ("B".to_string(), LiteralValue::True),
  ]));
  set.push(ProductTerm::new_with_literals(vec![
    ("A".to_string(), LiteralValue::True),
    ("B".to_string(), LiteralValue::False),
  ]));
  set.push(ProductTerm::new_with_literals(vec![
    ("A".to_string(), LiteralValue::False),
    ("B".to_string(), LiteralValue::False),
  ]));

  let mut expected_result = Vec::new();
  expected_result.push(ProductTerm::new_with_literals(vec![
    ("A".to_string(), LiteralValue::False),
    ("B".to_string(), LiteralValue::DontCare),
  ]));
  expected_result.push(ProductTerm::new_with_literals(vec![
    ("A".to_string(), LiteralValue::True),
    ("B".to_string(), LiteralValue::False),
  ]));
  if let Ok(actual_result) =
    TernaryTreeMinimization::apply(&set, &mut vec!["A".to_string(), "B".to_string()])
  {
    println!("terms after mini: {:#?}", actual_result);
    for expected_term in &expected_result {
      assert!(expected_term.matches_any(&actual_result));
    }
    assert!(actual_result.len() == 2);
  } else {
    panic!();
  }
}

#[test]
fn test_minimization_02() {
  let mut set = Vec::new();
  set.push(ProductTerm::new_with_literals(vec![
    ("A".to_string(), LiteralValue::False),
    ("B".to_string(), LiteralValue::DontCare),
  ]));
  set.push(ProductTerm::new_with_literals(vec![
    ("A".to_string(), LiteralValue::True),
    ("B".to_string(), LiteralValue::False),
  ]));
  set.push(ProductTerm::new_with_literals(vec![
    ("A".to_string(), LiteralValue::False),
    ("B".to_string(), LiteralValue::False),
  ]));

  // A matching don't-care extension ends the work for its tree node, so
  // the subsumed concrete term {A:F, B:F} is dropped early and {A:T, B:F}
  // never finds a sibling to merge with.
  let mut expected_result = Vec::new();
  expected_result.push(ProductTerm::new_with_literals(vec![
    ("A".to_string(), LiteralValue::False),
    ("B".to_string(), LiteralValue::DontCare),
  ]));
  expected_result.push(ProductTerm::new_with_literals(vec![
    ("A".to_string(), LiteralValue::True),
    ("B".to_string(), LiteralValue::False),
  ]));
  if let Ok(actual_result) =
    TernaryTreeMinimization::apply(&set, &mut vec!["A".to_string(), "B".to_string()])
  {
    println!("terms after mini: {:#?}", actual_result);
    for expected_term in &expected_result {
      assert!(expected_term.matches_any(&actual_result));
    }
    assert!(actual_result.len() == 2);
  } else {
    panic!();
  }
}

#[test]
fn test_minimization_03() {
  let mut set = Vec::new();
  set.push(ProductTerm::new_with_literals(vec![
    ("A".to_string(), LiteralValue::False),
    ("B".to_string(), LiteralValue::True),
    ("C".to_string(), LiteralValue::True),
  ]));
  set.push(ProductTerm::new_with_literals(vec![
    ("A".to_string(), LiteralValue::True),
    ("B".to_string(), LiteralValue::False),
    ("C".to_string(), LiteralValue::True),
  ]));
  set.push(ProductTerm::new_with_literals(vec![
    ("A".to_string(), LiteralValue::True),
    ("B".to_string(), LiteralValue::False),
    ("C".to_string(), LiteralValue::False),
  ]));

  let mut expected_result = Vec::new();
  expected_result.push(ProductTerm::new_with_literals(vec![
    ("A".to_string(), LiteralValue::False),
    ("B".to_string(), LiteralValue::True),
    ("C".to_string(), LiteralValue::True),
  ]));
  expected_result.push(ProductTerm::new_with_literals(vec![
    ("A".to_string(), LiteralValue::True),
    ("B".to_string(), LiteralValue::False),
    ("C".to_string(), LiteralValue::DontCare),
  ]));
  if let Ok(actual_result) = TernaryTreeMinimization::apply(
    &set,
    &mut vec!["A".to_string(), "B".to_string(), "C".to_string()],
  ) {
    println!("terms after mini: {:#?}", actual_result);
    for expected_term in &expected_result {
      assert!(expected_term.matches_any(&actual_result));
    }
    assert!(actual_result.len() == 2);
  } else {
    panic!();
  }
}

#[test]
fn test_minimization_04() {
  let mut set = Vec::new();
  set.push(ProductTerm::new_with_literals(vec![
    ("A".to_string(), LiteralValue::False),
    ("B".to_string(), LiteralValue::False),
    ("C".to_string(), LiteralValue::True),
  ]));
  set.push(ProductTerm::new_with_literals(vec![
    ("A".to_string(), LiteralValue::False),
    ("B".to_string(), LiteralValue::True),
    ("C".to_string(), LiteralValue::False),
  ]));
  set.push(ProductTerm::new_with_literals(vec![
    ("A".to_string(), LiteralValue::False),
    ("B".to_string(), LiteralValue::True),
    ("C".to_string(), LiteralValue::True),
  ]));
  set.push(ProductTerm::new_with_literals(vec![
    ("A".to_string(), LiteralValue::True),
    ("B".to_string(), LiteralValue::False),
    ("C".to_string(), LiteralValue::False),
  ]));
  set.push(ProductTerm::new_with_literals(vec![
    ("A".to_string(), LiteralValue::True),
    ("B".to_string(), LiteralValue::False),
    ("C".to_string(), LiteralValue::True),
  ]));
  set.push(ProductTerm::new_with_literals(vec![
    ("A".to_string(), LiteralValue::True),
    ("B".to_string(), LiteralValue::True),
    ("C".to_string(), LiteralValue::True),
  ]));

  let mut expected_result = Vec::new();
  expected_result.push(ProductTerm::new_with_literals(vec![
    ("A".to_string(), LiteralValue::False),
    ("B".to_string(), LiteralValue::False),
    ("C".to_string(), LiteralValue::True),
  ]));
  expected_result.push(ProductTerm::new_with_literals(vec![
    ("A".to_string(), LiteralValue::False),
    ("B".to_string(), LiteralValue::True),
    ("C".to_string(), LiteralValue::DontCare),
  ]));
  expected_result.push(ProductTerm::new_with_literals(vec![
    ("A".to_string(), LiteralValue::True),
    ("B".to_string(), LiteralValue::False),
    ("C".to_string(), LiteralValue::DontCare),
  ]));
  expected_result.push(ProductTerm::new_with_literals(vec![
    ("A".to_string(), LiteralValue::True),
    ("B".to_string(), LiteralValue::True),
    ("C".to_string(), LiteralValue::True),
  ]));
  if let Ok(actual_result) = TernaryTreeMinimization::apply(
    &set,
    &mut vec!["A".to_string(), "B".to_string(), "C".to_string()],
  ) {
    println!("terms after mini: {:#?}", actual_result);
    for expected_term in &expected_result {
      assert!(expected_term.matches_any(&actual_result));
    }
    assert!(actual_result.len() == 4);
  } else {
    panic!();
  }
}

#[test]
fn test_minimization_05() {
  let mut set = Vec::new();
  set.push(ProductTerm::new_with_literals(vec![
    ("A".to_string(), LiteralValue::False),
    ("B".to_string(), LiteralValue::False),
    ("C".to_string(), LiteralValue::False),
    ("D".to_string(), LiteralValue::False),
  ]));
  set.push(ProductTerm::new_with_literals(vec![
    ("A".to_string(), LiteralValue::False),
    ("B".to_string(), LiteralValue::False),
    ("C".to_string(), LiteralValue::False),
    ("D".to_string(), LiteralValue::True),
  ]));
  set.push(ProductTerm::new_with_literals(vec![
    ("A".to_string(), LiteralValue::False),
    ("B".to_string(), LiteralValue::True),
    ("C".to_string(), LiteralValue::False),
    ("D".to_string(), LiteralValue::False),
  ]));
  set.push(ProductTerm::new_with_literals(vec![
    ("A".to_string(), LiteralValue::False),
    ("B".to_string(), LiteralValue::True),
    ("C".to_string(), LiteralValue::DontCare),
    ("D".to_string(), LiteralValue::False),
  ]));
  set.push(ProductTerm::new_with_literals(vec![
    ("A".to_string(), LiteralValue::True),
    ("B".to_string(), LiteralValue::False),
    ("C".to_string(), LiteralValue::True),
    ("D".to_string(), LiteralValue::True),
  ]));
  set.push(ProductTerm::new_with_literals(vec![
    ("A".to_string(), LiteralValue::True),
    ("B".to_string(), LiteralValue::True),
    ("C".to_string(), LiteralValue::True),
    ("D".to_string(), LiteralValue::True),
  ]));

  // A matching don't-care extension ends the work for its tree node, so
  // the concrete term subsumed by {A:F, B:T, C:*, D:F} is dropped.
  let mut expected_result = Vec::new();
  expected_result.push(ProductTerm::new_with_literals(vec![
    ("A".to_string(), LiteralValue::False),
    ("B".to_string(), LiteralValue::False),
    ("C".to_string(), LiteralValue::False),
    ("D".to_string(), LiteralValue::DontCare),
  ]));
  expected_result.push(ProductTerm::new_with_literals(vec![
    ("A".to_string(), LiteralValue::False),
    ("B".to_string(), LiteralValue::True),
    ("C".to_string(), LiteralValue::DontCare),
    ("D".to_string(), LiteralValue::False),
  ]));
  expected_result.push(ProductTerm::new_with_literals(vec![
    ("A".to_string(), LiteralValue::True),
    ("B".to_string(), LiteralValue::DontCare),
    ("C".to_string(), LiteralValue::True),
    ("D".to_string(), LiteralValue::True),
  ]));
  if let Ok(actual_result) = TernaryTreeMinimization::apply(
    &set,
    &mut vec![
      "A".to_string(),
      "B".to_string(),
      "C".to_string(),
      "D".to_string(),
    ],
  ) {
    println!("terms after mini: {:#?}", actual_result);
    for expected_term in &expected_result {
      assert!(expected_term.matches_any(&actual_result));
    }
    assert!(actual_result.len() == 3);
  } else {
    panic!();
  }
}

#[test]
fn test_minimization_06() {
  let mut set = Vec::new();
  set.push(ProductTerm::new_with_literals(vec![
    ("A".to_string(), LiteralValue::False),
    ("B".to_string(), LiteralValue::False),
    ("C".to_string(), LiteralValue::False),
    ("D".to_string(), LiteralValue::False),
    ("E".to_string(), LiteralValue::False),
  ]));
  set.push(ProductTerm::new_with_literals(vec![
    ("A".to_string(), LiteralValue::False),
    ("B".to_string(), LiteralValue::False),
    ("C".to_string(), LiteralValue::False),
    ("D".to_string(), LiteralValue::True),
    ("E".to_string(), LiteralValue::False),
  ]));
  set.push(ProductTerm::new_with_literals(vec![
    ("A".to_string(), LiteralValue::False),
    ("B".to_string(), LiteralValue::True),
    ("C".to_string(), LiteralValue::False),
    ("D".to_string(), LiteralValue::False),
    ("E".to_string(), LiteralValue::False),
  ]));
  set.push(ProductTerm::new_with_literals(vec![
    ("A".to_string(), LiteralValue::False),
    ("B".to_string(), LiteralValue::True),
    ("C".to_string(), LiteralValue::DontCare),
    ("D".to_string(), LiteralValue::False),
    ("E".to_string(), LiteralValue::False),
  ]));
  set.push(ProductTerm::new_with_literals(vec![
    ("A".to_string(), LiteralValue::True),
    ("B".to_string(), LiteralValue::False),
    ("C".to_string(), LiteralValue::True),
    ("D".to_string(), LiteralValue::True),
    ("E".to_string(), LiteralValue::False),
  ]));
  set.push(ProductTerm::new_with_literals(vec![
    ("A".to_string(), LiteralValue::True),
    ("B".to_string(), LiteralValue::True),
    ("C".to_string(), LiteralValue::True),
    ("D".to_string(), LiteralValue::True),
    ("E".to_string(), LiteralValue::False),
  ]));

  let mut expected_result = Vec::new();
  expected_result.push(ProductTerm::new_with_literals(vec![
    ("A".to_string(), LiteralValue::False),
    ("B".to_string(), LiteralValue::DontCare),
    ("C".to_string(), LiteralValue::False),
    ("D".to_string(), LiteralValue::False),
    ("E".to_string(), LiteralValue::False),
  ]));
  expected_result.push(ProductTerm::new_with_literals(vec![
    ("A".to_string(), LiteralValue::False),
    ("B".to_string(), LiteralValue::False),
    ("C".to_string(), LiteralValue::False),
    ("D".to_string(), LiteralValue::True),
    ("E".to_string(), LiteralValue::False),
  ]));
  expected_result.push(ProductTerm::new_with_literals(vec![
    ("A".to_string(), LiteralValue::False),
    ("B".to_string(), LiteralValue::True),
    ("C".to_string(), LiteralValue::DontCare),
    ("D".to_string(), LiteralValue::False),
    ("E".to_string(), LiteralValue::False),
  ]));
  expected_result.push(ProductTerm::new_with_literals(vec![
    ("A".to_string(), LiteralValue::True),
    ("B".to_string(), LiteralValue::DontCare),
    ("C".to_string(), LiteralValue::True),
    ("D".to_string(), LiteralValue::True),
    ("E".to_string(), LiteralValue::False),
  ]));
  if let Ok(actual_result) = TernaryTreeMinimization::apply(
    &set,
    &mut vec![
      "A".to_string(),
      "B".to_string(),
      "C".to_string(),
      "D".to_string(),
      "E".to_string(),
    ],
  ) {
    println!("terms after mini: {:#?}", actual_result);
    for expected_term in &expected_result {
      assert!(expected_term.matches_any(&actual_result));
    }
    assert!(actual_result.len() == 4);
  } else {
    panic!();
  }
}

#[test]
fn test_minimization_07() {
  let mut set = Vec::new();
  set.push(ProductTerm::new_with_literals(vec![
    ("A".to_string(), LiteralValue::False),
    ("B".to_string(), LiteralValue::False),
    ("C".to_string(), LiteralValue::False),
  ]));
  set.push(ProductTerm::new_with_literals(vec![
    ("A".to_string(), LiteralValue::False),
    ("B".to_string(), LiteralValue::True),
    ("C".to_string(), LiteralValue::False),
  ]));
  set.push(ProductTerm::new_with_literals(vec![
    ("A".to_string(), LiteralValue::False),
    ("B".to_string(), LiteralValue::True),
    ("C".to_string(), LiteralValue::True),
  ]));
  set.push(ProductTerm::new_with_literals(vec![
    ("A".to_string(), LiteralValue::True),
    ("B".to_string(), LiteralValue::True),
    ("C".to_string(), LiteralValue::True),
  ]));

  let mut expected_result = Vec::new();
  expected_result.push(ProductTerm::new_with_literals(vec![
    ("A".to_string(), LiteralValue::False),
    ("B".to_string(), LiteralValue::False),
    ("C".to_string(), LiteralValue::False),
  ]));
  expected_result.push(ProductTerm::new_with_literals(vec![
    ("A".to_string(), LiteralValue::False),
    ("B".to_string(), LiteralValue::True),
    ("C".to_string(), LiteralValue::DontCare),
  ]));
  expected_result.push(ProductTerm::new_with_literals(vec![
    ("A".to_string(), LiteralValue::True),
    ("B".to_string(), LiteralValue::True),
    ("C".to_string(), LiteralValue::True),
  ]));
  if let Ok(actual_result) = TernaryTreeMinimization::apply(
    &set,
    &mut vec!["A".to_string(), "B".to_string(), "C".to_string()],
  ) {
    println!("terms after mini: {:#?}", actual_result);
    for expected_term in &expected_result {
      assert!(expected_term.matches_any(&actual_result));
    }
    assert!(actual_result.len() == 3);
  } else {
    panic!();
  }
}

#[test]
fn test_minimization_08() {
  let mut set = Vec::new();
  set.push(ProductTerm::new_with_literals(vec![
    ("A".to_string(), LiteralValue::False),
    ("B".to_string(), LiteralValue::False),
    ("C".to_string(), LiteralValue::False),
  ]));
  set.push(ProductTerm::new_with_literals(vec![
    ("A".to_string(), LiteralValue::False),
    ("B".to_string(), LiteralValue::True),
    ("C".to_string(), LiteralValue::False),
  ]));
  set.push(ProductTerm::new_with_literals(vec![
    ("A".to_string(), LiteralValue::False),
    ("B".to_string(), LiteralValue::True),
    ("C".to_string(), LiteralValue::True),
  ]));
  set.push(ProductTerm::new_with_literals(vec![
    ("A".to_string(), LiteralValue::True),
    ("B".to_string(), LiteralValue::False),
    ("C".to_string(), LiteralValue::False),
  ]));

  let mut expected_result = Vec::new();
  expected_result.push(ProductTerm::new_with_literals(vec![
    ("A".to_string(), LiteralValue::False),
    ("B".to_string(), LiteralValue::True),
    ("C".to_string(), LiteralValue::DontCare),
  ]));
  expected_result.push(ProductTerm::new_with_literals(vec![
    ("A".to_string(), LiteralValue::DontCare),
    ("B".to_string(), LiteralValue::False),
    ("C".to_string(), LiteralValue::False),
  ]));
  if let Ok(actual_result) = TernaryTreeMinimization::apply(
    &set,
    &mut vec!["A".to_string(), "B".to_string(), "C".to_string()],
  ) {
    println!("terms after mini: {:#?}", actual_result);
    for expected_term in &expected_result {
      assert!(expected_term.matches_any(&actual_result));
    }
    assert!(actual_result.len() == 2);
  } else {
    panic!();
  }
}

#[test]
fn test_minimization_09() {
  let mut set = Vec::new();
  set.push(ProductTerm::new_with_literals(vec![
    ("A".to_string(), LiteralValue::True),
    ("B".to_string(), LiteralValue::True),
    ("C".to_string(), LiteralValue::True),
    ("D".to_string(), LiteralValue::True),
  ]));
  set.push(ProductTerm::new_with_literals(vec![
    ("A".to_string(), LiteralValue::False),
    ("B".to_string(), LiteralValue::True),
    ("C".to_string(), LiteralValue::True),
    ("D".to_string(), LiteralValue::True),
  ]));

  let mut expected_result = Vec::new();
  expected_result.push(ProductTerm::new_with_literals(vec![
    ("A".to_string(), LiteralValue::DontCare),
    ("B".to_string(), LiteralValue::True),
    ("C".to_string(), LiteralValue::True),
    ("D".to_string(), LiteralValue::True),
  ]));
  if let Ok(actual_result) = TernaryTreeMinimization::apply(
    &set,
    &mut vec![
      "A".to_string(),
      "B".to_string(),
      "C".to_string(),
      "D".to_string(),
    ],
  ) {
    println!("terms after mini: {:#?}", actual_result);
    for expected_term in &expected_result {
      assert!(expected_term.matches_any(&actual_result));
    }
    assert!(actual_result.len() == 1);
  } else {
    panic!();
  }
}

#[test]
fn test_minimization_10() {
  let mut set = Vec::new();
  set.push(ProductTerm::new_with_literals(vec![
    ("A".to_string(), LiteralValue::True),
    ("B".to_string(), LiteralValue::False),
    ("C".to_string(), LiteralValue::True),
    ("D".to_string(), LiteralValue::True),
  ]));
  set.push(ProductTerm::new_with_literals(vec![
    ("A".to_string(), LiteralValue::True),
    ("B".to_string(), LiteralValue::False),
    ("C".to_string(), LiteralValue::True),
    ("D".to_string(), LiteralValue::False),
  ]));
  set.push(ProductTerm::new_with_literals(vec![
    ("A".to_string(), LiteralValue::True),
    ("B".to_string(), LiteralValue::True),
    ("C".to_string(), LiteralValue::True),
    ("D".to_string(), LiteralValue::DontCare),
  ]));

  let mut expected_result = Vec::new();
  expected_result.push(ProductTerm::new_with_literals(vec![
    ("A".to_string(), LiteralValue::True),
    ("B".to_string(), LiteralValue::DontCare),
    ("C".to_string(), LiteralValue::True),
    ("D".to_string(), LiteralValue::DontCare),
  ]));

  if let Ok(actual_result) = TernaryTreeMinimization::apply(
    &set,
    &mut vec![
      "A".to_string(),
      "B".to_string(),
      "C".to_string(),
      "D".to_string(),
    ],
  ) {
    println!("terms after mini: {:#?}", actual_result);
    for expected_term in &expected_result {
      assert!(expected_term.matches_any(&actual_result));
    }
    assert!(actual_result.len() == 1);
  } else {
    panic!();
  }
}

#[test]
fn test_minimization_11() {
  let mut set = Vec::new();
  set.push(ProductTerm::new_with_literals(vec![
    ("A".to_string(), LiteralValue::True),
    ("B".to_string(), LiteralValue::False),
    ("C".to_string(), LiteralValue::True),
    ("D".to_string(), LiteralValue::True),
  ]));
  set.push(ProductTerm::new_with_literals(vec![
    ("A".to_string(), LiteralValue::True),
    ("B".to_string(), LiteralValue::False),
    ("C".to_string(), LiteralValue::True),
    ("D".to_string(), LiteralValue::False),
  ]));
  set.push(ProductTerm::new_with_literals(vec![
    ("A".to_string(), LiteralValue::True),
    ("B".to_string(), LiteralValue::True),
    ("C".to_string(), LiteralValue::True),
    ("D".to_string(), LiteralValue::DontCare),
  ]));
  set.push(ProductTerm::new_with_literals(vec![
    ("A".to_string(), LiteralValue::False),
    ("B".to_string(), LiteralValue::DontCare),
    ("C".to_string(), LiteralValue::True),
    ("D".to_string(), LiteralValue::DontCare),
  ]));

  let mut expected_result = Vec::new();
  expected_result.push(ProductTerm::new_with_literals(vec![
    ("A".to_string(), LiteralValue::True),
    ("B".to_string(), LiteralValue::DontCare),
    ("C".to_string(), LiteralValue::True),
    ("D".to_string(), LiteralValue::DontCare),
  ]));
  expected_result.push(ProductTerm::new_with_literals(vec![
    ("A".to_string(), LiteralValue::False),
    ("B".to_string(), LiteralValue::DontCare),
    ("C".to_string(), LiteralValue::True),
    ("D".to_string(), LiteralValue::DontCare),
  ]));

  if let Ok(actual_result) = TernaryTreeMinimization::apply(
    &set,
    &mut vec![
      "A".to_string(),
      "B".to_string(),
      "C".to_string(),
      "D".to_string(),
    ],
  ) {
    println!("terms after mini: {:#?}", actual_result);
    for expected_term in &expected_result {
      assert!(expected_term.matches_any(&actual_result)); // Tree does not rotate enough to minimize the last 2 terms.
    }
    assert!(actual_result.len() == 2);
  } else {
    panic!();
  }
}
