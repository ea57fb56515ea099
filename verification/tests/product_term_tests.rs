use tt_min::{LiteralValue, ProductTerm};

#[test]
fn test_merge_01() {
  let mut term = ProductTerm::new();
  term.add_literal(String::from("A"), LiteralValue::False);
  term.add_literal(String::from("B"), LiteralValue::True);
  term.add_literal(String::from("C"), LiteralValue::DontCare);

  let mut other = ProductTerm::new();
  other.add_literal(String::from("A"), LiteralValue::True);
  other.add_literal(String::from("B"), LiteralValue::True);
  other.add_literal(String::from("C"), LiteralValue::DontCare);

  let mut expected_result = ProductTerm::new();
  expected_result.add_literal(String::from("B"), LiteralValue::True);
  expected_result.add_literal(String::from("A"), LiteralValue::DontCare);
  expected_result.add_literal(String::from("C"), LiteralValue::DontCare);

  assert_eq!(term.merge(&other).unwrap(), expected_result);
}

#[test]
fn test_merge_02() {
  let mut term = ProductTerm::new();
  term.add_literal(String::from("A"), LiteralValue::True);
  term.add_literal(String::from("B"), LiteralValue::False);
  term.add_literal(String::from("C"), LiteralValue::DontCare);

  let mut other = ProductTerm::new();
  other.add_literal(String::from("A"), LiteralValue::True);
  other.add_literal(String::from("B"), LiteralValue::True);
  other.add_literal(String::from("C"), LiteralValue::DontCare);

  let mut expected_result = ProductTerm::new();
  expected_result.add_literal(String::from("B"), LiteralValue::DontCare);
  expected_result.add_literal(String::from("A"), LiteralValue::True);
  expected_result.add_literal(String::from("C"), LiteralValue::DontCare);

  assert_eq!(term.merge(&other).unwrap(), expected_result);
}

#[test]
fn test_merge_03_fail() {
  let mut term = ProductTerm::new();
  term.add_literal(String::from("A"), LiteralValue::True);
  term.add_literal(String::from("B"), LiteralValue::False);

  let mut other = ProductTerm::new();
  other.add_literal(String::from("A"), LiteralValue::True);
  other.add_literal(String::from("B"), LiteralValue::True);
  other.add_literal(String::from("C"), LiteralValue::DontCare);

  match term.merge(&other) {
    Ok(_) => assert!(false),
    Err(_) => assert!(true),
  }
}

#[test]
fn test_merge_04_fail() {
  let mut term = ProductTerm::new();
  term.add_literal(String::from("A"), LiteralValue::False);
  term.add_literal(String::from("B"), LiteralValue::False);
  term.add_literal(String::from("C"), LiteralValue::DontCare);

  let mut other = ProductTerm::new();
  other.add_literal(String::from("A"), LiteralValue::True);
  other.add_literal(String::from("B"), LiteralValue::True);
  other.add_literal(String::from("C"), LiteralValue::DontCare);

  match term.merge(&other) {
    Ok(_) => assert!(false),
    Err(_) => assert!(true),
  }
}

#[test]
fn test_merge_05() {
  let mut term = ProductTerm::new();
  term.add_literal(String::from("A"), LiteralValue::False);
  term.add_literal(String::from("B"), LiteralValue::DontCare);
  term.add_literal(String::from("C"), LiteralValue::DontCare);

  let mut other = ProductTerm::new();
  other.add_literal(String::from("A"), LiteralValue::True);
  other.add_literal(String::from("B"), LiteralValue::DontCare);
  other.add_literal(String::from("C"), LiteralValue::DontCare);

  let mut expected_result = ProductTerm::new();
  expected_result.add_literal(String::from("B"), LiteralValue::DontCare);
  expected_result.add_literal(String::from("A"), LiteralValue::DontCare);
  expected_result.add_literal(String::from("C"), LiteralValue::DontCare);

  assert_eq!(term.merge(&other).unwrap(), expected_result);
}

#[test]
fn test_merge_06_fail() {
  let mut term = ProductTerm::new();
  term.add_literal(String::from("A"), LiteralValue::DontCare);
  term.add_literal(String::from("B"), LiteralValue::False);
  term.add_literal(String::from("C"), LiteralValue::DontCare);

  let mut other = ProductTerm::new();
  other.add_literal(String::from("A"), LiteralValue::True);
  other.add_literal(String::from("B"), LiteralValue::DontCare);
  other.add_literal(String::from("C"), LiteralValue::DontCare);

  match term.merge(&other) {
    Ok(_) => assert!(false),
    Err(_) => assert!(true),
  }
}

#[test]
fn test_merge_07_fail() {
  let mut term = ProductTerm::new();
  term.add_literal(String::from("A"), LiteralValue::DontCare);
  term.add_literal(String::from("B"), LiteralValue::False);
  term.add_literal(String::from("C"), LiteralValue::DontCare);

  let mut other = ProductTerm::new();
  other.add_literal(String::from("A"), LiteralValue::True);
  other.add_literal(String::from("B"), LiteralValue::DontCare);

  match term.merge(&other) {
    Ok(_) => assert!(false),
    Err(_) => assert!(true),
  }
}

#[test]
fn test_merge_08() {
  let mut term = ProductTerm::new();
  term.add_literal(String::from("A"), LiteralValue::False);
  term.add_literal(String::from("B"), LiteralValue::True);

  let mut other = ProductTerm::new();
  other.add_literal(String::from("A"), LiteralValue::False);
  other.add_literal(String::from("B"), LiteralValue::False);

  let mut expected_result = ProductTerm::new();
  expected_result.add_literal(String::from("A"), LiteralValue::False);
  expected_result.add_literal(String::from("B"), LiteralValue::DontCare);

  assert_eq!(term.merge(&other).unwrap(), expected_result);
}

#[test]
fn test_merge_09_fail() {
  let mut term = ProductTerm::new();
  term.add_literal(String::from("A"), LiteralValue::False);
  term.add_literal(String::from("B"), LiteralValue::DontCare);

  let mut other = ProductTerm::new();
  other.add_literal(String::from("A"), LiteralValue::False);
  other.add_literal(String::from("B"), LiteralValue::False);

  match term.merge(&other) {
    Ok(_) => assert!(false),
    Err(_) => assert!(true),
  }
}

#[test]
fn test_merge_10_fail() {
  let mut term = ProductTerm::new();
  term.add_literal(String::from("A"), LiteralValue::False);
  term.add_literal(String::from("B"), LiteralValue::False);
  term.add_literal(String::from("C"), LiteralValue::False);
  term.add_literal(String::from("D"), LiteralValue::DontCare);

  let mut other = ProductTerm::new();
  other.add_literal(String::from("A"), LiteralValue::False);
  other.add_literal(String::from("B"), LiteralValue::True);
  other.add_literal(String::from("C"), LiteralValue::False);
  other.add_literal(String::from("D"), LiteralValue::False);

  match term.merge(&other) {
    Ok(_) => assert!(false),
    Err(_) => assert!(true),
  }
}

#[test]
fn test_merge_11_fail() {
  let mut term = ProductTerm::new();
  term.add_literal(String::from("A"), LiteralValue::False);
  term.add_literal(String::from("B"), LiteralValue::False);
  term.add_literal(String::from("C"), LiteralValue::False);
  term.add_literal(String::from("D"), LiteralValue::DontCare);

  let mut other = ProductTerm::new();
  other.add_literal(String::from("A"), LiteralValue::False);
  other.add_literal(String::from("B"), LiteralValue::True);
  other.add_literal(String::from("C"), LiteralValue::DontCare);
  other.add_literal(String::from("D"), LiteralValue::False);

  match term.merge(&other) {
    Ok(_) => assert!(false),
    Err(_) => assert!(true),
  }
}

#[test]
fn test_equals_01() {
  let mut term = ProductTerm::new();
  term.add_literal(String::from("A"), LiteralValue::False);
  term.add_literal(String::from("B"), LiteralValue::True);
  term.add_literal(String::from("C"), LiteralValue::DontCare);

  let mut other = ProductTerm::new();
  other.add_literal(String::from("A"), LiteralValue::False);
  other.add_literal(String::from("B"), LiteralValue::True);
  other.add_literal(String::from("C"), LiteralValue::DontCare);

  assert_eq!(term, other);
}

#[test]
fn test_equals_02() {
  let mut term = ProductTerm::new();
  term.add_literal(String::from("A"), LiteralValue::False);
  term.add_literal(String::from("B"), LiteralValue::True);
  term.add_literal(String::from("C"), LiteralValue::DontCare);

  let mut other = ProductTerm::new();
  other.add_literal(String::from("A"), LiteralValue::True);
  other.add_literal(String::from("B"), LiteralValue::True);
  other.add_literal(String::from("C"), LiteralValue::DontCare);

  assert_ne!(term, other);
}

#[test]
fn test_equals_03() {
  let mut term = ProductTerm::new();
  term.add_literal(String::from("A"), LiteralValue::DontCare);
  term.add_literal(String::from("B"), LiteralValue::True);
  term.add_literal(String::from("C"), LiteralValue::DontCare);

  let mut other = ProductTerm::new();
  other.add_literal(String::from("A"), LiteralValue::True);
  other.add_literal(String::from("B"), LiteralValue::False);
  other.add_literal(String::from("C"), LiteralValue::DontCare);

  assert_ne!(term, other);
}

#[test]
fn test_equals_04() {
  let mut term = ProductTerm::new();
  term.add_literal(String::from("A"), LiteralValue::DontCare);
  term.add_literal(String::from("B"), LiteralValue::True);
  term.add_literal(String::from("C"), LiteralValue::DontCare);

  let mut other = ProductTerm::new();
  other.add_literal(String::from("A"), LiteralValue::True);
  other.add_literal(String::from("B"), LiteralValue::False);

  assert_ne!(term, other);
}

#[test]
fn test_equals_05() {
  let mut term = ProductTerm::new();
  term.add_literal(String::from("A"), LiteralValue::True);

  let mut other = ProductTerm::new();
  other.add_literal(String::from("A"), LiteralValue::True);

  assert_eq!(term, other);
}

#[test]
fn test_equals_06() {
  let term = ProductTerm::new();
  let other = ProductTerm::new();

  assert_eq!(term, other);
}

#[test]
fn test_is_prefix_of_01() {
  let mut term = ProductTerm::new();
  term.add_literal(String::from("A"), LiteralValue::True);

  let mut product_term = ProductTerm::new();
  product_term.add_literal(String::from("A"), LiteralValue::True);
  product_term.add_literal(String::from("B"), LiteralValue::DontCare);

  assert!(term.is_prefix_of(&product_term));
}

#[test]
fn test_is_prefix_of_02() {
  let mut term = ProductTerm::new();
  term.add_literal(String::from("A"), LiteralValue::True);
  term.add_literal(String::from("B"), LiteralValue::DontCare);

  let mut product_term = ProductTerm::new();
  product_term.add_literal(String::from("A"), LiteralValue::True);
  product_term.add_literal(String::from("B"), LiteralValue::DontCare);

  assert!(term.is_prefix_of(&product_term));
}

#[test]
fn test_is_prefix_of_03() {
  let mut term = ProductTerm::new();
  term.add_literal(String::from("A"), LiteralValue::True);

  let mut product_term = ProductTerm::new();
  product_term.add_literal(String::from("A"), LiteralValue::True);

  assert!(term.is_prefix_of(&product_term));
}

#[test]
fn test_is_prefix_of_04() {
  let mut term = ProductTerm::new();
  term.add_literal(String::from("A"), LiteralValue::True);

  let mut product_term = ProductTerm::new();
  product_term.add_literal(String::from("A"), LiteralValue::False);

  assert!(!term.is_prefix_of(&product_term));
}

#[test]
fn test_is_prefix_of_05() {
  let mut term = ProductTerm::new();
  term.add_literal(String::from("A"), LiteralValue::False);

  let mut product_term = ProductTerm::new();
  product_term.add_literal(String::from("A"), LiteralValue::True);
  product_term.add_literal(String::from("B"), LiteralValue::False);

  assert!(!term.is_prefix_of(&product_term));
}

#[test]
fn test_is_prefix_of_06() {
  let mut term = ProductTerm::new();
  term.add_literal(String::from("A"), LiteralValue::True);
  term.add_literal(String::from("B"), LiteralValue::True);

  let mut product_term = ProductTerm::new();
  product_term.add_literal(String::from("A"), LiteralValue::True);
  product_term.add_literal(String::from("B"), LiteralValue::False);

  assert!(!term.is_prefix_of(&product_term));
}

#[test]
fn test_is_prefix_of_any_01() {
  let mut term = ProductTerm::new();
  term.add_literal(String::from("A"), LiteralValue::True);

  let mut product_term = ProductTerm::new();
  product_term.add_literal(String::from("A"), LiteralValue::True);
  product_term.add_literal(String::from("B"), LiteralValue::False);

  let mut other_term = ProductTerm::new();
  other_term.add_literal(String::from("A"), LiteralValue::False);
  other_term.add_literal(String::from("B"), LiteralValue::True);

  let mut set = Vec::new();
  set.push(product_term);
  set.push(other_term);

  assert!(term.is_prefix_of_any(&set));
}

#[test]
fn test_is_prefix_of_any_02() {
  let mut term = ProductTerm::new();
  term.add_literal(String::from("A"), LiteralValue::True);

  let mut product_term = ProductTerm::new();
  product_term.add_literal(String::from("A"), LiteralValue::False);
  product_term.add_literal(String::from("B"), LiteralValue::True);

  let mut other_term = ProductTerm::new();
  other_term.add_literal(String::from("A"), LiteralValue::True);
  other_term.add_literal(String::from("B"), LiteralValue::True);

  let mut set = Vec::new();
  set.push(product_term);
  set.push(other_term);

  assert!(term.is_prefix_of_any(&set));
}

#[test]
fn test_is_prefix_of_any_03() {
  let mut term = ProductTerm::new();
  term.add_literal(String::from("B"), LiteralValue::DontCare);

  let mut product_term = ProductTerm::new();
  product_term.add_literal(String::from("A"), LiteralValue::False);
  product_term.add_literal(String::from("B"), LiteralValue::True);

  let mut other_term = ProductTerm::new();
  other_term.add_literal(String::from("A"), LiteralValue::False);
  other_term.add_literal(String::from("B"), LiteralValue::False);

  let third_term = ProductTerm::new_with_literals(vec![
    ("A".to_string(), LiteralValue::True),
    ("B".to_string(), LiteralValue::False),
  ]);
  let mut set = Vec::new();
  set.push(product_term);
  set.push(other_term);
  set.push(third_term);

  assert!(!term.is_prefix_of_any(&set));
}

#[test]
fn test_is_prefix_of_any_04() {
  let mut term = ProductTerm::new();
  term.add_literal(String::from("A"), LiteralValue::False);
  term.add_literal(String::from("B"), LiteralValue::DontCare);

  let mut product_term = ProductTerm::new();
  product_term.add_literal(String::from("A"), LiteralValue::False);
  product_term.add_literal(String::from("B"), LiteralValue::True);

  let mut other_term = ProductTerm::new();
  other_term.add_literal(String::from("A"), LiteralValue::False);
  other_term.add_literal(String::from("B"), LiteralValue::False);

  let third_term = ProductTerm::new_with_literals(vec![
    ("A".to_string(), LiteralValue::True),
    ("B".to_string(), LiteralValue::False),
  ]);
  let mut set = Vec::new();
  set.push(product_term);
  set.push(other_term);
  set.push(third_term);

  assert!(!term.is_prefix_of_any(&set));
}
