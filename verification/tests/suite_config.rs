use swe_reviewer::suite::{
    category_of, get_test_categories, get_test_execution_order, get_test_ids_by_category,
    parse_strategy_from_args, ExecutionStrategy, TestCategory,
};

#[test]
fn test_category_mapping() {
    let categories = get_test_categories();

    for id in 1..=15 {
        assert!(
            category_of(&categories, id).is_some(),
            "Missing category for test ID {}",
            id
        );
    }

    assert_eq!(category_of(&categories, 3), Some(TestCategory::NoViolations));
    assert_eq!(category_of(&categories, 1), Some(TestCategory::F2PViolations));
    assert_eq!(category_of(&categories, 9), Some(TestCategory::SrcDiffViolations));
    assert_eq!(category_of(&categories, 13), Some(TestCategory::MultipleViolations));
}

#[test]
fn test_execution_order() {
    let order = get_test_execution_order();

    assert_eq!(order.len(), 15);

    let categories = get_test_categories();
    assert!(order[0..9]
        .iter()
        .all(|&id| { category_of(&categories, id) == Some(TestCategory::NoViolations) }));
}

#[test]
fn test_get_ids_by_category() {
    let no_violations = get_test_ids_by_category(TestCategory::NoViolations);
    assert!(!no_violations.is_empty());
    assert!(no_violations.contains(&3));

    let f2p_violations = get_test_ids_by_category(TestCategory::F2PViolations);
    assert!(f2p_violations.contains(&1));
}

#[test]
fn test_execution_strategy() {
    let all_strategy = ExecutionStrategy::All;
    let all_ids = all_strategy.get_test_ids();
    assert_eq!(all_ids.len(), 15);

    let category_strategy = ExecutionStrategy::ByCategory(TestCategory::NoViolations);
    let category_ids = category_strategy.get_test_ids();
    assert!(category_ids.len() > 0);
    assert!(category_ids.iter().all(|&id| id <= 15));

    let fail_fast = ExecutionStrategy::FailFast;
    assert!(fail_fast.should_fail_fast());

    let normal = ExecutionStrategy::All;
    assert!(!normal.should_fail_fast());
}

#[test]
fn strategy_parsing_from_arguments() {
    assert!(matches!(parse_strategy_from_args(&vec![]), ExecutionStrategy::All));
    assert!(matches!(
        parse_strategy_from_args(&vec!["--fail-fast".to_string()]),
        ExecutionStrategy::FailFast
    ));
    assert!(matches!(
        parse_strategy_from_args(&vec!["--no-violations".to_string()]),
        ExecutionStrategy::ByCategory(TestCategory::NoViolations)
    ));
    match parse_strategy_from_args(&vec!["3".to_string(), "14".to_string()]) {
        ExecutionStrategy::ByIds(ids) => assert_eq!(ids, vec![3, 14]),
        _ => panic!("expected an id list"),
    }
    assert!(matches!(
        parse_strategy_from_args(&vec!["not-a-number".to_string()]),
        ExecutionStrategy::All
    ));
}
