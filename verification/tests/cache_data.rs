use beltmatic::full::CacheData;
use beltmatic::Operation;

fn listed(data: &CacheData) -> Vec<String> {
    data.operations.iter().map(|op| format!("{:?}", op)).collect()
}

#[test]
fn first_record_holds_one_operation() {
    let data = CacheData::first(Operation::Addition(1, 2), 3);
    assert_eq!(data.complexity, 3);
    assert_eq!(listed(&data), vec!["Addition(1, 2)".to_string()]);
}

#[test]
fn absorb_at_the_same_level_adds_the_operation() {
    let mut data = CacheData::first(Operation::Addition(1, 2), 3);
    data.absorb(Operation::Addition(2, 1), 3);
    data.absorb(Operation::Addition(2, 1), 3);
    assert_eq!(data.complexity, 3);
    assert_eq!(
        listed(&data),
        vec![
            "Addition(1, 2)".to_string(),
            "Addition(2, 1)".to_string(),
            "Addition(2, 1)".to_string()
        ]
    );
}

#[test]
fn absorb_at_a_lower_level_replaces_the_record() {
    let mut data = CacheData::first(Operation::Addition(1, 2), 3);
    data.absorb(Operation::Multiplication(3, 1), 3);
    data.absorb(Operation::Subtraction(5, 2), 2);
    assert_eq!(data.complexity, 2);
    assert_eq!(listed(&data), vec!["Subtraction(5, 2)".to_string()]);
}

#[test]
fn absorb_at_a_higher_level_changes_nothing() {
    let mut data = CacheData::first(Operation::Addition(1, 2), 3);
    data.absorb(Operation::Exponentiation(3, 1), 4);
    assert_eq!(data.complexity, 3);
    assert_eq!(listed(&data), vec!["Addition(1, 2)".to_string()]);
}

#[test]
fn recorded_level_never_goes_up() {
    let mut data = CacheData::first(Operation::Identity(9), 5);
    let mut lowest = data.complexity;
    for level in [7u64, 5, 6, 3, 9, 3, 4, 0, 2, 0] {
        data.absorb(Operation::Addition(4, 5), level);
        assert!(data.complexity <= lowest);
        assert_eq!(data.complexity, lowest.min(level));
        lowest = data.complexity;
    }
    assert_eq!(data.complexity, 0);
    assert_eq!(data.operations.len(), 2);
}
