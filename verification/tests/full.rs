use beltmatic::FullSolver;

fn evaluate(text: &str) -> Option<u32> {
    if !text.starts_with('(') {
        return text.parse().ok();
    }
    let inner = &text[1..text.len() - 1];
    let (rest, right) = inner.rsplit_once(' ')?;
    let (left, symbol) = rest.rsplit_once(' ')?;
    let a = evaluate(left)?;
    let b: u32 = right.parse().ok()?;
    match symbol {
        "+" => a.checked_add(b),
        "*" => a.checked_mul(b),
        "-" => a.checked_sub(b),
        "^" => a.checked_pow(b),
        _ => None,
    }
}

fn operators(text: &str) -> usize {
    text.chars().filter(|c| *c == '(').count()
}

fn right_operands(text: &str) -> Vec<u32> {
    let mut found = Vec::new();
    let mut rest = text;
    while rest.starts_with('(') {
        let inner = &rest[1..rest.len() - 1];
        let (before, right) = inner.rsplit_once(' ').unwrap();
        let (left, _) = before.rsplit_once(' ').unwrap();
        found.push(right.parse().unwrap());
        rest = left;
    }
    found
}

#[test]
fn exhaustive_scenario_one_plus_two() {
    let mut solver = FullSolver::new(vec![1, 2]);
    let found = solver.solve(3);
    assert_eq!(found, vec!["(1 + 2)".to_string(), "(2 + 1)".to_string()]);
    assert!(found.iter().all(|text| operators(text) == 1));
}

#[test]
fn exhaustive_scenario_four_from_one_and_two() {
    let mut solver = FullSolver::new(vec![1, 2]);
    let found = solver.solve(4);
    assert_eq!(
        found,
        vec!["(2 + 2)".to_string(), "(2 * 2)".to_string(), "(2 ^ 2)".to_string()]
    );
    assert!(found.contains(&"(2 * 2)".to_string()));
    let count = operators(&found[0]);
    assert!(found.iter().all(|text| operators(text) == count));
    assert!(found.iter().all(|text| evaluate(text) == Some(4)));
}

#[test]
fn exhaustive_two_levels() {
    let mut solver = FullSolver::new(vec![1, 2]);
    let found = solver.solve(6);
    assert_eq!(
        found,
        vec![
            "((1 + 2) * 2)".to_string(),
            "((2 + 1) * 2)".to_string(),
            "((2 + 2) + 2)".to_string(),
            "((2 * 2) + 2)".to_string(),
            "((2 ^ 2) + 2)".to_string(),
        ]
    );
}

#[test]
fn exhaustive_base_value_is_its_own_answer() {
    let mut solver = FullSolver::new(vec![1, 2]);
    assert_eq!(solver.solve(2), vec!["2".to_string()]);
}

#[test]
fn exhaustive_answers_evaluate_to_target_with_equal_counts() {
    let base = vec![1, 2, 3, 4, 5, 6, 7, 8, 9];
    for target in [10u32, 100, 123, 1000, 4096] {
        let mut solver = FullSolver::new(base.clone());
        let found = solver.solve(target);
        assert!(!found.is_empty());
        let count = operators(&found[0]);
        for text in &found {
            assert_eq!(evaluate(text), Some(target));
            assert_eq!(operators(text), count);
            assert!(right_operands(text).iter().all(|b| base.contains(b)));
        }
    }
}

#[test]
fn exhaustive_finds_no_shorter_answer_than_the_fast_solver() {
    let base = vec![3, 7];
    for target in [10u32, 21, 52, 343, 100] {
        let mut full = FullSolver::new(base.clone());
        let mut fast = beltmatic::FastSolver::new(base.clone());
        let found = full.solve_within(target, 6);
        let quick = fast.solve_within(target, 6);
        assert_eq!(found.is_empty(), quick.is_none());
        if let Some(text) = quick {
            assert!(operators(&found[0]) <= operators(&text));
        }
    }
}

#[test]
fn exhaustive_repeated_base_values_repeat_answers() {
    let mut solver = FullSolver::new(vec![1, 1]);
    let found = solver.solve(2);
    assert_eq!(found, vec!["(1 + 1)".to_string(); 4]);
}

#[test]
fn exhaustive_unreachable_target_within_limit() {
    let mut solver = FullSolver::new(vec![2]);
    assert_eq!(solver.solve_within(7, 5), Vec::<String>::new());
}

#[test]
fn exhaustive_limit_counts_operators() {
    let mut solver = FullSolver::new(vec![1]);
    assert_eq!(solver.solve_within(3, 1), Vec::<String>::new());
    let mut solver = FullSolver::new(vec![1]);
    assert_eq!(solver.solve_within(3, 2), vec!["((1 + 1) + 1)".to_string()]);
    let mut solver = FullSolver::new(vec![1]);
    assert_eq!(solver.solve_within(1, 0), vec!["1".to_string()]);
}

#[test]
fn exhaustive_detects_saturation() {
    let mut solver = FullSolver::new(vec![0]);
    assert_eq!(solver.solve(5), Vec::<String>::new());
    assert_eq!(solver.solve(1), vec!["(0 ^ 0)".to_string()]);
}

#[test]
fn exhaustive_empty_base_reaches_nothing() {
    let mut solver = FullSolver::new(vec![]);
    assert_eq!(solver.solve(0), Vec::<String>::new());
}

#[test]
fn exhaustive_skips_overflowing_operations() {
    let mut solver = FullSolver::new(vec![4294967295]);
    assert_eq!(
        solver.solve(0),
        vec!["(4294967295 - 4294967295)".to_string()]
    );
    assert_eq!(solver.solve(1), Vec::<String>::new());
}

#[test]
fn exhaustive_solver_can_be_asked_again() {
    let mut solver = FullSolver::new(vec![1, 2]);
    assert_eq!(solver.solve(6).len(), 5);
    assert_eq!(solver.solve(3), vec!["(1 + 2)".to_string(), "(2 + 1)".to_string()]);
    assert_eq!(solver.solve_within(1000, 0), Vec::<String>::new());
    assert_eq!(solver.solve(2), vec!["2".to_string()]);
}

fn all_expressions(base: &[u32], operators: usize) -> Vec<(u32, String)> {
    let mut level: Vec<(u32, String)> = base.iter().map(|v| (*v, v.to_string())).collect();
    for _ in 0..operators {
        let mut next = Vec::new();
        for (a, text) in &level {
            for b in base {
                let tried = [
                    (a.checked_add(*b), '+'),
                    (a.checked_mul(*b), '*'),
                    (a.checked_sub(*b), '-'),
                    (a.checked_pow(*b), '^'),
                ];
                for (result, symbol) in tried {
                    if let Some(r) = result {
                        next.push((r, format!("({} {} {})", text, symbol, b)));
                    }
                }
            }
        }
        level = next;
    }
    level
}

#[test]
fn exhaustive_answer_is_every_shortest_expression() {
    let base = vec![2, 3, 10];
    for target in 0u32..120 {
        let mut expected: Vec<String> = Vec::new();
        for operators in 0..=3 {
            expected = all_expressions(&base, operators)
                .into_iter()
                .filter(|(value, _)| *value == target)
                .map(|(_, text)| text)
                .collect();
            if !expected.is_empty() {
                break;
            }
        }
        let mut solver = FullSolver::new(base.clone());
        let mut found = solver.solve_within(target, 3);
        expected.sort();
        found.sort();
        assert_eq!(found, expected);
    }
}
