use beltmatic::{FastSolver, FullSolver};

fn evaluate(text: &str) -> Option<u32> {
    if !text.starts_with('(') {
        return text.parse().ok();
    }
    let inner = &text[1..text.len() - 1];
    let (rest, right) = inner.rsplit_once(' ')?;
    let (left, symbol) = rest.rsplit_once(' ')?;
    let a = evaluate(left)?;
    let b: u32 = right.parse().ok()?;
    match symbol {
        "+" => a.checked_add(b),
        "*" => a.checked_mul(b),
        "-" => a.checked_sub(b),
        "^" => a.checked_pow(b),
        _ => None,
    }
}

fn right_operands(text: &str) -> Vec<u32> {
    let mut found = Vec::new();
    let mut rest = text;
    while rest.starts_with('(') {
        let inner = &rest[1..rest.len() - 1];
        let (before, right) = inner.rsplit_once(' ').unwrap();
        let (left, _) = before.rsplit_once(' ').unwrap();
        found.push(right.parse().unwrap());
        rest = left;
    }
    found.push(rest.parse().unwrap());
    found
}

#[test]
fn fast_scenario_base_value_is_its_own_answer() {
    let mut solver = FastSolver::new(vec![5]);
    assert_eq!(solver.solve(5), Some("5".to_string()));
    assert_eq!(solver.solve_within(5, 0), Some("5".to_string()));
}

#[test]
fn fast_finds_a_sum() {
    let mut solver = FastSolver::new(vec![1, 2]);
    assert_eq!(solver.solve(3), Some("(1 + 2)".to_string()));
}

#[test]
fn fast_first_writer_wins() {
    let mut solver = FastSolver::new(vec![1, 2]);
    assert_eq!(solver.solve(4), Some("(2 + 2)".to_string()));
    assert_eq!(solver.solve(0), Some("(1 - 1)".to_string()));
    assert_eq!(solver.solve(6), Some("((1 + 2) * 2)".to_string()));
}

#[test]
fn fast_answer_evaluates_to_target() {
    let base = vec![1, 2, 3, 4, 5, 6, 7, 8, 9];
    for target in [0u32, 10, 11, 99, 100, 123, 1000, 4096, 6561, 100000] {
        let mut solver = FastSolver::new(base.clone());
        let text = solver.solve(target).unwrap();
        assert_eq!(evaluate(&text), Some(target));
    }
}

#[test]
fn fast_answer_uses_base_values_on_the_right() {
    let base = vec![3, 7, 11];
    for target in [1u32, 2, 20, 77, 121, 343, 2187] {
        let mut solver = FastSolver::new(base.clone());
        let text = solver.solve_within(target, 8).unwrap();
        assert_eq!(evaluate(&text), Some(target));
        assert!(right_operands(&text).iter().all(|b| base.contains(b)));
    }
}

#[test]
fn fast_answer_is_the_first_exhaustive_answer() {
    let base = vec![2, 3, 5];
    for target in 0u32..200 {
        let mut fast = FastSolver::new(base.clone());
        let mut full = FullSolver::new(base.clone());
        let quick = fast.solve_within(target, 5);
        let all = full.solve_within(target, 5);
        assert_eq!(quick, all.first().cloned());
    }
}

#[test]
fn fast_skips_overflowing_operations() {
    let mut solver = FastSolver::new(vec![65536, 3]);
    let text = solver.solve(4294967293).unwrap();
    assert_eq!(
        text,
        "((((((65536 - 3) * 65536) + 65536) + 65536) - 3) + 65536)"
    );
    assert_eq!(evaluate(&text), Some(4294967293));
    assert_eq!(solver.solve_within(4294967293, 5), None);
}

#[test]
fn fast_scenario_unreachable_target_within_limit() {
    let mut solver = FastSolver::new(vec![2]);
    assert_eq!(solver.solve_within(7, 4), None);
}

#[test]
fn fast_limit_counts_operators() {
    let mut solver = FastSolver::new(vec![1]);
    assert_eq!(solver.solve_within(3, 1), None);
    assert_eq!(solver.solve_within(3, 2), Some("((1 + 1) + 1)".to_string()));
    assert_eq!(solver.solve_within(2, 1), Some("(1 + 1)".to_string()));
    assert_eq!(solver.solve_within(2, 0), None);
}

#[test]
fn fast_detects_saturation() {
    let mut solver = FastSolver::new(vec![0]);
    assert_eq!(solver.solve(1), Some("(0 ^ 0)".to_string()));
    assert_eq!(solver.solve(5), None);
    let mut solver = FastSolver::new(vec![4294967295]);
    assert_eq!(
        solver.solve(0),
        Some("(4294967295 - 4294967295)".to_string())
    );
    assert_eq!(solver.solve(1), None);
}

#[test]
fn fast_empty_base_reaches_nothing() {
    let mut solver = FastSolver::new(vec![]);
    assert_eq!(solver.solve(0), None);
    assert_eq!(solver.solve_within(0, 3), None);
}
