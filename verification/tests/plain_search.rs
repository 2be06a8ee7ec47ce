use beltmatic::{FastSolver, FullSolver};
use std::collections::HashMap;

#[derive(Clone, Copy)]
enum Step {
    Start(u32),
    Binary(char, u32, u32),
}

fn tried(a: u32, b: u32) -> [(Option<u32>, Step); 4] {
    [
        (a.checked_add(b), Step::Binary('+', a, b)),
        (a.checked_mul(b), Step::Binary('*', a, b)),
        (a.checked_sub(b), Step::Binary('-', a, b)),
        (a.checked_pow(b), Step::Binary('^', a, b)),
    ]
}

fn write_all(records: &HashMap<u32, (Vec<Step>, u32)>, value: u32) -> Vec<String> {
    let mut out = Vec::new();
    if let Some((steps, _)) = records.get(&value) {
        for step in steps {
            match step {
                Step::Start(v) => out.push(v.to_string()),
                Step::Binary(symbol, a, b) => {
                    for left in write_all(records, *a) {
                        for right in write_all(records, *b) {
                            out.push(format!("({} {} {})", left, symbol, right));
                        }
                    }
                }
            }
        }
    }
    out
}

fn plain_full(base: &[u32], target: u32, sweeps: u32) -> Vec<String> {
    let mut inputs = base.to_vec();
    let mut records: HashMap<u32, (Vec<Step>, u32)> = HashMap::new();
    for v in base {
        records.insert(*v, (vec![Step::Start(*v)], 0));
    }
    let mut level = 1;
    while !records.contains_key(&target) && level <= sweeps {
        for i in 0..inputs.len() {
            for j in 0..base.len() {
                for (result, step) in tried(inputs[i], base[j]) {
                    if let Some(r) = result {
                        match records.get_mut(&r) {
                            Some((steps, found)) => {
                                if *found == level {
                                    steps.push(step);
                                } else if *found > level {
                                    *steps = vec![step];
                                    *found = level;
                                }
                            }
                            None => {
                                records.insert(r, (vec![step], level));
                                inputs.push(r);
                            }
                        }
                    }
                }
            }
        }
        level += 1;
    }
    write_all(&records, target)
}

fn write_one(records: &HashMap<u32, Step>, value: u32) -> String {
    match records[&value] {
        Step::Start(v) => v.to_string(),
        Step::Binary(symbol, a, b) => format!("({} {} {})", write_one(records, a), symbol, b),
    }
}

fn plain_fast(base: &[u32], target: u32, sweeps: u32) -> Option<String> {
    let mut inputs = base.to_vec();
    let mut records: HashMap<u32, Step> = HashMap::new();
    for v in base {
        records.insert(*v, Step::Start(*v));
    }
    for _ in 0..sweeps {
        for i in 0..inputs.len() {
            for j in 0..base.len() {
                for (result, step) in tried(inputs[i], base[j]) {
                    if let Some(r) = result {
                        if !records.contains_key(&r) {
                            records.insert(r, step);
                            inputs.push(r);
                        }
                        if r == target {
                            return Some(write_one(&records, target));
                        }
                    }
                }
            }
        }
    }
    None
}

fn bases() -> Vec<Vec<u32>> {
    vec![
        vec![1, 2],
        vec![1, 1],
        vec![2, 2, 3],
        vec![3, 5, 7],
        vec![0, 1],
        vec![0],
        vec![10, 4294967295],
        vec![6, 6, 2, 6],
        vec![1, 2, 3, 4, 5, 6, 7, 8, 9],
    ]
}

#[test]
fn exhaustive_solver_agrees_with_a_plain_search() {
    for base in bases() {
        for target in 0u32..70 {
            let mut solver = FullSolver::new(base.clone());
            assert_eq!(
                solver.solve_within(target, 3),
                plain_full(&base, target, 3),
                "base {:?}, target {}",
                base,
                target
            );
        }
    }
}

#[test]
fn fast_solver_agrees_with_a_plain_search() {
    for base in bases() {
        for target in 0u32..70 {
            let expected = plain_fast(&base, target, 5);
            let in_base = base.contains(&target);
            let mut solver = FastSolver::new(base.clone());
            let found = solver.solve_within(target, 3);
            if in_base {
                assert_eq!(found, Some(target.to_string()));
                if let Some(text) = expected {
                    assert_eq!(text, target.to_string());
                }
            } else {
                assert_eq!(found, plain_fast(&base, target, 3));
            }
        }
    }
}
