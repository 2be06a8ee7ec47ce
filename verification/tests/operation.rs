use beltmatic::operation::{apply_operators, checked_pow};
use beltmatic::Operation;

#[test]
fn symbols_of_the_operations() {
    assert_eq!(Operation::Identity(7).symbol(), ' ');
    assert_eq!(Operation::Addition(1, 2).symbol(), '+');
    assert_eq!(Operation::Multiplication(1, 2).symbol(), '*');
    assert_eq!(Operation::Subtraction(1, 2).symbol(), '-');
    assert_eq!(Operation::Exponentiation(1, 2).symbol(), '^');
}

#[test]
fn evaluate_gives_exact_results_in_range() {
    assert_eq!(Operation::Identity(42).evaluate(), Some(42));
    assert_eq!(Operation::Addition(40, 2).evaluate(), Some(42));
    assert_eq!(Operation::Multiplication(6, 7).evaluate(), Some(42));
    assert_eq!(Operation::Subtraction(50, 8).evaluate(), Some(42));
    assert_eq!(Operation::Exponentiation(3, 4).evaluate(), Some(81));
}

#[test]
fn evaluate_rejects_results_out_of_range() {
    assert_eq!(Operation::Addition(4294967295, 1).evaluate(), None);
    assert_eq!(Operation::Addition(4294967295, 0).evaluate(), Some(4294967295));
    assert_eq!(Operation::Multiplication(65536, 65536).evaluate(), None);
    assert_eq!(
        Operation::Multiplication(65535, 65537).evaluate(),
        Some(4294967295)
    );
    assert_eq!(Operation::Subtraction(1, 2).evaluate(), None);
    assert_eq!(Operation::Subtraction(2, 2).evaluate(), Some(0));
    assert_eq!(Operation::Exponentiation(2, 32).evaluate(), None);
    assert_eq!(Operation::Exponentiation(2, 31).evaluate(), Some(2147483648));
}

#[test]
fn checked_pow_agrees_with_the_standard_library() {
    let samples = [
        0u32, 1, 2, 3, 4, 5, 7, 10, 15, 16, 31, 32, 33, 100, 255, 256, 1000, 65535, 65536, 65537,
        2147483647, 2147483648, 4294967294, 4294967295,
    ];
    for base in samples {
        for exp in samples {
            assert_eq!(checked_pow(base, exp), base.checked_pow(exp));
        }
    }
}

#[test]
fn checked_pow_edge_cases() {
    assert_eq!(checked_pow(0, 0), Some(1));
    assert_eq!(checked_pow(0, 5), Some(0));
    assert_eq!(checked_pow(1, 4294967295), Some(1));
    assert_eq!(checked_pow(4294967295, 1), Some(4294967295));
    assert_eq!(checked_pow(4294967295, 2), None);
    assert_eq!(checked_pow(65535, 2), Some(4294836225));
    assert_eq!(checked_pow(65536, 2), None);
    assert_eq!(checked_pow(1625, 3), Some(4291015625));
    assert_eq!(checked_pow(1626, 3), None);
}

#[test]
fn apply_operators_keeps_order_and_drops_overflow() {
    let found = apply_operators(2, 3);
    assert_eq!(found.len(), 3);
    assert!(matches!(found[0], (5, Operation::Addition(2, 3))));
    assert!(matches!(found[1], (6, Operation::Multiplication(2, 3))));
    assert!(matches!(found[2], (8, Operation::Exponentiation(2, 3))));

    let found = apply_operators(3, 2);
    assert_eq!(found.len(), 4);
    assert!(matches!(found[0], (5, Operation::Addition(3, 2))));
    assert!(matches!(found[1], (6, Operation::Multiplication(3, 2))));
    assert!(matches!(found[2], (1, Operation::Subtraction(3, 2))));
    assert!(matches!(found[3], (9, Operation::Exponentiation(3, 2))));

    let found = apply_operators(4294967295, 4294967295);
    assert_eq!(found.len(), 1);
    assert!(matches!(
        found[0],
        (0, Operation::Subtraction(4294967295, 4294967295))
    ));
}

#[test]
fn apply_operators_results_match_their_operations() {
    for a in [0u32, 1, 2, 9, 1000, 65536, 4294967295] {
        for b in [0u32, 1, 2, 9, 1000, 65536, 4294967295] {
            for (result, operation) in apply_operators(a, b) {
                assert_eq!(operation.evaluate(), Some(result));
                assert!(!matches!(operation, Operation::Identity(_)));
            }
        }
    }
}
