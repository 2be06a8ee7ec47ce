use beltmatic::text::{enclose, numeral};

#[test]
fn numerals_are_decimal_without_leading_zeros() {
    assert_eq!(numeral(0), "0");
    assert_eq!(numeral(7), "7");
    assert_eq!(numeral(10), "10");
    assert_eq!(numeral(909), "909");
    assert_eq!(numeral(4294967295), "4294967295");
}

#[test]
fn numerals_agree_with_the_standard_library() {
    let mut v: u32 = 1;
    for _ in 0..200 {
        assert_eq!(numeral(v), v.to_string());
        v = v.wrapping_mul(2654435761).wrapping_add(12345);
    }
}

#[test]
fn enclose_wraps_both_sides_around_the_symbol() {
    assert_eq!(enclose("1", '+', "2"), "(1 + 2)");
    assert_eq!(enclose("(1 + 2)", '^', "10"), "((1 + 2) ^ 10)");
    assert_eq!(enclose("", '-', ""), "( - )");
}
