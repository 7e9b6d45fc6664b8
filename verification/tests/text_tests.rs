use rust_examples::text::{i32_to_decimal, trim, u32_to_decimal, chars_of, chars_less};

#[test]
fn trim_removes_unicode_white_space_at_both_ends() {
    assert_eq!(trim("  hello world \t\n"), "hello world");
    assert_eq!(trim("\u{3000}\u{a0}x\u{2028}"), "x");
    assert_eq!(trim("   "), "");
    assert_eq!(trim(""), "");
    assert_eq!(trim("a b"), "a b");
}

#[test]
fn trim_agrees_with_std_trim() {
    for s in ["", " a ", "\u{85}b\u{85}", "\u{200b}c", " \u{1680}d e\u{205f} ", "ё "] {
        assert_eq!(trim(s), s.trim());
    }
}

#[test]
fn trim_twice_is_trim_once() {
    let s = " \t x y \n";
    assert_eq!(trim(&trim(s)), trim(s));
}

#[test]
fn decimal_of_unsigned_numbers() {
    assert_eq!(u32_to_decimal(0), "0");
    assert_eq!(u32_to_decimal(7), "7");
    assert_eq!(u32_to_decimal(1234), "1234");
    assert_eq!(u32_to_decimal(u32::MAX), "4294967295");
}

#[test]
fn decimal_of_signed_numbers() {
    assert_eq!(i32_to_decimal(0), "0");
    assert_eq!(i32_to_decimal(-5), "-5");
    assert_eq!(i32_to_decimal(42), "42");
    assert_eq!(i32_to_decimal(i32::MIN), "-2147483648");
    assert_eq!(i32_to_decimal(i32::MAX), "2147483647");
}

#[test]
fn lexicographic_order_of_characters() {
    let a = chars_of("abc");
    let b = chars_of("abd");
    let c = chars_of("ab");
    assert!(chars_less(&a, &b));
    assert!(!chars_less(&b, &a));
    assert!(chars_less(&c, &a));
    assert!(!chars_less(&a, &a));
    assert!(chars_less(&chars_of("Z"), &chars_of("a")));
    assert!(chars_less(&chars_of("я"), &chars_of("ё")));
}
