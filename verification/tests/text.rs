use dupfinder::text::{push_decimal, read_answer};

fn decimal(n: usize) -> String {
    let mut out = String::new();
    push_decimal(&mut out, n);
    out
}

#[test]
fn plain_numbers_are_read() {
    assert_eq!(read_answer("0"), Some(0));
    assert_eq!(read_answer("1"), Some(1));
    assert_eq!(read_answer("42"), Some(42));
    assert_eq!(read_answer("1234567890"), Some(1234567890));
}

#[test]
fn the_line_end_is_ignored() {
    assert_eq!(read_answer("1\n"), Some(1));
    assert_eq!(read_answer("2\r\n"), Some(2));
    assert_eq!(read_answer("  3\t \n"), Some(3));
}

#[test]
fn unicode_white_space_is_ignored() {
    assert_eq!(read_answer("\u{3000}5\u{a0}"), Some(5));
    assert_eq!(read_answer("\u{2003}6\u{2028}\u{85}"), Some(6));
    assert_eq!(read_answer("\u{1680}\u{205f}7\u{202f}\u{2029}"), Some(7));
    assert_eq!(read_answer("\u{b}\u{c}8"), Some(8));
}

#[test]
fn other_characters_are_not_white_space() {
    assert_eq!(read_answer("\u{200b}5"), None);
    assert_eq!(read_answer("5\u{feff}"), None);
    assert_eq!(read_answer("\u{1c}5"), None);
    assert_eq!(read_answer("\u{180e}5"), None);
}

#[test]
fn a_plus_sign_may_lead() {
    assert_eq!(read_answer("+1"), Some(1));
    assert_eq!(read_answer(" +15\n"), Some(15));
    assert_eq!(read_answer("+"), None);
    assert_eq!(read_answer("++1"), None);
    assert_eq!(read_answer("+ 1"), None);
    assert_eq!(read_answer("1+"), None);
}

#[test]
fn a_minus_sign_is_refused() {
    assert_eq!(read_answer("-1"), None);
    assert_eq!(read_answer("-0"), None);
    assert_eq!(read_answer("-"), None);
}

#[test]
fn leading_zeros_are_read() {
    assert_eq!(read_answer("007"), Some(7));
    assert_eq!(read_answer("000"), Some(0));
    assert_eq!(read_answer("+00"), Some(0));
}

#[test]
fn what_is_no_number_is_refused() {
    assert_eq!(read_answer(""), None);
    assert_eq!(read_answer("\n"), None);
    assert_eq!(read_answer("   "), None);
    assert_eq!(read_answer("abc"), None);
    assert_eq!(read_answer("1 2"), None);
    assert_eq!(read_answer("1a"), None);
    assert_eq!(read_answer("a1"), None);
    assert_eq!(read_answer("1.0"), None);
    assert_eq!(read_answer("1_000"), None);
    assert_eq!(read_answer("0x10"), None);
    assert_eq!(read_answer("\u{661}"), None);
    assert_eq!(read_answer("\u{ff11}"), None);
}

#[test]
fn the_largest_number_is_read() {
    assert_eq!(read_answer(&usize::MAX.to_string()), Some(usize::MAX));
    assert_eq!(read_answer(&format!("+000{}\n", usize::MAX)), Some(usize::MAX));
}

#[test]
fn numbers_too_large_are_refused() {
    let max = usize::MAX.to_string();
    let mut above = max.clone().into_bytes();
    let last = above.len() - 1;
    above[last] += 1;
    assert_eq!(read_answer(&String::from_utf8(above).unwrap()), None);
    assert_eq!(read_answer(&format!("{}0", max)), None);
    assert_eq!(read_answer("99999999999999999999999999999999999999999"), None);
}

#[test]
fn reading_agrees_with_the_standard_library() {
    let lines = [
        "0", "1", "+1", "-1", "", " ", "12 ", " 12", "1 2", "+", "-", "007", "18446744073709551615",
        "18446744073709551616", "4294967295", "4294967296", "a", "1a", "\t9\n", "\u{a0}3", "3\u{3000}",
        "٣", "+-1", "1e3", "೧",
    ];
    for line in lines {
        assert_eq!(read_answer(line), line.trim().parse::<usize>().ok(), "{:?}", line);
    }
}

#[test]
fn numbers_are_written_in_decimal() {
    assert_eq!(decimal(0), "0");
    assert_eq!(decimal(5), "5");
    assert_eq!(decimal(9), "9");
    assert_eq!(decimal(10), "10");
    assert_eq!(decimal(99), "99");
    assert_eq!(decimal(100), "100");
    assert_eq!(decimal(1234567890), "1234567890");
    assert_eq!(decimal(usize::MAX), usize::MAX.to_string());
}

#[test]
fn numbers_are_appended() {
    let mut out = String::from("size ");
    push_decimal(&mut out, 5);
    push_decimal(&mut out, 120);
    assert_eq!(out, "size 5120");
}

#[test]
fn written_numbers_are_read_back() {
    for n in [0usize, 1, 9, 10, 11, 255, 256, 65535, 1000000, usize::MAX - 1, usize::MAX] {
        assert_eq!(read_answer(&decimal(n)), Some(n));
    }
}
