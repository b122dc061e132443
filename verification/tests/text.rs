use chord_oracle::text::{
    ascii_lower_char, chars_of, is_white_space_char, push_decimal, push_signed_decimal,
    str_eq_ignore_ascii_case, trim_bounds,
};

#[test]
fn decimal_rendering() {
    let mut s = String::from("n=");
    push_decimal(&mut s, 0);
    assert_eq!(s, "n=0");
    let mut s = String::new();
    push_decimal(&mut s, 18446744073709551615);
    assert_eq!(s, "18446744073709551615");
    let mut s = String::new();
    push_signed_decimal(&mut s, -2147483648);
    assert_eq!(s, "-2147483648");
    let mut s = String::new();
    push_signed_decimal(&mut s, 24);
    assert_eq!(s, "24");
}

#[test]
fn ascii_case_and_white_space() {
    assert!(str_eq_ignore_ascii_case("Drop D", "dROP d"));
    assert!(!str_eq_ignore_ascii_case("Open G", "Open D"));
    assert!(!str_eq_ignore_ascii_case("É", "é"));
    assert_eq!(ascii_lower_char('Q'), 'q');
    assert_eq!(ascii_lower_char('é'), 'é');
    for c in [' ', '\t', '\n', '\u{A0}', '\u{2003}', '\u{3000}'] {
        assert!(is_white_space_char(c));
        assert_eq!(is_white_space_char(c), c.is_whitespace());
    }
    assert!(!is_white_space_char('x'));
}

#[test]
fn trimming_bounds() {
    let v = chars_of("  C# \t");
    assert_eq!(v, vec![' ', ' ', 'C', '#', ' ', '\t']);
    assert_eq!(trim_bounds(&v), (2, 4));
    let v = chars_of("   ");
    let (a, b) = trim_bounds(&v);
    assert_eq!(a, b);
}
