use pl0_check::text::{alnum, chars_of, digit, letter, push_decimal, push_repeated, to_lower};

#[test]
fn letters_and_digits_are_the_ascii_ones() {
    for c in ['a', 'z', 'A', 'Z', 'm', 'Q'] {
        assert!(letter(c));
        assert!(alnum(c));
        assert!(!digit(c));
    }
    for c in ['0', '5', '9'] {
        assert!(digit(c));
        assert!(alnum(c));
        assert!(!letter(c));
    }
    for c in ['@', '[', '`', '{', '/', ':', ' ', '_', '\u{e9}', '\u{0663}', '\u{ff21}'] {
        assert!(!letter(c));
        assert!(!digit(c));
        assert!(!alnum(c));
    }
}

#[test]
fn to_lower_folds_ascii_capitals_only() {
    assert_eq!(to_lower('A'), 'a');
    assert_eq!(to_lower('Z'), 'z');
    assert_eq!(to_lower('q'), 'q');
    assert_eq!(to_lower('7'), '7');
    assert_eq!(to_lower('['), '[');
    assert_eq!(to_lower('@'), '@');
    assert_eq!(to_lower('\u{c9}'), '\u{c9}');
}

#[test]
fn push_decimal_writes_the_digits_of_a_number() {
    let mut out = String::from("n=");
    push_decimal(&mut out, 0);
    out.push(',');
    push_decimal(&mut out, 7);
    out.push(',');
    push_decimal(&mut out, 10);
    out.push(',');
    push_decimal(&mut out, 1203);
    assert_eq!(out, "n=0,7,10,1203");
    let mut max = String::new();
    push_decimal(&mut max, usize::MAX);
    assert_eq!(max, format!("{}", usize::MAX));
}

#[test]
fn push_repeated_appends_copies() {
    let mut out = String::from("a");
    push_repeated(&mut out, ' ', 3);
    push_repeated(&mut out, 'x', 0);
    push_repeated(&mut out, '^', 1);
    assert_eq!(out, "a   ^");
}

#[test]
fn chars_of_lists_the_characters() {
    assert_eq!(chars_of("a\u{e9}\n"), vec!['a', '\u{e9}', '\n']);
    assert!(chars_of("").is_empty());
}
