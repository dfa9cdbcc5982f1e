use email_sigs::text::{chars_of, is_whitespace, rfind, rfind_pair, string_of, to_decimal, trim};

#[test]
fn whitespace_is_what_the_standard_library_calls_whitespace() {
    let mut n: u32 = 0;
    while n <= 0x10ffff {
        if let Some(c) = char::from_u32(n) {
            assert_eq!(is_whitespace(c), c.is_whitespace(), "U+{:04X}", n);
        }
        n += 1;
    }
}

#[test]
fn chars_and_strings_convert_both_ways() {
    let s = "aä€😀\n";
    let v = chars_of(s);
    assert_eq!(v, vec!['a', 'ä', '€', '😀', '\n']);
    assert_eq!(string_of(&v), s);
    assert_eq!(chars_of(""), Vec::<char>::new());
    assert_eq!(string_of(&[]), "");
}

#[test]
fn trim_agrees_with_the_standard_library() {
    for s in ["", " ", "a", " a", "a ", "  a b  ", "\u{a0}x\u{2003}", "\t\r\n", "x\u{200b}", " \u{85}é\u{1680} "] {
        let v = chars_of(s);
        assert_eq!(string_of(trim(&v)), s.trim(), "{:?}", s);
    }
}

#[test]
fn rfind_finds_the_last_occurrence() {
    let v = chars_of("a:b:c");
    assert_eq!(rfind(&v, ':'), Some(3));
    assert_eq!(rfind(&v, 'a'), Some(0));
    assert_eq!(rfind(&v, 'x'), None);
    assert_eq!(rfind(&[], 'x'), None);
}

#[test]
fn rfind_pair_finds_the_last_pair() {
    let v = chars_of("a- b- c-");
    assert_eq!(rfind_pair(&v, '-', ' '), Some(4));
    assert_eq!(rfind_pair(&v, 'a', '-'), Some(0));
    assert_eq!(rfind_pair(&v, '-', '-'), None);
    assert_eq!(rfind_pair(&chars_of("-"), '-', ' '), None);
    assert_eq!(rfind_pair(&chars_of("--  "), '-', ' '), Some(1));
}

#[test]
fn decimal_has_no_leading_zeros() {
    for n in [0usize, 1, 9, 10, 11, 99, 100, 101, 12345, 1000000, usize::MAX] {
        assert_eq!(to_decimal(n), n.to_string());
    }
    assert_eq!(to_decimal(407), "407");
}
