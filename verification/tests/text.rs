use cc_stats::text::{
    chars_of, contains_text, equals_ignoring_case, parse_i32, push_decimal, push_filled,
    push_padded, push_padded_right, replace_all, same_text, split_once, strip_prefix, text_of,
    trim,
};

#[test]
fn searching_agrees_with_the_first_place() {
    assert!(contains_text("workspace/myproject", "myproject"));
    assert!(contains_text("abc", ""));
    assert!(contains_text("", ""));
    assert!(!contains_text("", "a"));
    assert!(!contains_text("ab", "abc"));
    assert!(contains_text("aab", "ab"));
    assert!(contains_text("größe", "öß"));
    assert_eq!(split_once("a=b=c", "="), Some(("a", "b=c")));
    assert_eq!(split_once("a__b__c", "__"), Some(("a", "b__c")));
    assert_eq!(split_once("abc", "="), None);
    assert_eq!(split_once("=", "="), Some(("", "")));
}

#[test]
fn replacing_takes_places_from_the_left() {
    assert_eq!(replace_all("-a-b-", "-", "/"), "/a/b/");
    assert_eq!(replace_all("aaa", "aa", "b"), "ba");
    assert_eq!(replace_all("abc", "x", "y"), "abc");
    assert_eq!(replace_all("", "x", "y"), "");
}

#[test]
fn trimming_knows_unicode_whitespace() {
    assert_eq!(trim("  a b \t\n"), "a b");
    assert_eq!(trim("\u{2003}x\u{a0}"), "x");
    assert_eq!(trim("\u{200b}x"), "\u{200b}x");
    assert_eq!(trim(" \u{3000} "), "");
    assert_eq!(trim(""), "");
}

#[test]
fn prefixes_come_off_once() {
    assert_eq!(strip_prefix("~/x", "~/"), Some("x"));
    assert_eq!(strip_prefix("~/", "~/"), Some(""));
    assert_eq!(strip_prefix("~", "~/"), None);
    assert_eq!(strip_prefix("mcp__mcp__a", "mcp__"), Some("mcp__a"));
}

#[test]
fn equality_with_and_without_case() {
    assert!(same_text("Z", "Z"));
    assert!(!same_text("Z", "z"));
    assert!(!same_text("ab", "abc"));
    assert!(equals_ignoring_case("LoCaL", "local"));
    assert!(!equals_ignoring_case("locale", "local"));
    assert!(!equals_ignoring_case("Ä", "ä"));
}

#[test]
fn characters_make_the_text_again() {
    let v = chars_of("añ→b");
    assert_eq!(v.len(), 4);
    assert_eq!(text_of(&v), "añ→b");
}

#[test]
fn numbers_in_decimal_notation() {
    let mut s = String::from("n=");
    push_decimal(&mut s, 0);
    s.push(' ');
    push_decimal(&mut s, 340282366920938463463374607431768211455);
    assert_eq!(s, "n=0 340282366920938463463374607431768211455");
    let mut t = String::new();
    push_filled(&mut t, 7, 4, '0');
    push_filled(&mut t, 12345, 4, '0');
    push_padded(&mut t, "ab", 4, '.');
    push_padded_right(&mut t, "→c", 5, '.');
    push_padded_right(&mut t, "long", 2, '.');
    assert_eq!(t, "000712345..ab→c...long");
}

#[test]
fn decimal_reads_back() {
    for n in [0u128, 9, 10, 99, 100, 2147483647] {
        let mut s = String::new();
        push_decimal(&mut s, n);
        assert_eq!(parse_i32(&s), Some(n as i32));
        let mut t = String::new();
        push_filled(&mut t, n, 12, '0');
        assert_eq!(parse_i32(&t), Some(n as i32));
    }
}

#[test]
fn whole_numbers_with_a_sign() {
    assert_eq!(parse_i32("+08"), Some(8));
    assert_eq!(parse_i32("-2147483648"), Some(-2147483648));
    assert_eq!(parse_i32("2147483648"), None);
    assert_eq!(parse_i32("-2147483649"), None);
    assert_eq!(parse_i32("99999999999999999999"), None);
    assert_eq!(parse_i32(""), None);
    assert_eq!(parse_i32("-"), None);
    assert_eq!(parse_i32("+"), None);
    assert_eq!(parse_i32("1x"), None);
    assert_eq!(parse_i32("--1"), None);
    assert_eq!(parse_i32(" 1"), None);
}

#[test]
fn whitespace_is_what_is_listed() {
    let listed = |n: u32| {
        (0x9..=0xd).contains(&n)
            || (0x2000..=0x200a).contains(&n)
            || [0x20, 0x85, 0xa0, 0x1680, 0x2028, 0x2029, 0x202f, 0x205f, 0x3000].contains(&n)
    };
    for c in '\0'..=char::MAX {
        let s = c.to_string();
        assert_eq!(trim(&s).is_empty(), listed(c as u32));
    }
}

#[test]
fn trimming_drops_what_is_around() {
    assert_eq!(trim("\t\u{85} -05:30\u{2029} "), "-05:30");
}
