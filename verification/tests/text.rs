use leakwatch::tally::{tally, tally_in_order};
use leakwatch::text::{
    comes_before, contains, contains_char, decimal_text, ends_with, has_at, is_white, join,
    pad_right, replace, same_opt, slice_text, split_lines, starts_with, text_after, text_before,
    to_chars, trim, trim_start,
};

#[test]
fn prefixes_and_suffixes() {
    assert!(starts_with("/dev/null", "/dev"));
    assert!(!starts_with("/de", "/dev"));
    assert!(starts_with("x", ""));
    assert!(ends_with("main.py", ".py"));
    assert!(!ends_with("py", ".py"));
    assert!(has_at(&to_chars("abcabc"), &to_chars("ca"), 2));
    assert!(!has_at(&to_chars("abcabc"), &to_chars("ca"), 5));
}

#[test]
fn parts_of_a_text() {
    assert!(contains("python manage.py runserver", "manage.py"));
    assert!(!contains("python", "pythons"));
    assert!(contains("", ""));
    assert!(contains_char("a/b", '/'));
    assert!(!contains_char("ab", '/'));
    assert_eq!(text_before("name(args)", '('), "name");
    assert_eq!(text_before("name", '('), "name");
    assert_eq!(text_after("def name", 4), "name");
    assert_eq!(slice_text(&to_chars("grün!"), 2, 4), "ün");
}

#[test]
fn white_space_is_that_of_unicode() {
    for n in 0..=0x3100u32 {
        if let Some(c) = char::from_u32(n) {
            assert_eq!(is_white(c), c.is_whitespace(), "{n:#x}");
        }
    }
    assert_eq!(trim("\u{3000} x y \t\n"), "x y");
    assert_eq!(trim_start("  x "), "x ");
    assert_eq!(trim(" \t "), "");
}

#[test]
fn lines_are_split_as_std_does() {
    let cases = vec!["", "a", "a\n", "a\nb", "a\r\nb\r\n", "\n\n", "a\rb", "a\r", "\r\n", "x\n\r"];
    for case in cases {
        let ours = split_lines(case);
        let std: Vec<&str> = case.lines().collect();
        assert_eq!(ours, std, "{case:?}");
    }
}

#[test]
fn numbers_in_decimal() {
    assert_eq!(decimal_text(0), "0");
    assert_eq!(decimal_text(7), "7");
    assert_eq!(decimal_text(1024), "1024");
    assert_eq!(decimal_text(u64::MAX as u128), "18446744073709551615");
}

#[test]
fn padding_counts_characters() {
    assert_eq!(pad_right("ab", 5), "ab   ");
    assert_eq!(pad_right("abcdef", 5), "abcdef");
    assert_eq!(pad_right("é", 3), format!("{:<3}", "é"));
}

#[test]
fn joining_and_replacing() {
    let parts = vec!["a".to_string(), "".to_string(), "b".to_string()];
    assert_eq!(join(&parts, ", "), "a, , b");
    assert_eq!(join(&Vec::new(), ", "), "");
    assert_eq!(replace("aaa", "aa", "b"), "aaa".replace("aa", "b"));
    assert_eq!(replace("x__P__y__P__", "__P__", "1"), "x1y1");
    assert_eq!(replace("none", "__P__", "1"), "none");
    assert_eq!(replace("ab", "ab", "abab"), "abab");
}

#[test]
fn texts_are_ordered_as_std_orders_them() {
    let words = vec!["", "a", "aa", "ab", "b", "é", "z", "\u{10000}", "\u{ffff}"];
    for a in &words {
        for b in &words {
            assert_eq!(comes_before(a, b), a < b, "{a:?} {b:?}");
        }
    }
}

#[test]
fn optional_texts_are_compared_by_what_they_hold() {
    assert!(same_opt(&None, &None));
    assert!(same_opt(&Some("a".to_string()), &Some("a".to_string())));
    assert!(!same_opt(&Some("a".to_string()), &Some("b".to_string())));
    assert!(!same_opt(&Some("".to_string()), &None));
}

#[test]
fn keys_are_counted_in_the_order_of_first_appearance() {
    let keys = vec![Some("b".to_string()), None, Some("a".to_string()), None, Some("b".to_string())];
    let counts = tally(&keys);
    assert_eq!(
        counts,
        vec![(Some("b".to_string()), 2), (None, 2), (Some("a".to_string()), 1)]
    );
}

#[test]
fn keys_are_counted_in_their_own_order() {
    let keys = vec!["b".to_string(), "a".to_string(), "b".to_string(), "aa".to_string()];
    assert_eq!(
        tally_in_order(&keys),
        vec![("a".to_string(), 1), ("aa".to_string(), 1), ("b".to_string(), 2)]
    );
}
