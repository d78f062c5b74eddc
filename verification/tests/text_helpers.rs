use i18n_key_translator::text::{
    chars_le, chars_of, join_strings, push_decimal, repeat_char, replace_all_str, sort_pairs_by_first,
    sort_strings, split_str,
};

fn strings(items: &[&str]) -> Vec<String> {
    items.iter().map(|s| s.to_string()).collect()
}

#[test]
fn replace_fills_every_placeholder() {
    assert_eq!(replace_all_str("locales/{lang}.json", "{lang}", "zh"), "locales/zh.json");
    assert_eq!(replace_all_str("{lang}/{lang}.json", "{lang}", "fr"), "fr/fr.json");
    assert_eq!(replace_all_str("lib/l10n/app_{lang}.arb", "{lang}", "de"), "lib/l10n/app_de.arb");
}

#[test]
fn replace_without_occurrence_keeps_text() {
    assert_eq!(replace_all_str("fixed/path.json", "{lang}", "zh"), "fixed/path.json");
    assert_eq!(replace_all_str("{lan}{lang", "{lang}", "zh"), "{lan}{lang");
    assert_eq!(replace_all_str("", "{lang}", "zh"), "");
}

#[test]
fn replace_matches_left_to_right_without_overlap() {
    assert_eq!(replace_all_str("aaa", "aa", "b"), "ba");
    assert_eq!(replace_all_str("{lang}", "{lang}", "{lang}"), "{lang}");
    assert_eq!(replace_all_str("x{lang}y", "{lang}", ""), "xy");
}

#[test]
fn replace_agrees_with_std() {
    for (s, p, r) in [("a.b.a", "a", "xy"), ("中文{lang}中", "{lang}", "zh-CN"), ("abab", "ab", "ba")] {
        assert_eq!(replace_all_str(s, p, r), s.replace(p, r));
    }
}

#[test]
fn split_gives_one_more_piece_than_separators() {
    assert_eq!(split_str("a.b.c", '.'), strings(&["a", "b", "c"]));
    assert_eq!(split_str("", '.'), strings(&[""]));
    assert_eq!(split_str("a..b", '.'), strings(&["a", "", "b"]));
    assert_eq!(split_str(".a.", '.'), strings(&["", "a", ""]));
    assert_eq!(split_str("保存.取消", '.'), strings(&["保存", "取消"]));
}

#[test]
fn join_puts_separator_between_items() {
    assert_eq!(join_strings(&strings(&[]), "\n"), "");
    assert_eq!(join_strings(&strings(&["one"]), "\n"), "one");
    assert_eq!(join_strings(&strings(&["a", "b", "c"]), ", "), "a, b, c");
}

#[test]
fn decimal_digits() {
    for n in [0usize, 7, 10, 99, 12345, usize::MAX] {
        let mut s = String::from("x");
        push_decimal(&mut s, n);
        assert_eq!(s, format!("x{}", n));
    }
}

#[test]
fn repeat_builds_rules() {
    assert_eq!(repeat_char('─', 3), "───");
    assert_eq!(repeat_char('─', 0), "");
    assert_eq!(repeat_char('─', 48).chars().count(), 48);
}

#[test]
fn chars_order_is_lexicographic() {
    assert!(chars_le(&chars_of("a"), &chars_of("ab")));
    assert!(!chars_le(&chars_of("ab"), &chars_of("a")));
    assert!(chars_le(&chars_of("B"), &chars_of("a")));
    assert!(chars_le(&chars_of(""), &chars_of("")));
    assert!(chars_le(&chars_of("z"), &chars_of("é")));
}

#[test]
fn sort_strings_agrees_with_std_sort() {
    let input = strings(&["b", "a", "common.z", "common.a", "A", "é", "ab", "a", "[0]", "zz"]);
    let mut expected = input.clone();
    expected.sort_unstable();
    assert_eq!(sort_strings(input), expected);
    assert_eq!(sort_strings(Vec::new()), Vec::<String>::new());
}

#[test]
fn sorting_has_one_result() {
    let one = sort_strings(strings(&["x.b", "x.a", "y"]));
    let two = sort_strings(strings(&["y", "x.a", "x.b"]));
    assert_eq!(one, two);
    assert_eq!(one, strings(&["x.a", "x.b", "y"]));
}

#[test]
fn sort_pairs_orders_by_language() {
    let pairs = vec![
        ("zh".to_string(), "https://z".to_string()),
        ("en".to_string(), "https://e".to_string()),
        ("fr".to_string(), "https://f".to_string()),
    ];
    let sorted = sort_pairs_by_first(pairs);
    let langs: Vec<&str> = sorted.iter().map(|p| p.0.as_str()).collect();
    assert_eq!(langs, vec!["en", "fr", "zh"]);
    assert_eq!(sorted[0].1, "https://e");
}
