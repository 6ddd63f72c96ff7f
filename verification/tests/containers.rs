use npd::ordered::{set_of, sort_strings, StringMap, StringSet};
use npd::table::Table;
use npd::text;

fn strings(v: &[&str]) -> Vec<String> {
    v.iter().map(|x| x.to_string()).collect()
}

#[test]
fn sets_hold_each_member_once_in_order() {
    let mut s = StringSet::new();
    assert!(s.insert("b".into()));
    assert!(s.insert("a".into()));
    assert!(!s.insert("b".into()));
    assert_eq!(s.len(), 2);
    assert_eq!(s.at(0), "a");
    assert!(s.contains("b") && !s.contains("c"));
    assert_eq!(set_of(&strings(&["x", "y", "x"])).len(), 2);
}

#[test]
fn maps_replace_and_append() {
    let mut m: StringMap<u32> = StringMap::new();
    assert_eq!(m.insert("k".into(), 1), None);
    assert_eq!(m.insert("k".into(), 2), Some(1));
    assert_eq!(m.get("k"), Some(&2));
    assert!(!m.contains_key("j"));
    let mut lists: StringMap<Vec<u32>> = StringMap::new();
    lists.append("k", 1);
    lists.append("k", 2);
    assert_eq!(lists.get("k"), Some(&vec![1, 2]));
    assert_eq!(lists.key_at(0), "k");
    assert_eq!(lists.value_at(0).len(), 2);
}

#[test]
fn strings_sort_by_code_points() {
    assert_eq!(
        sort_strings(strings(&["é", "b", "a", "B", "ab", ""])),
        strings(&["", "B", "a", "ab", "b", "é"])
    );
}

#[test]
fn tables_are_keyed_by_columns() {
    let mut t: Table<u32> = Table::new();
    t.put(strings(&["t1", "s", "a"]), 1);
    t.put(strings(&["t1", "s", "b"]), 2);
    t.put(strings(&["t2", "s", "a"]), 3);
    t.put(strings(&["t1", "s", "a"]), 4);
    assert_eq!(t.len(), 3);
    assert_eq!(t.get(&strings(&["t1", "s", "a"])), Some(&4));
    assert_eq!(t.remove_under(&strings(&["t1", "s"])), 2);
    assert_eq!(t.len(), 1);
    assert_eq!(t.key_at(0)[0], "t2");
    assert_eq!(t.value_at(0), &3);
}

#[test]
fn texts_are_split_and_joined() {
    assert_eq!(text::split("a/b//", '/'), strings(&["a", "b", "", ""]));
    assert_eq!(text::split_lines("a\r\nb\n\nc"), strings(&["a", "b", "", "c"]));
    assert_eq!(text::split_words("  a \t b "), strings(&["a", "b"]));
    assert_eq!(text::join(&strings(&["a", "b"]), ", "), "a, b");
    assert_eq!(text::replace("aXbXX", "X", "yy"), "ayybyyyy");
    assert_eq!(text::trim("\u{a0} a b \n"), "a b");
    assert_eq!(text::lower("AbÉ"), "abÉ");
}

#[test]
fn numbers_are_written_and_read() {
    assert_eq!(text::decimal_u64(u64::MAX), "18446744073709551615");
    assert_eq!(text::decimal_i64(i64::MIN), "-9223372036854775808");
    assert_eq!(text::decimal_usize(0), "0");
    assert_eq!(text::parse_number("18446744073709551615", u64::MAX), Some(u64::MAX));
    assert_eq!(text::parse_number("18446744073709551616", u64::MAX), None);
    assert_eq!(text::parse_number("12x", 99), None);
    assert_eq!(text::align_right("7", 3), "  7");
    assert_eq!(text::align_left("7", 3), "7  ");
}
