use edge_bookmarks_organizer::sorting::sort_strings;
use edge_bookmarks_organizer::text::{
    concat_strs, join_range, split_char, split_non_alphanumeric, str_eq, str_lt,
    utf8_len_exceeds, utf8_len_is,
};

fn strings(v: &[&str]) -> Vec<String> {
    v.iter().map(|s| s.to_string()).collect()
}

#[test]
fn splitting_and_joining() {
    assert_eq!(split_char("a.b..c", '.'), strings(&["a", "b", "", "c"]));
    assert_eq!(split_char("", '.'), strings(&[""]));
    assert_eq!(split_non_alphanumeric("Rust-lang, 2024!"), strings(&["Rust", "lang", "", "2024", ""]));
    let parts = strings(&["www", "example", "com"]);
    assert_eq!(join_range(&parts, 1, 3, '.'), "example.com");
    assert_eq!(join_range(&parts, 0, 0, '.'), "");
}

#[test]
fn ordering_and_equality() {
    assert!(str_lt("a", "b"));
    assert!(str_lt("ab", "abc"));
    assert!(!str_lt("b", "ab"));
    assert!(!str_lt("x", "x"));
    assert!(str_eq("é", "é"));
    assert_eq!(concat_strs("ab", "cd"), "abcd");
    assert_eq!(
        sort_strings(strings(&["b.com", "a.com", "B.com", "a.com"])),
        strings(&["B.com", "a.com", "a.com", "b.com"])
    );
}

#[test]
fn utf8_lengths() {
    assert!(utf8_len_is("uk", 2));
    assert!(utf8_len_is("é", 2));
    assert!(!utf8_len_is("éé", 2));
    assert!(utf8_len_exceeds("abc", 2));
    assert!(!utf8_len_exceeds("ab", 2));
    assert!(utf8_len_exceeds("€", 2));
}
