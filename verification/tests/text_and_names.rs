use mcp_gateway::name_map::NameMap;
use mcp_gateway::text::{chars_lt, chars_of, text_contains, text_eq};

#[test]
fn text_eq_compares_characters() {
    assert!(text_eq("search", "search"));
    assert!(!text_eq("search", "Search"));
    assert!(!text_eq("search", "searc"));
    assert!(text_eq("", ""));
    assert!(text_eq("héllo", "héllo"));
}

#[test]
fn text_contains_finds_runs() {
    assert!(text_contains("backend 'x' not connected", "not connected"));
    assert!(text_contains("abc", ""));
    assert!(text_contains("abc", "abc"));
    assert!(!text_contains("abc", "abcd"));
    assert!(!text_contains("not foun", "not found"));
    assert!(text_contains("xnot found", "not found"));
}

#[test]
fn chars_lt_is_lexicographic() {
    let a = chars_of("apple");
    let b = chars_of("banana");
    let ap = chars_of("app");
    assert!(chars_lt(&a, &b));
    assert!(!chars_lt(&b, &a));
    assert!(chars_lt(&ap, &a));
    assert!(!chars_lt(&a, &ap));
    assert!(!chars_lt(&a, &a));
    assert!(chars_lt(&chars_of("Zeta"), &chars_of("alpha")));
}

#[test]
fn name_map_insert_get_and_order() {
    let mut m: NameMap<String> = NameMap::new();
    assert_eq!(m.len(), 0);
    m.insert("b".to_string(), "1".to_string());
    m.insert("a".to_string(), "2".to_string());
    m.insert("b".to_string(), "3".to_string());
    assert_eq!(m.len(), 2);
    assert_eq!(m.get("b"), Some(&"3".to_string()));
    assert_eq!(m.get("a"), Some(&"2".to_string()));
    assert_eq!(m.get("c"), None);
    assert!(m.contains_key("a"));
    assert!(!m.contains_key("c"));
    assert_eq!(m.keys(), vec!["b".to_string(), "a".to_string()]);
    let (k, v) = m.get_index(1);
    assert_eq!(k, "a");
    assert_eq!(v, "2");
    let c = m.clone();
    assert_eq!(c.keys(), m.keys());
    assert_eq!(c.get("b"), Some(&"3".to_string()));
}
