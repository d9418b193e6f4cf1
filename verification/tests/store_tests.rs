use waypoints::manager::ConfigManager;
use waypoints::store::deserialize;
use waypoints::store::parse_config;
use waypoints::store::serialize;
use waypoints::store::StoreError;
use waypoints::store::StoreMap;
use waypoints::text::is_valid_key;

const TESTCONFIG: &str = "waypoints = C:\\Users\\thisUser\\Desktop\\rust\\waypoints\nmain = C:\nd = C:\\Users\\thisUser\\Desktop\nwps = C:\\Users\\thisUser\\Desktop\\rust\\waypoints\\target\\debug";

#[test]
fn test_serialization() {
    let mut h = StoreMap::new();
    h.add("main".to_string(), "C:".to_string());
    let result = serialize(&h);
    assert_eq!(result, "main = C:\n", "{}", result);
}

#[test]
fn test_deserialization() {
    let mut iter = TESTCONFIG.split("\n");
    let (k, v) = deserialize(iter.next().unwrap());
    assert_eq!(k, "waypoints");
    assert_eq!(v, "C:\\Users\\thisUser\\Desktop\\rust\\waypoints");
    let (k, v) = deserialize(iter.next().unwrap());
    assert_eq!(k, "main");
    assert_eq!(v, "C:");
}

#[test]
fn test_deserialize_splits_at_first_separator() {
    let (k, v) = deserialize("k = a = b");
    assert_eq!(k, "k");
    assert_eq!(v, "a = b");
}

#[test]
fn test_round_trip() {
    let mut m = StoreMap::new();
    m.add("main".to_string(), "C:".to_string());
    m.add("d".to_string(), "C:\\Users\\me\\Desktop".to_string());
    m.add("x_1".to_string(), "a value with spaces".to_string());
    let text = serialize(&m);
    let back = parse_config(&text);
    assert_eq!(back.entries, m.entries);
}

#[test]
fn test_round_trip_empty() {
    let m = StoreMap::new();
    let text = serialize(&m);
    assert_eq!(text, "");
    let back = parse_config(&text);
    assert_eq!(back.entries, m.entries);
}

#[test]
fn test_add_no_clobber() {
    let mut m = StoreMap::new();
    m.add("k".to_string(), "v1".to_string());
    m.add("k".to_string(), "v2".to_string());
    assert_eq!(m.get("k"), Some("v1".to_string()));
    assert_eq!(m.len(), 1);
    assert_eq!(serialize(&m), "k = v1\n");
}

#[test]
fn test_remove_idempotent() {
    let mut m = StoreMap::new();
    m.add("a".to_string(), "1".to_string());
    m.add("b".to_string(), "2".to_string());
    let mut once = StoreMap::new();
    once.add("a".to_string(), "1".to_string());
    once.add("b".to_string(), "2".to_string());
    once.remove("a");
    m.remove("a");
    m.remove("a");
    assert_eq!(m.entries, once.entries);
    assert_eq!(serialize(&m), "b = 2\n");
}

#[test]
fn test_remove_absent_key_is_noop() {
    let mut m = StoreMap::new();
    m.add("a".to_string(), "1".to_string());
    m.remove("zzz");
    assert_eq!(serialize(&m), "a = 1\n");
}

#[test]
fn test_parse_ignores_malformed_lines() {
    let text = "main = C:\n\ngarbage line\nno separator here\nx = 1\n";
    let m = parse_config(text);
    assert_eq!(m.len(), 2);
    assert_eq!(m.get("main"), Some("C:".to_string()));
    assert_eq!(m.get("x"), Some("1".to_string()));
}

#[test]
fn test_parse_rejects_non_word_key() {
    let m = parse_config("a b = c\n");
    assert_eq!(m.len(), 0);
}

#[test]
fn test_parse_rejects_empty_key() {
    let m = parse_config(" = value\n");
    assert_eq!(m.len(), 0);
}

#[test]
fn test_unicode_word_key() {
    assert!(is_valid_key("caf\u{e9}"));
    assert!(is_valid_key("\u{624}\u{644}"));
    assert!(!is_valid_key("a\u{2026}b"));
    let mut config = ConfigManager::new("p".to_string());
    assert_eq!(config.set("caf\u{e9}", "a place"), Ok(()));
    assert_eq!(config.manager.content, "caf\u{e9} = a place\n");
    assert_eq!(config.read().get("caf\u{e9}"), Some("a place".to_string()));
}

#[test]
fn test_parse_duplicate_key_last_value_wins() {
    let m = parse_config("k = first\nk = second\n");
    assert_eq!(m.len(), 1);
    assert_eq!(m.get("k"), Some("second".to_string()));
}

#[test]
fn test_parse_empty_value() {
    let m = parse_config("k = \n");
    assert_eq!(m.get("k"), Some("".to_string()));
}

#[test]
fn test_is_valid_key() {
    assert!(is_valid_key("abc_123"));
    assert!(is_valid_key("A"));
    assert!(!is_valid_key(""));
    assert!(!is_valid_key("bad key"));
    assert!(!is_valid_key("no-dash"));
    assert!(!is_valid_key("[x]"));
}

#[test]
fn test_config_set_and_remove() {
    let mut config = ConfigManager::new("some/dir/".to_string());
    assert_eq!(config.set("d", "C:\\Users\\me\\Desktop"), Ok(()));
    assert_eq!(config.manager.content, "d = C:\\Users\\me\\Desktop\n");
    assert_eq!(config.set("main", "C:"), Ok(()));
    assert_eq!(config.manager.content, "d = C:\\Users\\me\\Desktop\nmain = C:\n");
    config.remove("d");
    assert_eq!(config.manager.content, "main = C:\n");
}

#[test]
fn test_config_set_present_key_keeps_file() {
    let mut config = ConfigManager::new("p".to_string());
    assert_eq!(config.set("k", "v1"), Ok(()));
    let before = config.manager.content.clone();
    assert_eq!(config.set("k", "v2"), Ok(()));
    assert_eq!(config.manager.content, before);
    assert_eq!(config.read().get("k"), Some("v1".to_string()));
}

#[test]
fn test_config_set_invalid_key_fails_and_changes_nothing() {
    let mut config = ConfigManager::new("p".to_string());
    assert_eq!(config.set("ok", "fine"), Ok(()));
    let before = config.manager.content.clone();
    let r = config.set("bad key", "value");
    assert_eq!(r, Err(StoreError::InvalidKey));
    assert_eq!(config.manager.content, before);
}

#[test]
fn test_config_list() {
    let mut config = ConfigManager::new("p".to_string());
    config.set("a", "1").unwrap();
    config.set("b", "2").unwrap();
    let entries = config.list();
    assert_eq!(
        entries,
        vec![("a".to_string(), "1".to_string()), ("b".to_string(), "2".to_string())]
    );
}
