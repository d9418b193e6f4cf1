use waypoints::expand::expand;
use waypoints::expand::expand_args;
use waypoints::expand::find_tokens;
use waypoints::expand::join_args;
use waypoints::expand::replace_all;
use waypoints::expand::rm_braces;
use waypoints::manager::FileManager;
use waypoints::manager::LogManager;
use waypoints::store::StoreError;
use waypoints::store::StoreMap;

#[test]
fn test_rm_braces() {
    assert_eq!(rm_braces("[abc]"), "abc");
    assert_eq!(rm_braces("[]"), "");
}

#[test]
fn test_find_tokens() {
    assert_eq!(find_tokens("go [d] now [rn]"), vec!["[d]", "[rn]"]);
    assert_eq!(find_tokens("no tokens here"), Vec::<String>::new());
    assert_eq!(find_tokens("[]"), vec!["[]"]);
    assert_eq!(find_tokens("[[a]]"), vec!["[a]"]);
    assert_eq!(find_tokens("[a b]"), Vec::<String>::new());
    assert_eq!(find_tokens("[x][y]"), vec!["[x]", "[y]"]);
}

#[test]
fn test_replace_all() {
    assert_eq!(replace_all("a[x]b[x]", "[x]", "Y"), "aYbY");
    assert_eq!(replace_all("nothing", "[x]", "Y"), "nothing");
    assert_eq!(replace_all("[x]", "[x]", ""), "");
}

#[test]
fn test_join_args() {
    let args = vec!["go".to_string(), "[d]".to_string(), "now".to_string()];
    assert_eq!(join_args(&args), "go [d] now");
    assert_eq!(join_args(&vec!["one".to_string()]), "one");
    assert_eq!(join_args(&Vec::new()), "");
}

#[test]
fn test_expand_no_tokens() {
    let store = StoreMap::new();
    assert_eq!(expand("hello world", &store), Ok("hello world".to_string()));
}

#[test]
fn test_escape_default() {
    let store = StoreMap::new();
    assert_eq!(expand("[rn]", &store), Ok("\r\n".to_string()));
}

#[test]
fn test_escape_overridden_by_store() {
    let mut store = StoreMap::new();
    store.add("rn".to_string(), "X".to_string());
    assert_eq!(expand("[rn]", &store), Ok("X".to_string()));
}

#[test]
fn test_unresolved_shortcut_fails() {
    let store = StoreMap::new();
    let r = expand("[bogus]", &store);
    assert_eq!(r, Err(StoreError::UnresolvedShortcut("bogus".to_string())));
}

#[test]
fn test_unresolved_reports_first_failing_key() {
    let mut store = StoreMap::new();
    store.add("a".to_string(), "1".to_string());
    let r = expand("[a] [nope] [worse]", &store);
    assert_eq!(r, Err(StoreError::UnresolvedShortcut("nope".to_string())));
}

#[test]
fn test_end_to_end_expansion() {
    let mut store = StoreMap::new();
    store.add("d".to_string(), "C:\\Users\\me\\Desktop".to_string());
    let args = vec!["go".to_string(), "[d]".to_string(), "now".to_string()];
    assert_eq!(join_args(&args), "go [d] now");
    assert_eq!(expand_args(&args, &store), Ok("go C:\\Users\\me\\Desktop now".to_string()));
}

#[test]
fn test_unicode_token_expands() {
    let mut store = StoreMap::new();
    store.add("caf\u{e9}".to_string(), "a place".to_string());
    assert_eq!(find_tokens("go [caf\u{e9}] now"), vec!["[caf\u{e9}]"]);
    assert_eq!(expand("go [caf\u{e9}] now", &store), Ok("go a place now".to_string()));
}

#[test]
fn test_repeated_token_replaced_everywhere() {
    let mut store = StoreMap::new();
    store.add("d".to_string(), "X".to_string());
    assert_eq!(expand("[d] and [d]", &store), Ok("X and X".to_string()));
}

#[test]
fn test_substitution_quirk_value_with_bracket_text() {
    let mut store = StoreMap::new();
    store.add("a".to_string(), "[b]".to_string());
    store.add("b".to_string(), "Z".to_string());
    assert_eq!(expand("[a] [b]", &store), Ok("Z Z".to_string()));
}

#[test]
fn test_values_are_not_recursively_expanded() {
    let mut store = StoreMap::new();
    store.add("a".to_string(), "[b]".to_string());
    store.add("c".to_string(), "ok".to_string());
    assert_eq!(expand("[a] [c]", &store), Ok("[b] ok".to_string()));
}

#[test]
fn test_file_manager_model() {
    let mut fm = FileManager::new("dir/".to_string(), "file.txt".to_string());
    assert_eq!(fm.get_path(), "dir/file.txt");
    assert_eq!(fm.read(), "");
    fm.rewrite_with("hello".to_string());
    assert_eq!(fm.read(), "hello");
    fm.append("world".to_string());
    assert_eq!(fm.read(), "hello\n\rworld");
}

#[test]
fn test_log_manager_path() {
    let lm = LogManager::new("dir/".to_string());
    assert_eq!(lm.get_path(), "dir/waypoints.logs.txt");
}
