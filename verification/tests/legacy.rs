use skatos::entry::SkateEntry;
use skatos::skate::Skate;
use skatos::storage::{ErrorKind, Storage};

fn pairs(entries: Vec<SkateEntry>) -> Vec<(String, String)> {
    entries.into_iter().map(|e| (e.key, e.value)).collect()
}

fn pair(k: &str, v: &str) -> (String, String) {
    (k.to_string(), v.to_string())
}

#[test]
fn listing_is_split_at_the_first_tab() {
    let out = "a\tb\nc@db\td\te\nno tab here\n\n\tempty key\nlast\t";
    assert_eq!(
        pairs(Skate::list(out)),
        vec![pair("a", "b"), pair("c@db", "d\te"), pair("", "empty key"), pair("last", "")]
    );
    assert!(Skate::list("").is_empty());
}

#[test]
fn lines_end_at_newline_or_carriage_return_newline() {
    assert_eq!(
        Skate::list_keys("one\r\ntwo\n\nthree"),
        vec!["one".to_string(), "two".to_string(), "".to_string(), "three".to_string()]
    );
    assert_eq!(Skate::list_keys("a\rb\n"), vec!["a\rb".to_string()]);
    assert_eq!(Skate::list_keys("\n"), vec!["".to_string()]);
    assert_eq!(Skate::list_dbs("default\nprod\n"), vec!["default".to_string(), "prod".to_string()]);
    assert!(Skate::list_dbs("").is_empty());
}

#[test]
fn qualified_key_is_split_at_the_last_at_sign() {
    assert_eq!(Skate::split_key("key@db"), ("db".to_string(), "key".to_string()));
    assert_eq!(Skate::split_key("key"), ("default".to_string(), "key".to_string()));
    assert_eq!(Skate::split_key("key@"), ("default".to_string(), "key".to_string()));
    assert_eq!(Skate::split_key("a@b@c"), ("c".to_string(), "a@b".to_string()));
    assert_eq!(Skate::split_key("@db"), ("db".to_string(), "".to_string()));
    assert_eq!(Skate::split_key(""), ("default".to_string(), "".to_string()));
}

#[test]
fn to_env_map_keeps_the_later_entry() {
    let entries = [
        SkateEntry { key: "a".to_string(), value: "1".to_string() },
        SkateEntry { key: "b".to_string(), value: "2".to_string() },
        SkateEntry { key: "a".to_string(), value: "3".to_string() },
    ];
    let map = Skate::to_env_map(&entries);
    assert_eq!(map.len(), 2);
    assert_eq!(map.get("a"), Some(&"3".to_string()));
    assert_eq!(map.get("b"), Some(&"2".to_string()));
    assert_eq!(map.get("c"), None);
    assert!(Skate::to_env_map(&[]).is_empty());
}

#[test]
fn import_stores_under_the_named_database() {
    let mut store = Storage::new();
    let out = "token@prod\tabc\nplain\tvalue one\nbroken line\nname@\tx\na@b@c\ty\n";
    assert_eq!(store.import_from_skate(Some(out)), Ok(3));
    assert_eq!(store.get("token", Some("prod")), Some("abc".to_string()));
    assert_eq!(store.get("plain", None), Some("value one".to_string()));
    assert_eq!(store.get("name", None), Some("x".to_string()));
    assert_eq!(store.get("a@b", Some("c")), None);
    assert_eq!(store.list(None).len(), 3);
}

#[test]
fn import_without_the_legacy_tool_fails() {
    let mut store = Storage::new();
    store.set("k", "v", None).unwrap();
    assert_eq!(store.import_from_skate(None), Err(ErrorKind::LegacyToolMissing));
    assert_eq!(store.list(None).len(), 1);
}

#[test]
fn import_of_an_empty_listing_stores_nothing() {
    let mut store = Storage::new();
    assert_eq!(store.import_from_skate(Some("")), Ok(0));
    assert!(store.list_databases().is_empty());
}

#[test]
fn import_replaces_existing_values() {
    let mut store = Storage::new();
    store.set("k", "old", Some("db")).unwrap();
    assert_eq!(store.import_from_skate(Some("k@db\tnew\nk@db\tnewer")), Ok(2));
    assert_eq!(store.get("k", Some("db")), Some("newer".to_string()));
}

#[test]
fn get_trims_white_space() {
    assert_eq!(Skate::get("value\n"), "value");
    assert_eq!(Skate::get("  two words \t\r\n"), "two words");
    assert_eq!(Skate::get("\u{a0}\u{2003}x\u{3000}\u{85}"), "x");
    assert_eq!(Skate::get(" \n "), "");
    assert_eq!(Skate::get(""), "");
    assert_eq!(Skate::get("\u{200b}x"), "\u{200b}x");
}

#[test]
fn get_agrees_with_trim() {
    let texts = ["a b", " a", "a ", "\u{1680}a\u{2028}\u{2029}", "\u{202f}\u{205f}", "\u{b}\u{c}z\u{1c}"];
    for t in texts {
        assert_eq!(Skate::get(t), t.trim());
    }
}

#[test]
fn skipped_lines_are_counted() {
    assert_eq!(Skate::skipped_lines("a\tb\nno tab\n\nc\td"), 2);
    assert_eq!(Skate::skipped_lines(""), 0);
    assert_eq!(Skate::skipped_lines("x\ty\n"), 0);
}
