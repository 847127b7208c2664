use skatos::persist::{lock_action, lock_file, store_dir, store_file, temp_file, LockAction};
use skatos::names::{is_valid_name, is_valid_value};
use skatos::storage::{ErrorKind, Storage};

fn pairs(store: &Storage, db: Option<&str>) -> Vec<(String, String)> {
    store.list(db).into_iter().map(|e| (e.key, e.value)).collect()
}

fn pair(k: &str, v: &str) -> (String, String) {
    (k.to_string(), v.to_string())
}

#[test]
fn set_then_get() {
    let mut store = Storage::new();
    assert_eq!(store.set("foo", "bar", None), Ok(()));
    assert_eq!(store.get("foo", None), Some("bar".to_string()));
}

#[test]
fn get_returns_the_last_value_set() {
    let mut store = Storage::new();
    store.set("k", "v1", None).unwrap();
    store.set("k", "other", Some("prod")).unwrap();
    store.set("k", "v2", None).unwrap();
    store.set("j", "x", None).unwrap();
    assert_eq!(store.get("k", None), Some("v2".to_string()));
    assert_eq!(store.get("k", Some("prod")), Some("other".to_string()));
    assert_eq!(store.get("k", Some("default")), Some("v2".to_string()));
    assert_eq!(pairs(&store, Some("default")).len(), 2);
}

#[test]
fn get_of_a_missing_key_is_none() {
    let mut store = Storage::new();
    assert_eq!(store.get("k", None), None);
    store.set("k", "v", Some("prod")).unwrap();
    assert_eq!(store.get("k", None), None);
    assert_eq!(store.get("K", Some("prod")), None);
}

#[test]
fn delete_then_get_and_delete_again() {
    let mut store = Storage::new();
    store.set("k", "v", None).unwrap();
    store.set("k", "w", Some("prod")).unwrap();
    assert!(store.delete("k", None));
    assert_eq!(store.get("k", None), None);
    assert!(!store.delete("k", None));
    assert_eq!(store.get("k", Some("prod")), Some("w".to_string()));
}

#[test]
fn values_come_back_unchanged() {
    let mut store = Storage::new();
    let value = " a\tb\r\n\"q\" 'z' \\ \u{0} \u{e9}\u{1f6f9} ";
    store.set("k", value, None).unwrap();
    assert_eq!(store.get("k", None), Some(value.to_string()));
}

#[test]
fn list_is_ordered_by_key_then_database() {
    let mut store = Storage::new();
    store.set("b", "1", Some("zeta")).unwrap();
    store.set("a", "2", Some("zeta")).unwrap();
    store.set("b", "3", Some("alpha")).unwrap();
    store.set("B", "4", None).unwrap();
    store.set("ab", "5", None).unwrap();
    assert_eq!(
        pairs(&store, None),
        vec![pair("B", "4"), pair("a", "2"), pair("ab", "5"), pair("b", "3"), pair("b", "1")]
    );
    assert_eq!(pairs(&store, Some("zeta")), vec![pair("a", "2"), pair("b", "1")]);
    assert_eq!(pairs(&store, Some("none")), Vec::<(String, String)>::new());
}

#[test]
fn list_orders_by_code_point() {
    let mut store = Storage::new();
    store.set("\u{e9}", "1", None).unwrap();
    store.set("z", "2", None).unwrap();
    store.set("\u{1f6f9}", "3", None).unwrap();
    store.set("\u{ffff}", "4", None).unwrap();
    assert_eq!(
        store.list_keys(None),
        vec!["z".to_string(), "\u{e9}".to_string(), "\u{ffff}".to_string(), "\u{1f6f9}".to_string()]
    );
}

#[test]
fn list_keys_follows_list() {
    let mut store = Storage::new();
    store.set("b", "1", Some("x")).unwrap();
    store.set("a", "2", None).unwrap();
    store.set("b", "3", None).unwrap();
    assert_eq!(store.list_keys(None), vec!["a".to_string(), "b".to_string(), "b".to_string()]);
    assert_eq!(store.list_keys(Some("x")), vec!["b".to_string()]);
}

#[test]
fn list_databases_is_sorted_without_duplicates() {
    let mut store = Storage::new();
    assert!(store.list_databases().is_empty());
    store.set("a", "1", Some("zeta")).unwrap();
    store.set("b", "1", Some("alpha")).unwrap();
    store.set("c", "1", Some("zeta")).unwrap();
    store.set("d", "1", None).unwrap();
    store.set("e", "1", Some("Beta")).unwrap();
    let names = store.list_databases();
    assert_eq!(
        names,
        vec!["Beta".to_string(), "alpha".to_string(), "default".to_string(), "zeta".to_string()]
    );
    assert_eq!(store.list_databases(), names);
}

#[test]
fn a_database_disappears_with_its_last_entry() {
    let mut store = Storage::new();
    store.set("a", "1", Some("prod")).unwrap();
    store.set("b", "2", Some("prod")).unwrap();
    assert!(store.delete("a", Some("prod")));
    assert_eq!(store.list_databases(), vec!["prod".to_string()]);
    assert!(store.delete("b", Some("prod")));
    assert!(store.list_databases().is_empty());
}

#[test]
fn invalid_names_are_refused() {
    let mut store = Storage::new();
    assert_eq!(store.set("", "v", None), Err(ErrorKind::InvalidName));
    assert_eq!(store.set("a@b", "v", None), Err(ErrorKind::InvalidName));
    assert_eq!(store.set("a\u{0}b", "v", None), Err(ErrorKind::InvalidName));
    assert_eq!(store.set("k", "v", Some("")), Err(ErrorKind::InvalidName));
    assert_eq!(store.set("k", "v", Some("x@y")), Err(ErrorKind::InvalidName));
    assert_eq!(store.set(&"k".repeat(513), "v", None), Err(ErrorKind::InvalidName));
    assert_eq!(store.set(&"\u{e9}".repeat(257), "v", None), Err(ErrorKind::InvalidName));
    assert!(store.list(None).is_empty());
    assert_eq!(store.set(&"k".repeat(512), "v", None), Ok(()));
    assert_eq!(store.set(&"\u{e9}".repeat(256), "v", Some(&"d".repeat(512))), Ok(()));
}

#[test]
fn too_large_values_are_refused() {
    let mut store = Storage::new();
    let limit = "v".repeat(1048576);
    let over = "v".repeat(1048577);
    assert_eq!(store.set("k", &over, None), Err(ErrorKind::ValueTooLarge));
    assert_eq!(store.get("k", None), None);
    assert_eq!(store.set("k", &limit, None), Ok(()));
    assert_eq!(store.set("", &over, None), Err(ErrorKind::InvalidName));
}

#[test]
fn a_refused_set_keeps_the_old_value() {
    let mut store = Storage::new();
    store.set("k", "old", None).unwrap();
    assert_eq!(store.set("k", &"v".repeat(1048577), None), Err(ErrorKind::ValueTooLarge));
    assert_eq!(store.get("k", None), Some("old".to_string()));
}

#[test]
fn name_and_value_checks() {
    assert!(is_valid_name("plain name-1"));
    assert!(!is_valid_name(""));
    assert!(!is_valid_name("@"));
    assert!(is_valid_value(""));
    assert!(is_valid_value(&"\u{1f6f9}".repeat(262144)));
    assert!(!is_valid_value(&"\u{1f6f9}".repeat(262145)));
}

#[test]
fn exit_codes() {
    assert_eq!(ErrorKind::InvalidName.exit_code(), 2);
    assert_eq!(ErrorKind::ValueTooLarge.exit_code(), 2);
    assert_eq!(ErrorKind::NotFound.exit_code(), 1);
    assert_eq!(ErrorKind::IoError.exit_code(), 1);
    assert_eq!(ErrorKind::CorruptStore.exit_code(), 3);
    assert_eq!(ErrorKind::LockTimeout.exit_code(), 1);
    assert_eq!(ErrorKind::LegacyToolMissing.exit_code(), 4);
}

#[test]
fn store_directory_precedence() {
    assert_eq!(store_dir(Some("/s"), Some("/c"), Some("/h")), Some("/s".to_string()));
    assert_eq!(store_dir(None, Some("/c"), Some("/h")), Some("/c/skatos".to_string()));
    assert_eq!(store_dir(None, None, Some("/h")), Some("/h/.skatos".to_string()));
    assert_eq!(store_dir(None, None, None), None);
}

#[test]
fn store_file_names() {
    assert_eq!(store_file("/d"), "/d/store.json");
    assert_eq!(lock_file("/d"), "/d/store.lock");
    assert_eq!(temp_file("/d"), "/d/store.json.tmp");
}

#[test]
fn lock_steps() {
    assert_eq!(lock_action(false, false, 0, 0), LockAction::Acquire);
    assert_eq!(lock_action(false, true, 100, 9000), LockAction::Acquire);
    assert_eq!(lock_action(true, false, 61, 0), LockAction::TakeOverStale);
    assert_eq!(lock_action(true, false, 60, 0), LockAction::Wait);
    assert_eq!(lock_action(true, true, 600, 4999), LockAction::Wait);
    assert_eq!(lock_action(true, true, 600, 5000), LockAction::GiveUp);
    assert_eq!(lock_action(true, false, 60, 5000), LockAction::GiveUp);
}

#[test]
fn listing_does_not_depend_on_the_order_of_writes() {
    let mut one = Storage::new();
    one.set("a", "1", None).unwrap();
    one.set("b", "2", Some("x")).unwrap();
    one.set("c", "3", None).unwrap();
    let mut two = Storage::new();
    two.set("c", "0", None).unwrap();
    two.set("gone", "0", Some("x")).unwrap();
    two.set("b", "2", Some("x")).unwrap();
    two.set("c", "3", None).unwrap();
    two.set("a", "1", None).unwrap();
    assert!(two.delete("gone", Some("x")));
    assert_eq!(pairs(&one, None), pairs(&two, None));
    assert_eq!(one.list_databases(), two.list_databases());
}

#[test]
fn load_takes_triples_and_later_ones_count() {
    let t = |d: &str, k: &str, v: &str| (d.to_string(), k.to_string(), v.to_string());
    let records = vec![t("prod", "k", "1"), t("default", "k", "2"), t("prod", "k", "3")];
    let store = Storage::load(&records).unwrap();
    assert_eq!(store.get("k", Some("prod")), Some("3".to_string()));
    assert_eq!(store.get("k", None), Some("2".to_string()));
    assert_eq!(store.list(None).len(), 2);
    assert!(Storage::load(&[]).unwrap().list(None).is_empty());
}

#[test]
fn load_refuses_an_invalid_triple() {
    let t = |d: &str, k: &str, v: &str| (d.to_string(), k.to_string(), v.to_string());
    let records = vec![t("prod", "k", "1"), t("pr@d", "k", "2")];
    assert_eq!(Storage::load(&records).err(), Some(ErrorKind::CorruptStore));
    assert_eq!(Storage::load(&[t("d", "", "v")]).err(), Some(ErrorKind::CorruptStore));
}
