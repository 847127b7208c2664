use skatos::entry::SkateEntry;
use skatos::env_gen::EnvGenerator;
use skatos::storage::{ErrorKind, Storage};

fn entry(key: &str, value: &str) -> SkateEntry {
    SkateEntry { key: key.to_string(), value: value.to_string() }
}

fn read_back(text: &str) -> String {
    if text.len() >= 2 && text.starts_with('"') && text.ends_with('"') {
        text[1..text.len() - 1].replace("\\\"", "\"")
    } else {
        text.to_string()
    }
}

fn shell_read(word: &str) -> Option<String> {
    let chars: Vec<char> = word.chars().collect();
    let mut out = String::new();
    let mut quoted = false;
    let mut i = 0;
    while i < chars.len() {
        let c = chars[i];
        if quoted {
            if c == '\'' {
                quoted = false;
            } else {
                out.push(c);
            }
            i += 1;
        } else if c == '\'' {
            quoted = true;
            i += 1;
        } else if c == '\\' && i + 1 < chars.len() {
            out.push(chars[i + 1]);
            i += 2;
        } else {
            return None;
        }
    }
    if quoted {
        None
    } else {
        Some(out)
    }
}

#[test]
fn env_text_of_two_keys_is_in_key_order() {
    let mut store = Storage::new();
    store.set("api_token", "xyz", None).unwrap();
    store.set("api-key", "abc", None).unwrap();
    let (text, count) = EnvGenerator::generate_env_file(&store, None);
    assert_eq!(text, "API_KEY=abc\nAPI_TOKEN=xyz");
    assert_eq!(count, 2);
}

#[test]
fn value_with_space_is_quoted() {
    let mut store = Storage::new();
    store.set("greeting", "hello world", None).unwrap();
    let (text, _) = EnvGenerator::generate_env_file(&store, None);
    assert_eq!(text, "GREETING=\"hello world\"");
}

#[test]
fn double_quotes_are_escaped() {
    let mut store = Storage::new();
    store.set("html", "<a href=\"x\">", None).unwrap();
    let (text, _) = EnvGenerator::generate_env_file(&store, None);
    assert_eq!(text, "HTML=\"<a href=\\\"x\\\">\"");
}

#[test]
fn export_escapes_single_quotes() {
    let mut store = Storage::new();
    store.set("secret", "it's fine", None).unwrap();
    let lines = EnvGenerator::export_shell(&store, None, None);
    assert_eq!(lines, vec!["export SECRET='it'\\''s fine'".to_string()]);
}

#[test]
fn quote_value_leaves_plain_values_bare() {
    assert_eq!(EnvGenerator::quote_value("abc"), "abc");
    assert_eq!(EnvGenerator::quote_value(""), "");
    assert_eq!(EnvGenerator::quote_value("a\\b'c"), "a\\b'c");
    assert_eq!(EnvGenerator::quote_value("tab\there"), "tab\there");
}

#[test]
fn quote_value_quotes_newlines_and_quotes() {
    assert_eq!(EnvGenerator::quote_value("a\nb"), "\"a\nb\"");
    assert_eq!(EnvGenerator::quote_value("\""), "\"\\\"\"");
    assert_eq!(EnvGenerator::quote_value(" "), "\" \"");
    assert_eq!(EnvGenerator::quote_value("say \"hi\" now"), "\"say \\\"hi\\\" now\"");
}

#[test]
fn quoting_can_be_read_back() {
    let values = ["", "plain", "two words", "\"", "\\\"", "a\"b\"c", "back\\slash x", "é \"ü\""];
    for v in values {
        assert_eq!(read_back(&EnvGenerator::quote_value(v)), v);
    }
}

#[test]
fn shell_escape_wraps_in_single_quotes() {
    assert_eq!(EnvGenerator::shell_escape(""), "''");
    assert_eq!(EnvGenerator::shell_escape("abc"), "'abc'");
    assert_eq!(EnvGenerator::shell_escape("'"), "''\\'''");
    assert_eq!(EnvGenerator::shell_escape("a'b'c"), "'a'\\''b'\\''c'");
    assert_eq!(EnvGenerator::shell_escape("$HOME \"x\"\n"), "'$HOME \"x\"\n'");
}

#[test]
fn shell_escape_is_read_back_by_a_shell_reader() {
    let values = ["", "it's fine", "''", "a\\b", "line\nbreak", "$(rm -rf) `x`", "'\\''"];
    for v in values {
        assert_eq!(shell_read(&EnvGenerator::shell_escape(v)), Some(v.to_string()));
    }
}

#[test]
fn normalize_key_folds_ascii_only() {
    assert_eq!(EnvGenerator::normalize_key("my-key name"), "MY_KEY_NAME");
    assert_eq!(EnvGenerator::normalize_key("caf\u{e9}"), "CAF\u{e9}");
    assert_eq!(EnvGenerator::normalize_key("a.b_c9"), "A.B_C9");
    assert_eq!(EnvGenerator::normalize_key("stra\u{df}e"), "STRA\u{df}E");
    assert_eq!(EnvGenerator::normalize_key(""), "");
}

#[test]
fn entries_to_env_format_joins_without_trailing_newline() {
    assert_eq!(EnvGenerator::entries_to_env_format(&[]), "");
    assert_eq!(EnvGenerator::entries_to_env_format(&[entry("a", "1")]), "A=1");
    let three = [entry("a", "1"), entry("b-c", "x y"), entry("d", "")];
    assert_eq!(EnvGenerator::entries_to_env_format(&three), "A=1\nB_C=\"x y\"\nD=");
}

#[test]
fn colliding_keys_keep_both_lines_in_order() {
    let two = [entry("api-key", "first"), entry("api_key", "second")];
    assert_eq!(EnvGenerator::entries_to_env_format(&two), "API_KEY=first\nAPI_KEY=second");
}

#[test]
fn filter_applies_to_the_stored_key() {
    let all = [entry("db-host", "h"), entry("DB-PORT", "1"), entry("db-user", "u"), entry("d", "x")];
    let kept = EnvGenerator::filter_entries(&all, Some("db-"));
    let keys: Vec<String> = kept.iter().map(|e| e.key.clone()).collect();
    assert_eq!(keys, vec!["db-host".to_string(), "db-user".to_string()]);
    assert_eq!(EnvGenerator::filter_entries(&all, None).len(), 4);
    assert_eq!(EnvGenerator::filter_entries(&all, Some("")).len(), 4);
    assert_eq!(EnvGenerator::filter_entries(&all, Some("db-hostname")).len(), 0);
}

#[test]
fn env_file_with_filter_counts_kept_entries() {
    let mut store = Storage::new();
    store.set("app-name", "x", None).unwrap();
    store.set("app-port", "80", Some("prod")).unwrap();
    store.set("other", "y", None).unwrap();
    let (text, count) = EnvGenerator::generate_env_file(&store, Some("app-"));
    assert_eq!(text, "APP_NAME=x\nAPP_PORT=80");
    assert_eq!(count, 2);
}

#[test]
fn preview_lines_join_to_the_env_text() {
    let mut store = Storage::new();
    store.set("b", "two words", None).unwrap();
    store.set("a", "1", None).unwrap();
    let lines = EnvGenerator::show_preview(&store, None);
    assert_eq!(lines, vec!["A=1".to_string(), "B=\"two words\"".to_string()]);
    let (text, _) = EnvGenerator::generate_env_file(&store, None);
    assert_eq!(lines.join("\n"), text);
    assert!(EnvGenerator::show_preview(&store, Some("zzz")).is_empty());
}

#[test]
fn env_from_one_database() {
    let mut store = Storage::new();
    store.set("k", "default", None).unwrap();
    store.set("k", "prod", Some("prod")).unwrap();
    store.set("z", "last", Some("prod")).unwrap();
    let (text, count) = EnvGenerator::generate_from_db(&store, "prod").unwrap();
    assert_eq!(text, "K=prod\nZ=last");
    assert_eq!(count, 2);
}

#[test]
fn env_from_unknown_database_is_not_found() {
    let mut store = Storage::new();
    store.set("k", "v", None).unwrap();
    assert_eq!(EnvGenerator::generate_from_db(&store, "nowhere"), Err(ErrorKind::NotFound));
}

#[test]
fn export_of_one_database_with_filter() {
    let mut store = Storage::new();
    store.set("a-1", "x", Some("prod")).unwrap();
    store.set("a-2", "y", None).unwrap();
    store.set("b", "z", Some("prod")).unwrap();
    let lines = EnvGenerator::export_shell(&store, Some("prod"), Some("a"));
    assert_eq!(lines, vec!["export A_1='x'".to_string()]);
    let all = EnvGenerator::export_shell(&store, None, None);
    assert_eq!(all.len(), 3);
}

#[test]
fn backup_then_restore_gives_the_same_default_database() {
    let mut store = Storage::new();
    store.set("one", "1", None).unwrap();
    store.set("two", "line\nbreak \"q\"", None).unwrap();
    store.set("three", "", None).unwrap();
    let backup = EnvGenerator::backup_to_file(&store);
    let mut fresh = Storage::new();
    let count = EnvGenerator::restore_from_file(&mut fresh, &backup);
    assert_eq!(count, 3);
    let before: Vec<(String, String)> =
        store.list(None).into_iter().map(|e| (e.key, e.value)).collect();
    let after: Vec<(String, String)> =
        fresh.list(None).into_iter().map(|e| (e.key, e.value)).collect();
    assert_eq!(before, after);
    assert_eq!(fresh.list_databases(), vec!["default".to_string()]);
}

#[test]
fn restore_collapses_other_databases_into_default() {
    let mut store = Storage::new();
    store.set("k", "from-default", None).unwrap();
    store.set("k", "from-prod", Some("prod")).unwrap();
    store.set("only", "x", Some("prod")).unwrap();
    let backup = EnvGenerator::backup_to_file(&store);
    let mut fresh = Storage::new();
    assert_eq!(EnvGenerator::restore_from_file(&mut fresh, &backup), 3);
    assert_eq!(fresh.list_databases(), vec!["default".to_string()]);
    assert_eq!(fresh.get("k", None), Some("from-prod".to_string()));
    assert_eq!(fresh.get("only", None), Some("x".to_string()));
}

#[test]
fn restore_passes_over_refused_entries() {
    let entries = [entry("good", "1"), entry("bad@key", "2"), entry("", "3"), entry("good", "4")];
    let mut store = Storage::new();
    assert_eq!(EnvGenerator::restore_from_file(&mut store, &entries), 2);
    assert_eq!(store.get("good", None), Some("4".to_string()));
    assert_eq!(store.list(None).len(), 1);
}
