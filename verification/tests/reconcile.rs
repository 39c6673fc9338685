use ramilang::reconcile::{invalid_usages, is_used, parse_ignore_list, reconcile, unused_keys};
use ramilang::translation_file::TranslationFile;
use ramilang::ts_file::KeyUsage;

fn defined(keys: &[&str]) -> TranslationFile {
    let mut file = TranslationFile::empty("en.json".to_string());
    for key in keys {
        file.upsert(key.to_string(), format!("value of {}", key));
    }
    file
}

fn usage(key: &str, line: usize) -> KeyUsage {
    KeyUsage {
        key: key.to_string(),
        line,
        file_path: "src/app.tsx".to_string(),
    }
}

#[test]
fn reconcile_with_ignored_key() {
    let dictionary = defined(&["a", "b", "c"]);
    let usages = vec![usage("a", 1), usage("b", 2), usage("d", 3)];
    let ignore = vec!["c".to_string()];
    assert_eq!(invalid_usages(&dictionary, &usages), vec![usage("d", 3)]);
    assert_eq!(unused_keys(&dictionary, &usages, &ignore), vec![]);
}

#[test]
fn reconcile_without_ignore_list() {
    let dictionary = defined(&["a", "b", "c"]);
    let usages = vec![usage("a", 1), usage("b", 2), usage("d", 3)];
    assert_eq!(
        unused_keys(&dictionary, &usages, &vec![]),
        vec![("c".to_string(), "value of c".to_string())]
    );
    let report = reconcile(&dictionary, &usages, &vec![]);
    assert_eq!(report.invalid_usages, vec![usage("d", 3)]);
    assert_eq!(
        report.unused_keys,
        vec![("c".to_string(), "value of c".to_string())]
    );
    assert!(!report.is_success());
}

#[test]
fn invalid_usages_are_reported_for_each_site() {
    let dictionary = defined(&["a"]);
    let usages = vec![usage("x", 4), usage("a", 5), usage("x", 9), usage("y", 9)];
    assert_eq!(
        invalid_usages(&dictionary, &usages),
        vec![usage("x", 4), usage("x", 9), usage("y", 9)]
    );
}

#[test]
fn unused_keys_come_once_in_key_order() {
    let dictionary = defined(&["d", "b", "a", "c"]);
    let usages = vec![usage("c", 1), usage("c", 2)];
    let ignore = vec!["zzz".to_string(), "a".to_string()];
    assert_eq!(
        unused_keys(&dictionary, &usages, &ignore),
        vec![
            ("b".to_string(), "value of b".to_string()),
            ("d".to_string(), "value of d".to_string())
        ]
    );
}

#[test]
fn clean_run_succeeds() {
    let dictionary = defined(&["a", "b"]);
    let usages = vec![usage("b", 1), usage("a", 2), usage("a", 3)];
    let report = reconcile(&dictionary, &usages, &vec![]);
    assert!(report.is_success());
    assert!(is_used(&usages, &"a".to_string()));
    assert!(!is_used(&usages, &"c".to_string()));
}

#[test]
fn ignore_list_is_trimmed_and_blank_lines_are_dropped() {
    let content = "  first \n\n\tsecond\r\n   \nthird key\n";
    assert_eq!(
        parse_ignore_list(content),
        vec![
            "first".to_string(),
            "second".to_string(),
            "third key".to_string()
        ]
    );
    assert_eq!(parse_ignore_list(""), Vec::<String>::new());
}
