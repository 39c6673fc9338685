use ramilang::translation_file::{find_key_duplicates, TranslationFile, TranslationFileError};

fn dictionary(path: &str, entries: &[(&str, &str)]) -> TranslationFile {
    let mut file = TranslationFile::empty(path.to_string());
    for (key, value) in entries {
        file.upsert(key.to_string(), value.to_string());
    }
    file
}

fn pairs(entries: &[(&str, &str)]) -> Vec<(String, String)> {
    entries
        .iter()
        .map(|(k, v)| (k.to_string(), v.to_string()))
        .collect()
}

fn lines(text: &[&str]) -> Vec<String> {
    text.iter().map(|l| l.to_string()).collect()
}

#[test]
fn same_keys_and_non_empty_values_are_compatible() {
    let en = dictionary("en.json", &[("hello", "Hello"), ("bye", "Goodbye")]);
    let sv = dictionary("sv.json", &[("bye", "Hej då"), ("hello", "Hej")]);
    assert_eq!(en.is_compatible_with(&sv), Ok(()));
    assert_eq!(sv.is_compatible_with(&en), Ok(()));
    assert_eq!(en.check_rules(&sv), vec![]);
}

#[test]
fn empty_dictionaries_are_compatible() {
    let en = TranslationFile::empty("en.json".to_string());
    let sv = TranslationFile::empty("sv.json".to_string());
    assert_eq!(en.is_compatible_with(&sv), Ok(()));
}

#[test]
fn missing_key_is_reported_once_for_the_dictionary_that_has_it() {
    let en = dictionary("en.json", &[("a", "A"), ("k", "K"), ("z", "Z")]);
    let sv = dictionary("sv.json", &[("a", "A"), ("z", "Z")]);
    let expected = vec![TranslationFileError::MissingKey {
        key: "k".to_string(),
        missing_in: "sv.json".to_string(),
    }];
    assert_eq!(en.check_rules(&sv), expected);
    assert_eq!(sv.check_rules(&en), vec![]);
    assert_eq!(en.is_compatible_with(&sv), Err((expected, vec![])));
}

#[test]
fn empty_value_is_reported_on_both_sides() {
    let en = dictionary("en.json", &[("a", "A"), ("b", "")]);
    let sv = dictionary("sv.json", &[("a", "A"), ("b", "B")]);
    let empty = vec![TranslationFileError::EmptyValue("b".to_string())];
    assert_eq!(en.check_rules(&sv), empty);
    assert_eq!(sv.check_rules(&en), empty);
    assert_eq!(en.is_compatible_with(&sv), Err((empty.clone(), empty)));
}

#[test]
fn violations_come_in_ascending_key_order() {
    let en = dictionary("en.json", &[("c", ""), ("a", "A"), ("b", "B"), ("d", "D")]);
    let sv = dictionary("sv.json", &[("c", "C"), ("b", "B"), ("e", "E")]);
    assert_eq!(
        en.check_rules(&sv),
        vec![
            TranslationFileError::MissingKey {
                key: "a".to_string(),
                missing_in: "sv.json".to_string()
            },
            TranslationFileError::EmptyValue("c".to_string()),
            TranslationFileError::MissingKey {
                key: "d".to_string(),
                missing_in: "sv.json".to_string()
            },
        ]
    );
    assert_eq!(
        sv.check_rules(&en),
        vec![
            TranslationFileError::EmptyValue("c".to_string()),
            TranslationFileError::MissingKey {
                key: "e".to_string(),
                missing_in: "en.json".to_string()
            },
        ]
    );
}

#[test]
fn loading_a_repeated_key_fails_with_that_key() {
    let content = "{\n  \"x\": \"one\",\n  \"y\": \"two\",\n  \"x\": \"three\"\n}\n";
    let loaded = TranslationFile::new("en.json".to_string(), content);
    match loaded {
        Err(TranslationFileError::DuplicateKeys(path, keys)) => {
            assert_eq!(path, "en.json");
            assert_eq!(keys, vec!["x".to_string()]);
        }
        other => panic!("expected duplicate keys, got {:?}", other),
    }
}

#[test]
fn repeated_keys_are_listed_once_in_the_order_of_their_first_repeat() {
    let text = lines(&[
        "{",
        "  \"b\": \"1\",",
        "  \"a\": \"2\",",
        "",
        "  \"a\" : \"3\",",
        "\t\"b\": \"4\",",
        "  \"c\": \"5\",",
        "  \"a\": \"6\"",
        "}",
    ]);
    assert_eq!(
        find_key_duplicates(&text.join("\n")),
        vec!["a".to_string(), "b".to_string()]
    );
}

#[test]
fn no_repeated_keys_in_a_plain_file() {
    let text = lines(&["{", "  \"a\": \"x: y\",", "   ", "  \"b\": \"a\"", "}"]);
    assert_eq!(find_key_duplicates(&text.join("\n")), Vec::<String>::new());
}

#[test]
fn loading_reads_the_entries() {
    let content = "{\n  \"zeta\": \"Z\",\n  \"alpha\": \"A \\\"quoted\\\"\",\n  \"mid\": \"\"\n}";
    let file = TranslationFile::new("en.json".to_string(), content).unwrap();
    assert_eq!(file.path(), "en.json");
    assert_eq!(
        file.entries(),
        &pairs(&[("alpha", "A \"quoted\""), ("mid", ""), ("zeta", "Z")])
    );
    assert_eq!(file.len(), 3);
    assert_eq!(file.get("alpha"), Some(&"A \"quoted\"".to_string()));
    assert_eq!(file.get("missing"), None);
    assert!(file.contains_key("mid"));
    assert!(!file.contains_key("Mid"));
}

#[test]
fn try_new_tells_invalid_json_apart() {
    assert!(TranslationFile::try_new("en.json".to_string(), "not json").is_none());
    assert!(TranslationFile::try_new("en.json".to_string(), "{\"a\": 1}").is_none());
    let loaded = TranslationFile::try_new("en.json".to_string(), "{\"a\": \"1\"}");
    assert_eq!(
        loaded.unwrap().unwrap().entries(),
        &pairs(&[("a", "1")])
    );
    let repeated = TranslationFile::try_new("en.json".to_string(), "{\"a\": \"1\"\n\"a\": \"2\"");
    match repeated {
        Some(Err(TranslationFileError::DuplicateKeys(_, keys))) => {
            assert_eq!(keys, vec!["a".to_string()])
        }
        other => panic!("expected duplicate keys, got {:?}", other),
    }
}

#[test]
fn upsert_keeps_keys_sorted_and_unique() {
    let mut file = TranslationFile::empty("en.json".to_string());
    file.upsert("m".to_string(), "1".to_string());
    file.upsert("a".to_string(), "2".to_string());
    file.upsert("z".to_string(), "3".to_string());
    file.upsert("ma".to_string(), "4".to_string());
    file.upsert("m".to_string(), "5".to_string());
    file.upsert("Z".to_string(), "6".to_string());
    file.upsert("é".to_string(), "7".to_string());
    assert_eq!(
        file.entries(),
        &pairs(&[
            ("Z", "6"),
            ("a", "2"),
            ("m", "5"),
            ("ma", "4"),
            ("z", "3"),
            ("é", "7")
        ])
    );
    assert_eq!(file.get("m"), Some(&"5".to_string()));
}

#[test]
fn write_sorts_keys_and_pretty_prints() {
    let file = dictionary("en.json", &[("b", "B"), ("a", "A")]);
    assert_eq!(
        file.write().unwrap(),
        "{\n  \"a\": \"A\",\n  \"b\": \"B\"\n}"
    );
    let empty = TranslationFile::empty("en.json".to_string());
    assert_eq!(empty.write().unwrap(), "{}");
}

#[test]
fn saving_and_reloading_gives_the_same_entries() {
    let file = dictionary(
        "en.json",
        &[
            ("title", "A \"title\": here"),
            ("body", "line\nbreak"),
            ("åäö", "Sjö"),
            ("empty", ""),
        ],
    );
    let text = file.write().unwrap();
    let again = TranslationFile::new("en.json".to_string(), &text).unwrap();
    assert_eq!(again.entries(), file.entries());
    assert_eq!(again.write().unwrap(), text);
    let positions: Vec<usize> = ["\"body\"", "\"empty\"", "\"title\"", "\"åäö\""]
        .iter()
        .map(|key| text.find(key).unwrap())
        .collect();
    assert!(positions.windows(2).all(|w| w[0] < w[1]));
}

#[test]
fn keys_that_share_the_text_before_a_colon_are_different_keys() {
    let file = dictionary("en.json", &[("a:b", "1"), ("a:c", "2")]);
    let text = file.write().unwrap();
    let again = TranslationFile::new("en.json".to_string(), &text).unwrap();
    assert_eq!(again.entries(), file.entries());
}

#[test]
fn keys_of_braces_quotes_and_escapes_survive_a_round_trip() {
    let file = dictionary(
        "en.json",
        &[
            ("{", "open"),
            ("}", "close"),
            ("\"", "quote"),
            ("a\\", "backslash"),
            ("a\nb", "line feed"),
            ("\u{1}", "control"),
            ("\u{1F600}", "outside the basic plane"),
            ("", "empty"),
            ("k", "v: \"w\": x"),
        ],
    );
    let text = file.write().unwrap();
    assert_eq!(find_key_duplicates(&text), Vec::<String>::new());
    let again = TranslationFile::new("en.json".to_string(), &text).unwrap();
    assert_eq!(again.entries(), file.entries());
}

#[test]
fn from_entries_sorts_and_keeps_the_later_value() {
    let file = TranslationFile::from_entries(
        "en.json".to_string(),
        pairs(&[("b", "1"), ("a", "2"), ("b", "3"), ("c", "4")]),
    );
    assert_eq!(file.path(), "en.json");
    assert_eq!(file.entries(), &pairs(&[("a", "2"), ("b", "3"), ("c", "4")]));
}

#[test]
fn from_entries_keeps_sorted_entries_as_they_are() {
    let sorted = pairs(&[("A", "1"), ("a", ""), ("aa", "3"), ("b", "4")]);
    let file = TranslationFile::from_entries("en.json".to_string(), sorted.clone());
    assert_eq!(file.entries(), &sorted);
    let again = TranslationFile::from_entries("en.json".to_string(), file.entries().clone());
    assert_eq!(again.entries(), file.entries());
}

#[test]
fn a_key_repeated_on_one_line_fails_the_load() {
    let content = "{\"a\": \"1\", \"b\": \"2\", \"a\": \"3\"}";
    let loaded = TranslationFile::new("en.json".to_string(), content);
    assert_eq!(
        loaded.err(),
        Some(TranslationFileError::DuplicateKeys(
            "en.json".to_string(),
            vec!["a".to_string()]
        ))
    );
}

#[test]
fn a_key_written_with_and_without_escapes_is_one_key() {
    let content = "{\n  \"ab\": \"1\",\n  \"a\\u0062\": \"2\",\n  \"\\ud83d\\uDE00\": \"3\",\n  \"\u{1F600}\": \"4\"\n}";
    assert_eq!(
        find_key_duplicates(content),
        vec!["ab".to_string(), "\u{1F600}".to_string()]
    );
}

#[test]
fn values_and_nested_strings_are_no_keys() {
    let content = "{\"a\": \"b\", \"b\": \"a\", \"c\": {\"a\": \"x\"}, \"d\": [\"a\", \"a\"]}";
    assert_eq!(find_key_duplicates(content), Vec::<String>::new());
    assert_eq!(find_key_duplicates(""), Vec::<String>::new());
    assert_eq!(find_key_duplicates("\"a\": 1, \"a\": 2"), Vec::<String>::new());
}

#[test]
fn lookups_find_every_key_of_a_larger_dictionary() {
    let mut file = TranslationFile::empty("en.json".to_string());
    for i in 0..200 {
        let n = (i * 37) % 200;
        file.upsert(format!("key_{:03}", n), format!("value {}", n));
    }
    assert_eq!(file.len(), 200);
    for n in 0..200 {
        assert_eq!(
            file.get(&format!("key_{:03}", n)),
            Some(&format!("value {}", n))
        );
    }
    assert_eq!(file.get("key_200"), None);
    assert_eq!(file.get(""), None);
    assert_eq!(file.get("key_0995"), None);
    let keys: Vec<&String> = file.entries().iter().map(|e| &e.0).collect();
    assert!(keys.windows(2).all(|w| w[0] < w[1]));
}

#[test]
fn clone_keeps_identity_and_entries() {
    let file = dictionary("en.json", &[("b", "B"), ("a", "A")]);
    let copy = file.clone();
    assert_eq!(copy.path(), file.path());
    assert_eq!(copy.entries(), file.entries());
}
