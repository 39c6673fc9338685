use ramilang::keys::read_object_keys;

fn keys(content: &str) -> Vec<String> {
    read_object_keys(content)
}

#[test]
fn keys_come_in_the_order_in_which_they_are_written() {
    assert_eq!(
        keys("{\n  \"b\": \"1\",\n  \"a\": \"2\",\n  \"b\": \"3\"\n}\n"),
        vec!["b", "a", "b"]
    );
    assert_eq!(keys("{\"x\":\"1\",\"y\" \t:\"2\"}"), vec!["x", "y"]);
    assert_eq!(keys("{}"), Vec::<String>::new());
    assert_eq!(keys(""), Vec::<String>::new());
}

#[test]
fn brace_lines_and_values_name_no_key() {
    assert_eq!(keys("{\n\"{\": \"}\",\n\"a\": \"b: c\"\n}"), vec!["{", "a"]);
    assert_eq!(keys("{\"a\": \"x\\\": \\\"y\"}"), vec!["a"]);
}

#[test]
fn only_the_outermost_object_gives_keys() {
    assert_eq!(
        keys("{\"a\": {\"b\": \"1\"}, \"c\": [{\"d\": \"2\"}], \"e\": \"3\"}"),
        vec!["a", "c", "e"]
    );
    assert_eq!(keys("[{\"a\": \"1\"}]"), Vec::<String>::new());
    assert_eq!(keys("\"a\": \"1\""), Vec::<String>::new());
}

#[test]
fn escapes_are_resolved() {
    assert_eq!(
        keys("{\"\\\"\\\\\\/\\b\\f\\n\\r\\t\": \"\"}"),
        vec!["\"\\/\u{8}\u{c}\n\r\t"]
    );
    assert_eq!(keys("{\"\\u0041\\u00e9\\u20AC\": \"\"}"), vec!["Aé€"]);
    assert_eq!(keys("{\"x\\uD83D\\uDE00y\": \"\"}"), vec!["x\u{1F600}y"]);
    assert_eq!(keys("{\"a\\uD83Db\": \"\", \"c\\uDE00d\": \"\"}"), vec!["ab", "cd"]);
}

#[test]
fn keys_agree_with_the_parser_on_what_the_serializer_writes() {
    let samples = ["plain", "", "a:b", "{", "\"q\"", "back\\slash", "tab\there", "é€\u{1F600}", "\u{0}\u{1f}"];
    for key in samples {
        let mut map = std::collections::BTreeMap::new();
        map.insert(key.to_string(), "value".to_string());
        let text = serde_json::to_string_pretty(&map).unwrap();
        assert_eq!(keys(&text), vec![key.to_string()], "{:?}", text);
    }
}
