use ramilang::ts_file::{extract_id, extract_quoted_string, scan_line, KeyUsage, ScanState, TSFile};

fn usage(key: &str, line: usize, path: &str) -> KeyUsage {
    KeyUsage {
        key: key.to_string(),
        line,
        file_path: path.to_string(),
    }
}

/// A component in which `formatMessage(` carries its key on line 20 and two
/// `<FormattedMessage` tags carry theirs on lines 22 and 23.
fn component_source() -> String {
    let lines = [
        "import React from 'react';",
        "import { FormattedMessage, useIntl } from 'react-intl';",
        "",
        "type Props = {",
        "    title: string;",
        "    count: number;",
        "};",
        "",
        "export const Component = (props: Props) => {",
        "    const intl = useIntl();",
        "",
        "    if (props.count === 0) {",
        "        return null;",
        "    }",
        "",
        "    return (",
        "        <div>",
        "            <h1>{props.title}</h1>",
        "            <span>",
        "                {intl.formatMessage({ id: \"name\" })}",
        "            </span>",
        "            <FormattedMessage id=\"name\" />",
        "            <FormattedMessage id=\"name\" defaultMessage=\"Name\" />",
        "        </div>",
        "    );",
        "};",
    ];
    lines.join("\n")
}

#[test]
fn test_find_format_message_usages() {
    let path = "test_files/component.tsx";
    let ts_file = TSFile::new(path, &component_source());
    let actual = ts_file.find_format_message_usages();
    let expected = vec![usage("name", 20, path)];
    assert_eq!(expected, actual);
}

#[test]
fn test_find_formatted_message_usages() {
    let path = "test_files/component.tsx";
    let ts_file = TSFile::new(path, &component_source());
    let actual = ts_file.find_formatted_message_usages();
    let expected = vec![usage("name", 22, path), usage("name", 23, path)];
    assert_eq!(expected, actual);
}

#[test]
fn test_extract_id_colon() {
    let input = r#"translationId: "some_id""#;
    let expected = "some_id".to_string();
    let actual = extract_id(input, "translationId: ").unwrap();
    assert_eq!(expected, actual);
}

#[test]
fn test_extract_id_equals() {
    let input = r#"translationId="some_id""#;
    let expected = "some_id".to_string();
    let actual = extract_id(input, "translationId=").unwrap();
    assert_eq!(expected, actual);
}

#[test]
fn test_extract_id_braces() {
    let input = r#"translationId={"some_id"}"#;
    let expected = "some_id".to_string();
    let actual = extract_id(input, "translationId=").unwrap();
    assert_eq!(expected, actual);
}

#[test]
fn extract_id_without_marker_is_none() {
    assert_eq!(extract_id(r#"title="some_id""#, "translationId="), None);
}

#[test]
fn extract_id_without_closing_quote_is_none() {
    assert_eq!(extract_id(r#"id="some_id"#, "id="), None);
    assert_eq!(extract_id("id={someVariable}", "id="), None);
    assert_eq!(extract_id("id=", "id="), None);
}

#[test]
fn extract_id_uses_first_marker_and_first_quotes() {
    assert_eq!(
        extract_id(r#"x id= {  "first" } id="second""#, "id="),
        Some("first".to_string())
    );
    assert_eq!(extract_id(r#"id="""#, "id="), Some(String::new()));
    assert_eq!(
        extract_id(r#""before" id="after""#, "id="),
        Some("after".to_string())
    );
}

#[test]
fn extract_id_handles_non_ascii_text() {
    assert_eq!(
        extract_id("é→ id=\"nyckel_åäö\" ✓", "id="),
        Some("nyckel_åäö".to_string())
    );
}

#[test]
fn extract_quoted_string_takes_first_pair() {
    assert_eq!(
        extract_quoted_string(r#"cond ? "yes_key" : "no_key""#),
        Some("yes_key".to_string())
    );
    assert_eq!(extract_quoted_string("no quotes here"), None);
    assert_eq!(extract_quoted_string(r#"only "one"#), None);
}

#[test]
fn scan_single_line_tag() {
    let file = TSFile::new("a.tsx", r#"<FormattedMessage id="greeting" />"#);
    assert_eq!(
        file.find_formatted_message_usages(),
        vec![usage("greeting", 1, "a.tsx")]
    );
}

#[test]
fn scan_tag_over_three_lines() {
    let file = TSFile::new("a.tsx", "<FormattedMessage\n  id=\"greeting\"\n/>");
    assert_eq!(
        file.find_formatted_message_usages(),
        vec![usage("greeting", 2, "a.tsx")]
    );
}

#[test]
fn scan_ternary_over_two_lines() {
    let source = "<FormattedMessage\n  id={\n    cond ? \"yes_key\"\n    : \"no_key\"\n  }\n/>";
    let file = TSFile::new("a.tsx", source);
    assert_eq!(
        file.find_formatted_message_usages(),
        vec![usage("yes_key", 3, "a.tsx"), usage("no_key", 4, "a.tsx")]
    );
}

#[test]
fn scan_abandons_at_closing_token() {
    let source = "<FormattedMessage {...props}\n/>\nconst id=\"not_a_usage\";";
    let file = TSFile::new("a.tsx", source);
    assert_eq!(file.find_formatted_message_usages(), Vec::<KeyUsage>::new());
}

#[test]
fn scan_does_not_resynchronize_on_blank_lines() {
    let source = "formatMessage(\n\n\n  { id: \"late\" })";
    let file = TSFile::new("a.ts", source);
    assert_eq!(
        file.find_format_message_usages(),
        vec![usage("late", 4, "a.ts")]
    );
}

#[test]
fn scan_is_repeatable() {
    let file = TSFile::new("a.tsx", &component_source());
    assert_eq!(
        file.find_formatted_message_usages(),
        file.find_formatted_message_usages()
    );
    assert_eq!(file.find_misc_usages(), file.find_misc_usages());
}

#[test]
fn scan_skips_unreadable_lines_but_counts_them() {
    let lines = vec![
        Some("<FormattedMessage".to_string()),
        None,
        Some("id=\"greeting\"".to_string()),
    ];
    let file = TSFile::from_lines("a.tsx".to_string(), lines);
    assert_eq!(
        file.find_formatted_message_usages(),
        vec![usage("greeting", 3, "a.tsx")]
    );
}

#[test]
fn scan_handles_carriage_returns() {
    let file = TSFile::new("a.tsx", "<FormattedMessage\r\n  id=\"greeting\"\r\n/>\r\n");
    assert_eq!(file.lines.len(), 3);
    assert_eq!(file.lines[0], Some("<FormattedMessage".to_string()));
    assert_eq!(
        file.find_formatted_message_usages(),
        vec![usage("greeting", 2, "a.tsx")]
    );
}

#[test]
fn misc_usages_follow_marker_order_within_a_line() {
    let source = "const a = { titleId=\"t\", translationId: \"x\" };\nfoo({ transId: \"y\" })\npageTitleId={\"p\"} translationKey: \"k\"";
    let file = TSFile::new("m.ts", source);
    assert_eq!(
        file.find_misc_usages(),
        vec![
            usage("x", 1, "m.ts"),
            usage("t", 1, "m.ts"),
            usage("y", 2, "m.ts"),
            usage("k", 3, "m.ts"),
            usage("p", 3, "m.ts"),
        ]
    );
}

#[test]
fn multiple_tags_with_custom_markers() {
    let file = TSFile::new("m.ts", "label: \"a\" name: \"b\"\nname: \"c\"");
    assert_eq!(
        file.find_usages_multiple_tags(&["name:", "label:"]),
        vec![usage("b", 1, "m.ts"), usage("a", 1, "m.ts"), usage("c", 2, "m.ts")]
    );
}

#[test]
fn scan_line_transitions() {
    let open = "<FormattedMessage";
    let id = "id=";
    let idle = ScanState::Idle;
    let waiting = ScanState::AwaitingIdentifier { ternary: false };
    let branching = ScanState::AwaitingIdentifier { ternary: true };
    assert_eq!(scan_line(idle, "id=\"x\"", open, id), (idle, None));
    assert_eq!(scan_line(idle, "<FormattedMessage", open, id), (waiting, None));
    assert_eq!(
        scan_line(waiting, "id=\"x\"", open, id),
        (idle, Some("x".to_string()))
    );
    assert_eq!(
        scan_line(waiting, "cond ? \"yes\"", open, id),
        (branching, Some("yes".to_string()))
    );
    assert_eq!(scan_line(waiting, "cond ?", open, id), (branching, None));
    assert_eq!(
        scan_line(branching, ": \"no\"", open, id),
        (idle, Some("no".to_string()))
    );
    assert_eq!(scan_line(waiting, ": \"no\"", open, id), (waiting, None));
    assert_eq!(scan_line(waiting, "/>", open, id), (idle, None));
    assert_eq!(scan_line(waiting, "</FormattedMessage>", open, id), (idle, None));
    assert_eq!(scan_line(waiting, "values={values}", open, id), (waiting, None));
}

#[test]
fn one_line_may_serve_several_idioms() {
    let source = "<FormattedMessage id=\"a\" /> {formatMessage({ id: \"b\" })} titleId=\"c\"";
    let file = TSFile::new("a.tsx", source);
    assert_eq!(
        file.find_formatted_message_usages(),
        vec![usage("a", 1, "a.tsx")]
    );
    assert_eq!(
        file.find_format_message_usages(),
        vec![usage("b", 1, "a.tsx")]
    );
    assert_eq!(file.find_misc_usages(), vec![usage("c", 1, "a.tsx")]);
}

#[test]
fn find_usages_with_custom_markers() {
    let file = TSFile::new("a.vue", "$t(\n  key: \"x\"\n)\nkey: \"ignored\"");
    assert_eq!(file.find_usages("$t(", "key:"), vec![usage("x", 2, "a.vue")]);
}
