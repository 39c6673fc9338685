use ramilang::text::{
    char_is_whitespace, chars_lt, contains_chars, find_chars, find_chars_from, list_contains, lower_chars, matches_at,
    split_lines, substring, to_chars, trim_bounds,
};

fn chars(s: &str) -> Vec<char> {
    s.chars().collect()
}

#[test]
fn to_chars_keeps_every_character() {
    assert_eq!(to_chars("aé→b"), vec!['a', 'é', '→', 'b']);
    assert_eq!(to_chars(""), Vec::<char>::new());
}

#[test]
fn find_gives_the_first_occurrence() {
    let text = chars("abcabc");
    assert_eq!(find_chars(&text, &chars("bc")), Some(1));
    assert_eq!(find_chars_from(&text, &chars("bc"), 2), Some(4));
    assert_eq!(find_chars_from(&text, &chars("bc"), 5), None);
    assert_eq!(find_chars(&text, &chars("")), Some(0));
    assert_eq!(find_chars_from(&text, &chars(""), 6), Some(6));
    assert_eq!(find_chars_from(&text, &chars(""), 7), None);
    assert_eq!(find_chars(&text, &chars("abcabcd")), None);
    assert_eq!(find_chars(&chars(""), &chars("a")), None);
    assert!(contains_chars(&text, &chars("ca")));
    assert!(!contains_chars(&text, &chars("cb")));
    assert!(matches_at(&text, &chars("abc"), 3));
    assert!(!matches_at(&text, &chars("abc"), 4));
}

#[test]
fn substring_counts_characters_not_bytes() {
    assert_eq!(substring(&chars("åäö-xyz"), 1, 4), "äö-");
    assert_eq!(substring(&chars("abc"), 2, 2), "");
}

#[test]
fn lines_end_at_line_feeds() {
    assert_eq!(split_lines("a\nb"), vec!["a", "b"]);
    assert_eq!(split_lines("a\nb\n"), vec!["a", "b"]);
    assert_eq!(split_lines("a\r\nb\r\n"), vec!["a", "b"]);
    assert_eq!(split_lines("a\n\nb"), vec!["a", "", "b"]);
    assert_eq!(split_lines("\n"), vec![""]);
    assert_eq!(split_lines(""), Vec::<String>::new());
    assert_eq!(split_lines("a\rb\r"), vec!["a\rb\r"]);
    assert_eq!(split_lines("a\r\r\n"), vec!["a\r"]);
}

#[test]
fn lines_agree_with_std() {
    for text in ["", "x", "x\n", "\r\n", "a\r\n\r\nb", "a\n\rb\r", "é\n→\r\n"] {
        let expected: Vec<String> = text.lines().map(|l| l.to_string()).collect();
        assert_eq!(split_lines(text), expected);
    }
}

#[test]
fn trim_takes_white_space_off_both_ends() {
    let text = chars(" \t a b \u{a0}\n");
    assert_eq!(trim_bounds(&text, 0, text.len()), (3, 6));
    let blank = chars(" \t ");
    assert_eq!(trim_bounds(&blank, 0, 3), (3, 3));
    let inner = chars("ab  cd  ef");
    assert_eq!(trim_bounds(&inner, 2, 8), (4, 6));
    assert_eq!(trim_bounds(&inner, 2, 4), (4, 4));
}

#[test]
fn white_space_agrees_with_std_on_every_character() {
    for code in 0..=0x10FFFF_u32 {
        if let Some(c) = char::from_u32(code) {
            assert_eq!(char_is_whitespace(c), c.is_whitespace(), "U+{:04X}", code);
        }
    }
}

#[test]
fn string_order_agrees_with_std() {
    let words = ["", "a", "A", "ab", "abc", "b", "Z", "é", "e", "→", "z", "a\u{10000}", "aé"];
    for x in words {
        for y in words {
            assert_eq!(chars_lt(&chars(x), &chars(y)), x < y, "{:?} < {:?}", x, y);
        }
    }
}

#[test]
fn lower_case_changes_ascii_capitals_only() {
    assert_eq!(lower_chars("AbC xyZ É@[`{"), chars("abc xyz É@[`{"));
    assert_eq!(
        lower_chars("Grüße ÅÄÖ"),
        chars(&"Grüße ÅÄÖ".to_ascii_lowercase())
    );
}

#[test]
fn list_membership_compares_whole_strings() {
    let list = vec!["alpha".to_string(), "beta".to_string()];
    assert!(list_contains(&list, &"beta".to_string()));
    assert!(!list_contains(&list, &"bet".to_string()));
    assert!(!list_contains(&Vec::new(), &"".to_string()));
}
