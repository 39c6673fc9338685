use ramilang::interactive::{
    edit_translation_value, insert_translation, search_translations_keys,
    search_translations_values, translations, translations_list, AppState, InvalidLanguage,
    Language, TranslationInsert, TranslationRow, TranslationValueEdit, TranslationsSearchQuery,
};
use ramilang::translation_file::TranslationFile;

fn dictionary(path: &str, entries: &[(&str, &str)]) -> TranslationFile {
    let mut file = TranslationFile::empty(path.to_string());
    for (key, value) in entries {
        file.upsert(key.to_string(), value.to_string());
    }
    file
}

fn state() -> AppState {
    AppState {
        en_translation_file: dictionary(
            "en.json",
            &[("Save", "Save"), ("cancel", "Cancel"), ("title", "Title")],
        ),
        sv_translation_file: dictionary("sv.json", &[("Save", "Spara"), ("cancel", "Avbryt")]),
    }
}

fn row(key: &str, en: &str, sv: &str) -> TranslationRow {
    TranslationRow {
        key: key.to_string(),
        en: en.to_string(),
        sv: sv.to_string(),
    }
}

fn query(text: Option<&str>) -> TranslationsSearchQuery {
    TranslationsSearchQuery {
        query: text.map(|t| t.to_string()),
    }
}

#[test]
fn table_has_a_row_for_each_key_of_the_first_dictionary() {
    assert_eq!(
        translations(&state()),
        vec![
            row("Save", "Save", "Spara"),
            row("cancel", "Cancel", "Avbryt"),
            row("title", "Title", ""),
        ]
    );
}

#[test]
fn key_search_ignores_ascii_case() {
    let state = state();
    assert_eq!(
        search_translations_keys(&state, query(Some("SA"))),
        vec![row("Save", "Save", "Spara")]
    );
    assert_eq!(
        search_translations_keys(&state, query(Some("t"))),
        vec![row("title", "Title", "")]
    );
    assert_eq!(search_translations_keys(&state, query(None)).len(), 3);
    assert_eq!(search_translations_keys(&state, query(Some("zz"))), vec![]);
}

#[test]
fn value_search_looks_at_both_values() {
    let state = state();
    assert_eq!(
        search_translations_values(&state, query(Some("BRY"))),
        vec![row("cancel", "Cancel", "Avbryt")]
    );
    assert_eq!(
        search_translations_values(&state, query(Some("a"))),
        vec![
            row("Save", "Save", "Spara"),
            row("cancel", "Cancel", "Avbryt")
        ]
    );
}

#[test]
fn edit_changes_the_named_dictionary_only() {
    let mut state = state();
    let edit = TranslationValueEdit {
        key: "title".to_string(),
        value: "Titel".to_string(),
        language: "sv".to_string(),
    };
    assert_eq!(edit_translation_value(&mut state, edit), Ok(Language::Sv));
    assert_eq!(
        state.sv_translation_file.get("title"),
        Some(&"Titel".to_string())
    );
    assert_eq!(
        state.en_translation_file.get("title"),
        Some(&"Title".to_string())
    );
    let edit = TranslationValueEdit {
        key: "title".to_string(),
        value: "Heading".to_string(),
        language: "en".to_string(),
    };
    assert_eq!(edit_translation_value(&mut state, edit), Ok(Language::En));
    assert_eq!(
        state.en_translation_file.get("title"),
        Some(&"Heading".to_string())
    );
}

#[test]
fn edit_with_unknown_language_changes_nothing() {
    let mut state = state();
    let edit = TranslationValueEdit {
        key: "title".to_string(),
        value: "Titre".to_string(),
        language: "fr".to_string(),
    };
    assert_eq!(
        edit_translation_value(&mut state, edit),
        Err(InvalidLanguage {})
    );
    assert_eq!(state.en_translation_file.len(), 3);
    assert_eq!(state.sv_translation_file.get("title"), None);
}

#[test]
fn insert_puts_the_new_row_first() {
    let mut state = state();
    let insert = TranslationInsert {
        key: "hello".to_string(),
        en: "Hello".to_string(),
        sv: "Hej".to_string(),
    };
    assert_eq!(
        insert_translation(&mut state, insert),
        vec![
            row("hello", "Hello", "Hej"),
            row("Save", "Save", "Spara"),
            row("cancel", "Cancel", "Avbryt"),
            row("title", "Title", ""),
        ]
    );
    assert_eq!(
        state.en_translation_file.get("hello"),
        Some(&"Hello".to_string())
    );
    assert_eq!(
        state.sv_translation_file.get("hello"),
        Some(&"Hej".to_string())
    );
    let again = TranslationInsert {
        key: "cancel".to_string(),
        en: "Abort".to_string(),
        sv: "Avbryt".to_string(),
    };
    let rows = insert_translation(&mut state, again);
    assert_eq!(rows.len(), 4);
    assert_eq!(rows[0], row("cancel", "Abort", "Avbryt"));
}

#[test]
fn list_filters_each_dictionary_by_key_as_written() {
    let state = state();
    let (en, sv) = translations_list(&state, "a");
    assert_eq!(
        en,
        vec![
            ("Save".to_string(), "Save".to_string()),
            ("cancel".to_string(), "Cancel".to_string())
        ]
    );
    assert_eq!(
        sv,
        vec![
            ("Save".to_string(), "Spara".to_string()),
            ("cancel".to_string(), "Avbryt".to_string())
        ]
    );
    let (en, sv) = translations_list(&state, "S");
    assert_eq!(en.len(), 1);
    assert_eq!(sv.len(), 1);
}
