//! The editor's view of two dictionaries: the rows it shows, the searches it
//! offers, and the changes it makes. Saving a changed dictionary is left to
//! the caller.

use crate::text::{
    contains, contains_chars, lemma_filter_push, lower_chars, to_ascii_lowercase, to_chars,
};
use crate::translation_file::{entry_views, lookup, Entries, TranslationFile};
use vstd::prelude::*;

verus! {

/// The two dictionaries that the editor works on.
#[derive(Debug, Clone)]
pub struct AppState {
    pub en_translation_file: TranslationFile,
    pub sv_translation_file: TranslationFile,
}

/// One line of the editor's table: a key with its two translations.
#[derive(Debug, Clone, PartialEq, Eq)]
pub struct TranslationRow {
    pub key: String,
    pub en: String,
    pub sv: String,
}

/// What a `TranslationRow` stands for in contracts.
pub ghost struct TranslationRowView {
    pub key: Seq<char>,
    pub en: Seq<char>,
    pub sv: Seq<char>,
}

impl View for TranslationRow {
    type V = TranslationRowView;

    open spec fn view(&self) -> TranslationRowView {
        TranslationRowView { key: self.key@, en: self.en@, sv: self.sv@ }
    }
}

/// The views of a sequence of rows, in order.
pub open spec fn row_views(rows: Seq<TranslationRow>) -> Seq<TranslationRowView> {
    rows.map_values(|r: TranslationRow| r@)
}

/// A search: the text to look for, if any.
#[derive(Debug, Clone)]
pub struct TranslationsSearchQuery {
    pub query: Option<String>,
}

/// A new value for one key in the dictionary of one language, `en` or `sv`.
#[derive(Debug, Clone)]
pub struct TranslationValueEdit {
    pub key: String,
    pub value: String,
    pub language: String,
}

/// A key with its value in both dictionaries.
#[derive(Debug, Clone)]
pub struct TranslationInsert {
    pub key: String,
    pub en: String,
    pub sv: String,
}

/// The dictionary that an edit changed, and that is now to be saved.
#[derive(Debug, Clone, Copy, PartialEq, Eq)]
pub enum Language {
    En,
    Sv,
}

/// The edit named a language that is neither `en` nor `sv`.
#[derive(Debug, Clone, Copy, PartialEq, Eq)]
pub struct InvalidLanguage {}

/// The value under `key`, or the empty string where the key is missing.
pub open spec fn value_or_empty(entries: Entries, key: Seq<char>) -> Seq<char> {
    match lookup(entries, key) {
        Some(value) => value,
        None => Seq::empty(),
    }
}

/// The row for one entry of the first dictionary.
pub open spec fn row_of(entry: (Seq<char>, Seq<char>), sv: Entries) -> TranslationRowView {
    TranslationRowView { key: entry.0, en: entry.1, sv: value_or_empty(sv, entry.0) }
}

/// The editor's table: one row for each key of the first dictionary, in
/// ascending order of the keys.
pub open spec fn rows_of(en: Entries, sv: Entries) -> Seq<TranslationRowView> {
    en.map_values(|entry: (Seq<char>, Seq<char>)| row_of(entry, sv))
}

/// The text that a search looks for, in lower case; empty where none is given.
pub open spec fn needle(query: Option<String>) -> Seq<char> {
    match query {
        Some(text) => to_ascii_lowercase(text@),
        None => Seq::empty(),
    }
}

/// Whether a row's key holds `needle`, capitals aside.
pub open spec fn key_matches(needle: Seq<char>) -> spec_fn(TranslationRowView) -> bool {
    |row: TranslationRowView| contains(to_ascii_lowercase(row.key), needle)
}

/// Whether one of a row's two values holds `needle`, capitals aside.
pub open spec fn value_matches(needle: Seq<char>) -> spec_fn(TranslationRowView) -> bool {
    |row: TranslationRowView|
        contains(to_ascii_lowercase(row.en), needle) || contains(
            to_ascii_lowercase(row.sv),
            needle,
        )
}

/// Whether a row is for another key than `key`.
pub open spec fn is_other_key(key: Seq<char>) -> spec_fn(TranslationRowView) -> bool {
    |row: TranslationRowView| row.key != key
}

/// Whether an entry's key holds `query` as it is written.
pub open spec fn entry_matches(query: Seq<char>) -> spec_fn((Seq<char>, Seq<char>)) -> bool {
    |entry: (Seq<char>, Seq<char>)| contains(entry.0, query)
}

/// The text that a search looks for, in lower case.
fn lower_needle(query: &Option<String>) -> (v: Vec<char>)
    ensures
        v@ == needle(*query),
{
    match query {
        Some(text) => lower_chars(text.as_str()),
        None => Vec::new(),
    }
}

impl AppState {
    /// The row at index `i` of the table.
    fn row(&self, i: usize) -> (row: TranslationRow)
        requires
            i < self.en_translation_file@.entries.len(),
        ensures
            row@ == rows_of(
                self.en_translation_file@.entries,
                self.sv_translation_file@.entries,
            )[i as int],
    {
        let entries = self.en_translation_file.entries();
        assert(entry_views(entries@)[i as int] == (entries@[i as int].0@, entries@[i as int].1@));
        let sv = match self.sv_translation_file.get(entries[i].0.as_str()) {
            Some(value) => value.clone(),
            None => String::new(),
        };
        TranslationRow { key: entries[i].0.clone(), en: entries[i].1.clone(), sv }
    }
}

/// The whole table: a snapshot of both dictionaries.
pub fn translations(state: &AppState) -> (rows: Vec<TranslationRow>)
    ensures
        row_views(rows@) == rows_of(
            state.en_translation_file@.entries,
            state.sv_translation_file@.entries,
        ),
{
    let ghost all = rows_of(state.en_translation_file@.entries, state.sv_translation_file@.entries);
    let n = state.en_translation_file.len();
    let mut rows: Vec<TranslationRow> = Vec::new();
    let mut i: usize = 0;
    while i < n
        invariant
            i <= n,
            n == all.len(),
            all == rows_of(state.en_translation_file@.entries, state.sv_translation_file@.entries),
            rows.len() == i,
            forall|k: int| 0 <= k < i ==> rows@[k]@ == all[k],
        decreases n - i,
    {
        rows.push(state.row(i));
        i += 1;
    }
    assert(row_views(rows@) =~= all);
    rows
}

/// The rows whose key holds the text of `query`, capitals aside. Without a
/// text every row matches.
pub fn search_translations_keys(state: &AppState, query: TranslationsSearchQuery) -> (rows: Vec<
    TranslationRow,
>)
    ensures
        row_views(rows@) == rows_of(
            state.en_translation_file@.entries,
            state.sv_translation_file@.entries,
        ).filter(key_matches(needle(query.query))),
{
    let ghost all = rows_of(state.en_translation_file@.entries, state.sv_translation_file@.entries);
    let ghost pred = key_matches(needle(query.query));
    let wanted = lower_needle(&query.query);
    let n = state.en_translation_file.len();
    let mut rows: Vec<TranslationRow> = Vec::new();
    let mut i: usize = 0;
    proof {
        reveal(Seq::filter);
        assert(all.take(0) =~= Seq::empty());
        assert(row_views(rows@) =~= Seq::empty());
    }
    while i < n
        invariant
            i <= n,
            n == all.len(),
            all == rows_of(state.en_translation_file@.entries, state.sv_translation_file@.entries),
            pred == key_matches(needle(query.query)),
            wanted@ == needle(query.query),
            row_views(rows@) == all.take(i as int).filter(pred),
        decreases n - i,
    {
        let ghost before = row_views(rows@);
        proof {
            assert(all.take(i + 1) =~= all.take(i as int).push(all[i as int]));
            lemma_filter_push(all.take(i as int), all[i as int], pred);
        }
        let row = state.row(i);
        let key = lower_chars(row.key.as_str());
        if contains_chars(&key, &wanted) {
            rows.push(row);
            assert(row_views(rows@) =~= before.push(all[i as int]));
        }
        i += 1;
    }
    assert(all.take(n as int) =~= all);
    rows
}

/// The rows of which one of the two values holds the text of `query`,
/// capitals aside. Without a text every row matches.
pub fn search_translations_values(state: &AppState, query: TranslationsSearchQuery) -> (rows: Vec<
    TranslationRow,
>)
    ensures
        row_views(rows@) == rows_of(
            state.en_translation_file@.entries,
            state.sv_translation_file@.entries,
        ).filter(value_matches(needle(query.query))),
{
    let ghost all = rows_of(state.en_translation_file@.entries, state.sv_translation_file@.entries);
    let ghost pred = value_matches(needle(query.query));
    let wanted = lower_needle(&query.query);
    let n = state.en_translation_file.len();
    let mut rows: Vec<TranslationRow> = Vec::new();
    let mut i: usize = 0;
    proof {
        reveal(Seq::filter);
        assert(all.take(0) =~= Seq::empty());
        assert(row_views(rows@) =~= Seq::empty());
    }
    while i < n
        invariant
            i <= n,
            n == all.len(),
            all == rows_of(state.en_translation_file@.entries, state.sv_translation_file@.entries),
            pred == value_matches(needle(query.query)),
            wanted@ == needle(query.query),
            row_views(rows@) == all.take(i as int).filter(pred),
        decreases n - i,
    {
        let ghost before = row_views(rows@);
        proof {
            assert(all.take(i + 1) =~= all.take(i as int).push(all[i as int]));
            lemma_filter_push(all.take(i as int), all[i as int], pred);
        }
        let row = state.row(i);
        let en = lower_chars(row.en.as_str());
        let sv = lower_chars(row.sv.as_str());
        if contains_chars(&en, &wanted) || contains_chars(&sv, &wanted) {
            rows.push(row);
            assert(row_views(rows@) =~= before.push(all[i as int]));
        }
        i += 1;
    }
    assert(all.take(n as int) =~= all);
    rows
}

/// Sets the value of one key in the dictionary of the language that the edit
/// names, and says which dictionary is to be saved. An edit that names another
/// language than `en` or `sv` changes nothing.
pub fn edit_translation_value(state: &mut AppState, edit: TranslationValueEdit) -> (r: Result<
    Language,
    InvalidLanguage,
>)
    ensures
        final(state).en_translation_file@.path == old(state).en_translation_file@.path,
        final(state).sv_translation_file@.path == old(state).sv_translation_file@.path,
        match r {
            Ok(Language::En) => {
                &&& edit.language@ == "en"@
                &&& final(state).sv_translation_file == old(state).sv_translation_file
                &&& forall|k: Seq<char>|
                    lookup(final(state).en_translation_file@.entries, k) == if k == edit.key@ {
                        Some(edit.value@)
                    } else {
                        lookup(old(state).en_translation_file@.entries, k)
                    }
            },
            Ok(Language::Sv) => {
                &&& edit.language@ != "en"@
                &&& edit.language@ == "sv"@
                &&& final(state).en_translation_file == old(state).en_translation_file
                &&& forall|k: Seq<char>|
                    lookup(final(state).sv_translation_file@.entries, k) == if k == edit.key@ {
                        Some(edit.value@)
                    } else {
                        lookup(old(state).sv_translation_file@.entries, k)
                    }
            },
            Err(_) => {
                &&& edit.language@ != "en"@
                &&& edit.language@ != "sv"@
                &&& *final(state) == *old(state)
            },
        },
{
    let en = "en".to_owned();
    let sv = "sv".to_owned();
    if edit.language == en {
        state.en_translation_file.upsert(edit.key, edit.value);
        Ok(Language::En)
    } else if edit.language == sv {
        state.sv_translation_file.upsert(edit.key, edit.value);
        Ok(Language::Sv)
    } else {
        Err(InvalidLanguage {  })
    }
}

/// Sets the values of one key in both dictionaries, which are then both to be
/// saved, and returns the table with the row of that key first.
pub fn insert_translation(state: &mut AppState, insert: TranslationInsert) -> (rows: Vec<
    TranslationRow,
>)
    ensures
        final(state).en_translation_file@.path == old(state).en_translation_file@.path,
        final(state).sv_translation_file@.path == old(state).sv_translation_file@.path,
        forall|k: Seq<char>|
            lookup(final(state).en_translation_file@.entries, k) == if k == insert.key@ {
                Some(insert.en@)
            } else {
                lookup(old(state).en_translation_file@.entries, k)
            },
        forall|k: Seq<char>|
            lookup(final(state).sv_translation_file@.entries, k) == if k == insert.key@ {
                Some(insert.sv@)
            } else {
                lookup(old(state).sv_translation_file@.entries, k)
            },
        row_views(rows@) == seq![
            TranslationRowView { key: insert.key@, en: insert.en@, sv: insert.sv@ },
        ] + rows_of(
            final(state).en_translation_file@.entries,
            final(state).sv_translation_file@.entries,
        ).filter(is_other_key(insert.key@)),
{
    state.en_translation_file.upsert(insert.key.clone(), insert.en.clone());
    state.sv_translation_file.upsert(insert.key.clone(), insert.sv.clone());
    let ghost all = rows_of(state.en_translation_file@.entries, state.sv_translation_file@.entries);
    let ghost pred = is_other_key(insert.key@);
    let ghost first = TranslationRowView { key: insert.key@, en: insert.en@, sv: insert.sv@ };
    let n = state.en_translation_file.len();
    let mut rows: Vec<TranslationRow> = Vec::new();
    let new_row = TranslationRow { key: insert.key.clone(), en: insert.en, sv: insert.sv };
    rows.push(new_row);
    let mut i: usize = 0;
    proof {
        reveal(Seq::filter);
        assert(all.take(0) =~= Seq::empty());
        assert(row_views(rows@) =~= seq![first] + all.take(0).filter(pred));
    }
    while i < n
        invariant
            i <= n,
            n == all.len(),
            all == rows_of(state.en_translation_file@.entries, state.sv_translation_file@.entries),
            pred == is_other_key(insert.key@),
            row_views(rows@) == seq![first] + all.take(i as int).filter(pred),
        decreases n - i,
    {
        let ghost before = row_views(rows@);
        proof {
            assert(all.take(i + 1) =~= all.take(i as int).push(all[i as int]));
            lemma_filter_push(all.take(i as int), all[i as int], pred);
        }
        let row = state.row(i);
        if row.key != insert.key {
            rows.push(row);
            assert(row_views(rows@) =~= before.push(all[i as int]));
            assert(before.push(all[i as int]) =~= seq![first] + all.take(i as int).filter(
                pred,
            ).push(all[i as int]));
        }
        i += 1;
    }
    assert(all.take(n as int) =~= all);
    rows
}

/// The entries of `file` whose key holds `query` as it is written.
fn matching_entries(file: &TranslationFile, query: &Vec<char>) -> (found: Vec<(String, String)>)
    ensures
        entry_views(found@) == file@.entries.filter(entry_matches(query@)),
{
    let entries = file.entries();
    let ghost all = file@.entries;
    let ghost pred = entry_matches(query@);
    let mut found: Vec<(String, String)> = Vec::new();
    let mut i: usize = 0;
    proof {
        reveal(Seq::filter);
        assert(all.take(0) =~= Seq::empty());
        assert(entry_views(found@) =~= Seq::empty());
    }
    while i < entries.len()
        invariant
            i <= entries.len(),
            all == entry_views(entries@),
            pred == entry_matches(query@),
            entry_views(found@) == all.take(i as int).filter(pred),
        decreases entries.len() - i,
    {
        let ghost before = entry_views(found@);
        proof {
            assert(all.take(i + 1) =~= all.take(i as int).push(all[i as int]));
            lemma_filter_push(all.take(i as int), all[i as int], pred);
            assert(all[i as int] == (entries@[i as int].0@, entries@[i as int].1@));
        }
        let key = to_chars(entries[i].0.as_str());
        if contains_chars(&key, query) {
            let entry = (entries[i].0.clone(), entries[i].1.clone());
            found.push(entry);
            assert(entry_views(found@) =~= before.push(all[i as int]));
        }
        i += 1;
    }
    assert(all.take(entries.len() as int) =~= all);
    found
}

/// The entries of each dictionary whose key holds `query` as it is written,
/// in ascending order of the keys: first those of `en`, then those of `sv`.
pub fn translations_list(state: &AppState, query: &str) -> (lists: (
    Vec<(String, String)>,
    Vec<(String, String)>,
))
    ensures
        entry_views(lists.0@) == state.en_translation_file@.entries.filter(entry_matches(query@)),
        entry_views(lists.1@) == state.sv_translation_file@.entries.filter(entry_matches(query@)),
{
    let wanted = to_chars(query);
    (
        matching_entries(&state.en_translation_file, &wanted),
        matching_entries(&state.sv_translation_file, &wanted),
    )
}

} // verus!
