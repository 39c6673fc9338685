//! Dictionaries: a locale's keys and their translations, the rules that two
//! dictionaries must keep towards each other, and loading and saving.

use crate::keys::{
    lemma_object_keys, member_keys, object_keys, object_text, plain, read_object_keys,
};
use crate::text::{
    chars_lt, lemma_lex_irreflexive, lemma_lex_total, lemma_lex_transitive, lex_lt,
    list_contains, string_views, to_chars,
};
use vstd::prelude::*;

verus! {

/// The entries of a dictionary as contracts see them: pairs of key and value.
pub type Entries = Seq<(Seq<char>, Seq<char>)>;

/// The views of a sequence of entries, in order.
pub open spec fn entry_views(entries: Seq<(String, String)>) -> Entries {
    entries.map_values(|e: (String, String)| (e.0@, e.1@))
}

/// The keys ascend strictly, so no key occurs twice.
pub open spec fn strictly_sorted(entries: Entries) -> bool {
    forall|i: int, j: int| 0 <= i < j < entries.len() ==> lex_lt(entries[i].0, entries[j].0)
}

/// Some entry has the key `key`.
pub open spec fn has_key(entries: Entries, key: Seq<char>) -> bool {
    exists|i: int| 0 <= i < entries.len() && (#[trigger] entries[i]).0 == key
}

/// The index of an entry with the key `key`.
pub open spec fn index_of_key(entries: Entries, key: Seq<char>) -> int {
    choose|i: int| 0 <= i < entries.len() && (#[trigger] entries[i]).0 == key
}

/// The value that stands under `key`, if the key is there.
pub open spec fn lookup(entries: Entries, key: Seq<char>) -> Option<Seq<char>> {
    if has_key(entries, key) {
        Some(entries[index_of_key(entries, key)].1)
    } else {
        None
    }
}

/// In a dictionary whose keys ascend strictly, the key of the entry at index
/// `i` stands at no other index, and looking it up gives that entry's value.
pub proof fn lemma_lookup_at(entries: Entries, i: int)
    requires
        strictly_sorted(entries),
        0 <= i < entries.len(),
    ensures
        has_key(entries, entries[i].0),
        index_of_key(entries, entries[i].0) == i,
        lookup(entries, entries[i].0) == Some(entries[i].1),
        forall|j: int| 0 <= j < entries.len() && entries[j].0 == entries[i].0 ==> j == i,
{
    let key = entries[i].0;
    lemma_lex_irreflexive(key);
    assert forall|j: int| 0 <= j < entries.len() && entries[j].0 == key implies j == i by {
        if j < i {
            assert(lex_lt(entries[j].0, entries[i].0));
        } else if i < j {
            assert(lex_lt(entries[i].0, entries[j].0));
        }
    }
    assert(entries[i].0 == key);
}

/// The value of the last entry with the key `key`, if there is one.
pub open spec fn last_value(entries: Entries, key: Seq<char>) -> Option<Seq<char>>
    decreases entries.len(),
{
    if entries.len() == 0 {
        None
    } else if entries.last().0 == key {
        Some(entries.last().1)
    } else {
        last_value(entries.drop_last(), key)
    }
}

/// Without its last entry, a dictionary whose keys ascend strictly lacks that
/// entry's key and holds every other key as before.
pub proof fn lemma_lookup_drop_last(entries: Entries, key: Seq<char>)
    requires
        strictly_sorted(entries),
        entries.len() > 0,
    ensures
        strictly_sorted(entries.drop_last()),
        lookup(entries.drop_last(), key) == if key == entries.last().0 {
            None
        } else {
            lookup(entries, key)
        },
{
    let front = entries.drop_last();
    let last = entries.len() - 1;
    assert forall|i: int, j: int| 0 <= i < j < front.len() implies lex_lt(
        front[i].0,
        front[j].0,
    ) by {
        assert(front[i] == entries[i] && front[j] == entries[j]);
    }
    if has_key(front, key) {
        let i = index_of_key(front, key);
        assert(entries[i] == front[i]);
        lemma_lookup_at(front, i);
        lemma_lookup_at(entries, i);
    } else if key != entries.last().0 && has_key(entries, key) {
        let i = index_of_key(entries, key);
        assert(front[i] == entries[i]);
    }
    if key == entries.last().0 {
        lemma_lookup_at(entries, last);
    }
}

/// In a dictionary whose keys ascend strictly every key stands once, so the
/// last value under a key is the value under it.
pub proof fn lemma_last_value_is_lookup(entries: Entries, key: Seq<char>)
    requires
        strictly_sorted(entries),
    ensures
        last_value(entries, key) == lookup(entries, key),
    decreases entries.len(),
{
    if entries.len() > 0 {
        lemma_lookup_drop_last(entries, key);
        if entries.last().0 == key {
            lemma_lookup_at(entries, entries.len() - 1);
        } else {
            lemma_last_value_is_lookup(entries.drop_last(), key);
        }
    }
}

/// A dictionary whose keys ascend strictly is determined by the values under
/// its keys: two such dictionaries that agree on every key are equal.
pub proof fn lemma_sorted_entries_unique(a: Entries, b: Entries)
    requires
        strictly_sorted(a),
        strictly_sorted(b),
        forall|key: Seq<char>| lookup(a, key) == lookup(b, key),
    ensures
        a == b,
    decreases a.len(),
{
    if a.len() == 0 {
        if b.len() > 0 {
            lemma_lookup_at(b, 0);
            assert(lookup(a, b[0].0) is None);
        }
        assert(a =~= b);
    } else if b.len() == 0 {
        lemma_lookup_at(a, 0);
        assert(lookup(b, a[0].0) is None);
    } else {
        let la = a.len() - 1;
        let lb = b.len() - 1;
        lemma_lookup_at(a, la);
        lemma_lookup_at(b, lb);
        assert(has_key(b, a[la].0));
        assert(has_key(a, b[lb].0));
        let j = index_of_key(b, a[la].0);
        let i = index_of_key(a, b[lb].0);
        lemma_lookup_at(b, j);
        lemma_lookup_at(a, i);
        if j < lb {
            assert(lex_lt(b[j].0, b[lb].0));
            if i < la {
                assert(lex_lt(a[i].0, a[la].0));
                lemma_lex_transitive(a[i].0, a[la].0, b[lb].0);
            }
            lemma_lex_irreflexive(b[lb].0);
        }
        assert(a[la] == b[lb]);
        assert forall|key: Seq<char>| lookup(a.drop_last(), key) == lookup(b.drop_last(), key) by {
            lemma_lookup_drop_last(a, key);
            lemma_lookup_drop_last(b, key);
        }
        lemma_lookup_drop_last(a, a[la].0);
        lemma_lookup_drop_last(b, a[la].0);
        lemma_sorted_entries_unique(a.drop_last(), b.drop_last());
        assert(a =~= a.drop_last().push(a[la]));
        assert(b =~= b.drop_last().push(b[lb]));
    }
}

/// A dictionary: the entries of one locale, under the identity of the file
/// that backs them. The entries stand in ascending order of their keys.
#[derive(Debug)]
pub struct TranslationFile {
    path: String,
    entries: Vec<(String, String)>,
}

/// What a `TranslationFile` stands for in contracts.
pub ghost struct TranslationFileView {
    pub path: Seq<char>,
    pub entries: Entries,
}

impl View for TranslationFile {
    type V = TranslationFileView;

    closed spec fn view(&self) -> TranslationFileView {
        TranslationFileView { path: self.path@, entries: entry_views(self.entries@) }
    }
}

impl Clone for TranslationFile {
    /// A dictionary with the same identity and the same entries.
    fn clone(&self) -> (copy: Self)
        ensures
            copy@ == self@,
    {
        proof {
            use_type_invariant(self);
        }
        let mut entries: Vec<(String, String)> = Vec::new();
        let mut i: usize = 0;
        while i < self.entries.len()
            invariant
                i <= self.entries.len(),
                entries.len() == i,
                forall|k: int| 0 <= k < i ==> entries@[k] == self.entries@[k],
            decreases self.entries.len() - i,
        {
            entries.push((self.entries[i].0.clone(), self.entries[i].1.clone()));
            i += 1;
        }
        assert(entries@ =~= self.entries@);
        TranslationFile { path: self.path.clone(), entries }
    }
}

/// A violation of the rules for dictionaries.
#[derive(Debug, Clone, PartialEq, Eq)]
pub enum TranslationFileError {
    /// The key has an empty value.
    EmptyValue(String),
    /// The key is missing from the dictionary with the identity `missing_in`.
    MissingKey { key: String, missing_in: String },
    /// The file with the given identity defines the listed keys more than once.
    DuplicateKeys(String, Vec<String>),
}

/// What a `TranslationFileError` stands for in contracts.
pub ghost enum TranslationFileErrorView {
    EmptyValue(Seq<char>),
    MissingKey { key: Seq<char>, missing_in: Seq<char> },
    DuplicateKeys(Seq<char>, Seq<Seq<char>>),
}

impl View for TranslationFileError {
    type V = TranslationFileErrorView;

    open spec fn view(&self) -> TranslationFileErrorView {
        match self {
            TranslationFileError::EmptyValue(key) => TranslationFileErrorView::EmptyValue(key@),
            TranslationFileError::MissingKey { key, missing_in } => {
                TranslationFileErrorView::MissingKey { key: key@, missing_in: missing_in@ }
            },
            TranslationFileError::DuplicateKeys(path, keys) => {
                TranslationFileErrorView::DuplicateKeys(path@, string_views(keys@))
            },
        }
    }
}

/// The views of a sequence of errors, in order.
pub open spec fn error_views(errors: Seq<TranslationFileError>) -> Seq<TranslationFileErrorView> {
    errors.map_values(|e: TranslationFileError| e@)
}

/// What the rules say of one entry of a dictionary, held against the entries
/// `other` of the dictionary with the identity `other_path`: the key must be
/// there too, and neither value may be empty.
pub open spec fn rule_error(entry: (Seq<char>, Seq<char>), other: Entries, other_path: Seq<char>)
    -> Option<TranslationFileErrorView> {
    match lookup(other, entry.0) {
        None => Some(TranslationFileErrorView::MissingKey { key: entry.0, missing_in: other_path }),
        Some(value) => if value.len() == 0 || entry.1.len() == 0 {
            Some(TranslationFileErrorView::EmptyValue(entry.0))
        } else {
            None
        },
    }
}

/// The violations among the first `n` of `entries`, in the entries' order.
pub open spec fn rule_errors(
    entries: Entries,
    other: Entries,
    other_path: Seq<char>,
    n: int,
) -> Seq<TranslationFileErrorView>
    decreases n,
{
    if n <= 0 {
        Seq::empty()
    } else {
        let before = rule_errors(entries, other, other_path, n - 1);
        match rule_error(entries[n - 1], other, other_path) {
            Some(error) => before.push(error),
            None => before,
        }
    }
}

/// All violations of the dictionary `a` held against the dictionary `b`.
pub open spec fn violations(a: TranslationFileView, b: TranslationFileView) -> Seq<
    TranslationFileErrorView,
> {
    rule_errors(a.entries, b.entries, b.path, a.entries.len() as int)
}

/// Two dictionaries are compatible where neither violates a rule towards the
/// other.
pub open spec fn compatible(a: TranslationFileView, b: TranslationFileView) -> bool {
    violations(a, b).len() == 0 && violations(b, a).len() == 0
}

/// The keys that stand more than once in `keys`: each such key once, in the
/// order in which the keys are first seen again.
pub open spec fn repeated_keys(keys: Seq<Seq<char>>) -> Seq<Seq<char>>
    decreases keys.len(),
{
    if keys.len() == 0 {
        Seq::empty()
    } else {
        let before = repeated_keys(keys.drop_last());
        if keys.drop_last().contains(keys.last()) && !before.contains(keys.last()) {
            before.push(keys.last())
        } else {
            before
        }
    }
}

/// The keys that the outermost object of a dictionary file writes more than
/// once: each such key once, in the order in which they are first written
/// again.
pub open spec fn duplicate_keys(text: Seq<char>) -> Seq<Seq<char>> {
    repeated_keys(object_keys(text))
}

/// A key is among the repeated keys exactly when it stands at two indices,
/// and no key is listed twice.
pub proof fn lemma_repeated_keys_contains(keys: Seq<Seq<char>>, key: Seq<char>)
    ensures
        repeated_keys(keys).contains(key) <==> exists|i: int, j: int|
            0 <= i < j < keys.len() && keys[i] == key && keys[j] == key,
        repeated_keys(keys).no_duplicates(),
    decreases keys.len(),
{
    if keys.len() > 0 {
        let front = keys.drop_last();
        let last = keys.last();
        let before = repeated_keys(front);
        let all = repeated_keys(keys);
        lemma_repeated_keys_contains(front, key);
        if all.contains(key) {
            let at = choose|at: int| 0 <= at < all.len() && all[at] == key;
            if at < before.len() {
                assert(before[at] == key);
                assert(before.contains(key));
                let (i, j) = choose|i: int, j: int|
                    0 <= i < j < front.len() && front[i] == key && front[j] == key;
                assert(0 <= i < j < keys.len() && keys[i] == key && keys[j] == key);
            } else {
                assert(last == key && front.contains(key));
                let i = choose|i: int| 0 <= i < front.len() && front[i] == key;
                assert(0 <= i < keys.len() - 1 < keys.len() && keys[i] == key && keys[keys.len()
                    - 1] == key);
            }
        }
        if exists|i: int, j: int| 0 <= i < j < keys.len() && keys[i] == key && keys[j] == key {
            let (i, j) = choose|i: int, j: int|
                0 <= i < j < keys.len() && keys[i] == key && keys[j] == key;
            if j < keys.len() - 1 {
                assert(0 <= i < j < front.len() && front[i] == key && front[j] == key);
                assert(before.contains(key));
            } else {
                assert(front[i] == key);
                assert(front.contains(key));
            }
            if before.contains(key) {
                let at = choose|at: int| 0 <= at < before.len() && before[at] == key;
                assert(all[at] == key);
            } else {
                assert(all == before.push(key));
                assert(all[before.len() as int] == key);
            }
        }
        assert forall|x: int, y: int|
            0 <= x < all.len() && 0 <= y < all.len() && x != y implies all[x] != all[y] by {
            if x < before.len() && y < before.len() {
                assert(all[x] == before[x] && all[y] == before[y]);
            } else if x < before.len() {
                assert(before[x] == all[x]);
                assert(before.contains(all[x]));
            } else {
                assert(before[y] == all[y]);
                assert(before.contains(all[y]));
            }
        }
    } else {
        assert(!repeated_keys(keys).contains(key));
    }
}

/// No key is repeated exactly when the keys are pairwise distinct.
pub proof fn lemma_none_repeated(keys: Seq<Seq<char>>)
    ensures
        repeated_keys(keys).len() == 0 <==> keys.no_duplicates(),
{
    if repeated_keys(keys).len() > 0 {
        let key = repeated_keys(keys)[0];
        assert(repeated_keys(keys).contains(key));
        lemma_repeated_keys_contains(keys, key);
    }
    if !keys.no_duplicates() {
        let (i, j) = choose|i: int, j: int|
            0 <= i < keys.len() && 0 <= j < keys.len() && i != j && keys[i] == keys[j];
        let key = keys[i];
        lemma_repeated_keys_contains(keys, key);
        if i < j {
            assert(0 <= i < j < keys.len() && keys[i] == key && keys[j] == key);
        } else {
            assert(0 <= j < i < keys.len() && keys[j] == key && keys[i] == key);
        }
        assert(repeated_keys(keys).contains(key));
    }
}

/// A key that the outermost object writes twice is among the duplicate keys
/// of the text, so that loading the text fails.
pub proof fn lemma_key_written_twice(text: Seq<char>, i: int, j: int)
    requires
        0 <= i < j < object_keys(text).len(),
        object_keys(text)[i] == object_keys(text)[j],
    ensures
        duplicate_keys(text).contains(object_keys(text)[i]),
        duplicate_keys(text).len() > 0,
{
    lemma_repeated_keys_contains(object_keys(text), object_keys(text)[i]);
}

/// Of an object that is written with one member on a line, where no key and
/// no value holds a quote or a backslash, the duplicate keys are the keys
/// that the members repeat: there is none exactly when the keys are pairwise
/// distinct.
pub proof fn lemma_duplicates_of_object(members: Seq<(Seq<char>, Seq<char>)>)
    requires
        forall|i: int| 0 <= i < members.len() ==> plain(members[i].0) && plain(members[i].1),
    ensures
        duplicate_keys(object_text(members)) == repeated_keys(member_keys(members)),
        duplicate_keys(object_text(members)).len() == 0 <==> member_keys(members).no_duplicates(),
{
    lemma_object_keys(members);
    lemma_none_repeated(member_keys(members));
}

/// The error of `serde_json`.
#[verifier::external_type_specification]
#[verifier::external_body]
pub struct ExJsonError(serde_json::Error);

/// What `serde_json::from_str` reads from `text` as a map from string to
/// string: `None` where it fails, else the entries of the map in the map's
/// order.
pub uninterp spec fn json_entries(text: Seq<char>) -> Option<Seq<(Seq<char>, Seq<char>)>>;

/// What `serde_json::to_string_pretty` returns for a map from string to string
/// with the given entries: the text that it writes, or `None` where it fails.
pub uninterp spec fn json_text(entries: Seq<(Seq<char>, Seq<char>)>) -> Option<Seq<char>>;

/// Parses `text` with `serde_json::from_str` as a `BTreeMap` from string to
/// string and hands out the map's entries in the map's order. The outcome is
/// what the contracts call `json_entries(text)`; nothing is claimed of the
/// order.
#[verifier::external_body]
fn parse_entries(text: &str) -> (r: Result<Vec<(String, String)>, serde_json::Error>)
    ensures
        match r {
            Ok(entries) => json_entries(text@) == Some(entry_views(entries@)),
            Err(_) => json_entries(text@) is None,
        },
{
    let map: std::collections::BTreeMap<String, String> = serde_json::from_str(text)?;
    Ok(map.into_iter().collect())
}

/// Writes the entries with `serde_json::to_string_pretty`, as a `BTreeMap`
/// from string to string. The entries come with strictly ascending keys, so
/// the map holds each of them. The outcome is what the contracts call
/// `json_text` of the entries; nothing is claimed of whether the call
/// succeeds.
#[verifier::external_body]
fn serialize_entries(entries: &Vec<(String, String)>) -> (r: Result<String, serde_json::Error>)
    requires
        strictly_sorted(entry_views(entries@)),
    ensures
        match r {
            Ok(text) => json_text(entry_views(entries@)) == Some(text@),
            Err(_) => json_text(entry_views(entries@)) is None,
        },
{
    let map: std::collections::BTreeMap<&String, &String> =
        entries.iter().map(|e| (&e.0, &e.1)).collect();
    serde_json::to_string_pretty(&map)
}

/// The dictionary could not be written as text.
#[derive(Debug, Clone, Copy, PartialEq, Eq)]
pub struct SerializeError {}

/// Lists the keys that the outermost object of a dictionary file writes more
/// than once: each such key once, in the order in which the keys are first
/// written again. The text is read as it stands, before any parsing, since a
/// parser keeps only the last value of a key.
pub fn find_key_duplicates(content: &str) -> (duplicates: Vec<String>)
    ensures
        string_views(duplicates@) == duplicate_keys(content@),
{
    let keys = read_object_keys(content);
    let ghost all = string_views(keys@);
    let mut seen: Vec<String> = Vec::new();
    let mut duplicates: Vec<String> = Vec::new();
    let mut i: usize = 0;
    assert(string_views(seen@) =~= all.take(0));
    assert(string_views(duplicates@) =~= Seq::empty());
    while i < keys.len()
        invariant
            i <= keys.len(),
            all == string_views(keys@),
            string_views(seen@) == all.take(i as int),
            string_views(duplicates@) == repeated_keys(all.take(i as int)),
        decreases keys.len() - i,
    {
        let ghost dups_before = string_views(duplicates@);
        let ghost seen_before = string_views(seen@);
        let key = keys[i].clone();
        assert(key@ == all[i as int]);
        assert(all.take(i + 1).drop_last() =~= all.take(i as int));
        if list_contains(&seen, &key) && !list_contains(&duplicates, &key) {
            duplicates.push(key.clone());
            assert(string_views(duplicates@) =~= dups_before.push(key@));
        }
        seen.push(key);
        assert(string_views(seen@) =~= seen_before.push(all[i as int]));
        assert(seen_before.push(all[i as int]) =~= all.take(i + 1));
        i += 1;
    }
    assert(all.take(keys.len() as int) =~= all);
    duplicates
}

/// The dictionary `file` is what loading the parsed entries `parsed` under
/// the identity `path` gives: its keys ascend strictly, and under each key
/// stands the last value that `parsed` has for it. Parsed entries that come
/// with strictly ascending keys are the dictionary's entries.
pub open spec fn loaded(file: TranslationFileView, path: Seq<char>, parsed: Entries) -> bool {
    &&& file.path == path
    &&& strictly_sorted(file.entries)
    &&& forall|key: Seq<char>| lookup(file.entries, key) == last_value(parsed, key)
    &&& strictly_sorted(parsed) ==> file.entries == parsed
}

/// What is loaded from a dictionary's own entries is that dictionary again:
/// saving and reloading changes nothing where the text is read back as the
/// entries that were written.
pub proof fn lemma_reload_same_entries(file: TranslationFileView, again: TranslationFileView)
    requires
        strictly_sorted(file.entries),
        loaded(again, file.path, file.entries),
    ensures
        again == file,
{
}

impl TranslationFile {
    /// Every dictionary keeps its keys in strictly ascending order.
    #[verifier::type_invariant]
    spec fn keys_ascend(&self) -> bool {
        strictly_sorted(entry_views(self.entries@))
    }

    /// A dictionary without entries.
    pub fn empty(path: String) -> (file: Self)
        ensures
            strictly_sorted(file@.entries),
            file@.path == path@,
            file@.entries.len() == 0,
    {
        let file = TranslationFile { path, entries: Vec::new() };
        assert(file@.entries =~= Seq::empty());
        file
    }

    /// A dictionary with the given entries, which may come in any order. Of
    /// two entries with one key the later one stays. Entries that come with
    /// strictly ascending keys are kept as they are.
    pub fn from_entries(path: String, entries: Vec<(String, String)>) -> (file: Self)
        ensures
            strictly_sorted(file@.entries),
            file@.path == path@,
            forall|key: Seq<char>|
                lookup(file@.entries, key) == last_value(entry_views(entries@), key),
            strictly_sorted(entry_views(entries@)) ==> file@.entries == entry_views(entries@),
    {
        let ghost all = entry_views(entries@);
        let mut file = Self::empty(path);
        let mut i: usize = 0;
        assert(all.take(0) =~= Seq::empty());
        while i < entries.len()
            invariant
                i <= entries.len(),
                all == entry_views(entries@),
                strictly_sorted(file@.entries),
                file@.path == path@,
                forall|key: Seq<char>|
                    lookup(file@.entries, key) == last_value(all.take(i as int), key),
            decreases entries.len() - i,
        {
            assert(all.take(i + 1).drop_last() =~= all.take(i as int));
            assert(all.take(i + 1).last() == (entries@[i as int].0@, entries@[i as int].1@));
            file.upsert(entries[i].0.clone(), entries[i].1.clone());
            i += 1;
        }
        proof {
            assert(all.take(entries.len() as int) =~= all);
            if strictly_sorted(all) {
                assert forall|key: Seq<char>| lookup(file@.entries, key) == lookup(all, key) by {
                    lemma_last_value_is_lookup(all, key);
                }
                lemma_sorted_entries_unique(file@.entries, all);
            }
        }
        file
    }

    /// The identity of the file behind the dictionary.
    pub fn path(&self) -> (path: &String)
        ensures
            path@ == self@.path,
    {
        &self.path
    }

    /// The entries in ascending order of their keys.
    pub fn entries(&self) -> (entries: &Vec<(String, String)>)
        ensures
            entry_views(entries@) == self@.entries,
            strictly_sorted(self@.entries),
    {
        proof {
            use_type_invariant(self);
        }
        &self.entries
    }

    /// The number of entries.
    pub fn len(&self) -> (n: usize)
        ensures
            n == self@.entries.len(),
    {
        self.entries.len()
    }

    /// The number of entries whose key stands before `key`, found by halving
    /// the range in which it can lie.
    fn lower_bound(&self, key: &Vec<char>) -> (p: usize)
        ensures
            p <= self@.entries.len(),
            forall|k: int| 0 <= k < p ==> lex_lt(self@.entries[k].0, key@),
            forall|k: int| p <= k < self@.entries.len() ==> !lex_lt(self@.entries[k].0, key@),
    {
        proof {
            use_type_invariant(self);
        }
        let n = self.entries.len();
        let mut lo: usize = 0;
        let mut hi: usize = n;
        while lo < hi
            invariant
                lo <= hi <= n,
                n == self@.entries.len(),
                strictly_sorted(self@.entries),
                forall|k: int| 0 <= k < lo ==> lex_lt(self@.entries[k].0, key@),
                forall|k: int| hi <= k < n ==> !lex_lt(self@.entries[k].0, key@),
            decreases hi - lo,
        {
            let mid = lo + (hi - lo) / 2;
            let probe = to_chars(self.entries[mid].0.as_str());
            assert(probe@ == self@.entries[mid as int].0);
            if chars_lt(&probe, key) {
                proof {
                    assert forall|k: int| 0 <= k < mid + 1 implies lex_lt(
                        self@.entries[k].0,
                        key@,
                    ) by {
                        if k < mid {
                            lemma_lex_transitive(self@.entries[k].0, probe@, key@);
                        }
                    }
                }
                lo = mid + 1;
            } else {
                proof {
                    assert forall|k: int| mid <= k < n implies !lex_lt(
                        self@.entries[k].0,
                        key@,
                    ) by {
                        if mid < k && lex_lt(self@.entries[k].0, key@) {
                            lemma_lex_transitive(probe@, self@.entries[k].0, key@);
                        }
                    }
                }
                hi = mid;
            }
        }
        lo
    }

    /// The index of the entry with the key `key`.
    fn position(&self, key: &String) -> (r: Option<usize>)
        ensures
            match r {
                Some(i) => i < self@.entries.len() && self@.entries[i as int].0 == key@,
                None => !has_key(self@.entries, key@),
            },
    {
        proof {
            use_type_invariant(self);
        }
        let chars = to_chars(key.as_str());
        let p = self.lower_bound(&chars);
        if p < self.entries.len() && self.entries[p].0 == *key {
            return Some(p);
        }
        proof {
            lemma_lex_irreflexive(key@);
            assert forall|i: int| 0 <= i < self@.entries.len() implies self@.entries[i].0
                != key@ by {
                if p < i && self@.entries[i].0 == key@ {
                    assert(lex_lt(self@.entries[p as int].0, self@.entries[i].0));
                }
            }
        }
        None
    }

    /// The value under `key`, if the dictionary defines the key.
    pub fn get(&self, key: &str) -> (value: Option<&String>)
        ensures
            match value {
                Some(v) => lookup(self@.entries, key@) == Some(v@),
                None => lookup(self@.entries, key@) is None,
            },
    {
        let owned = key.to_owned();
        match self.position(&owned) {
            Some(i) => {
                proof {
                    use_type_invariant(self);
                    lemma_lookup_at(self@.entries, i as int);
                }
                Some(&self.entries[i].1)
            },
            None => None,
        }
    }

    /// Whether the dictionary defines `key`.
    pub fn contains_key(&self, key: &str) -> (found: bool)
        ensures
            found == has_key(self@.entries, key@),
    {
        let owned = key.to_owned();
        self.position(&owned).is_some()
    }

    /// Sets the value under `key`, adding the key where it is new. Nothing is
    /// saved: the caller decides when to persist.
    pub fn upsert(&mut self, key: String, value: String)
        ensures
            strictly_sorted(final(self)@.entries),
            final(self)@.path == old(self)@.path,
            forall|k: Seq<char>|
                lookup(final(self)@.entries, k) == if k == key@ {
                    Some(value@)
                } else {
                    lookup(old(self)@.entries, k)
                },
            final(self)@.entries.len() == old(self)@.entries.len() + if has_key(
                old(self)@.entries,
                key@,
            ) {
                0int
            } else {
                1int
            },
    {
        proof {
            use_type_invariant(&*self);
        }
        let ghost before = self@.entries;
        let n = self.entries.len();
        let chars = to_chars(key.as_str());
        let p = self.lower_bound(&chars);
        let mut entries: Vec<(String, String)> = Vec::new();
        std::mem::swap(&mut entries, &mut self.entries);
        if p < n && entries[p].0 == key {
            entries.set(p, (key, value));
            proof {
                let after = entry_views(entries@);
                assert(after =~= before.update(p as int, (key@, value@)));
                assert forall|i: int, j: int| 0 <= i < j < after.len() implies lex_lt(
                    after[i].0,
                    after[j].0,
                ) by {
                    assert(after[i].0 == before[i].0 && after[j].0 == before[j].0);
                }
                assert(has_key(before, key@)) by {
                    assert(before[p as int].0 == key@);
                }
                assert forall|k: Seq<char>|
                    lookup(after, k) == if k == key@ {
                        Some(value@)
                    } else {
                        lookup(before, k)
                    } by {
                    if k == key@ {
                        lemma_lookup_at(after, p as int);
                    } else if has_key(before, k) {
                        let i = index_of_key(before, k);
                        lemma_lookup_at(before, i);
                        assert(after[i] == before[i]);
                        lemma_lookup_at(after, i);
                    } else if has_key(after, k) {
                        let i = index_of_key(after, k);
                        assert(before[i].0 == k);
                    }
                }
            }
        } else {
            entries.insert(p, (key, value));
            proof {
                let after = entry_views(entries@);
                assert(after =~= before.insert(p as int, (key@, value@)));
                assert forall|j: int| p <= j < n implies lex_lt(key@, before[j].0) by {
                    lemma_lex_total(key@, before[p as int].0);
                    if j > p {
                        lemma_lex_transitive(key@, before[p as int].0, before[j].0);
                    }
                }
                assert forall|i: int, j: int| 0 <= i < j < after.len() implies lex_lt(
                    after[i].0,
                    after[j].0,
                ) by {
                    if j < p {
                        assert(after[i] == before[i] && after[j] == before[j]);
                    } else if j == p {
                        assert(after[i] == before[i]);
                    } else if i < p {
                        assert(after[i] == before[i] && after[j] == before[j - 1]);
                    } else if i == p {
                        assert(after[j] == before[j - 1]);
                    } else {
                        assert(after[i] == before[i - 1] && after[j] == before[j - 1]);
                    }
                }
                assert(!has_key(before, key@)) by {
                    if has_key(before, key@) {
                        let i = index_of_key(before, key@);
                        lemma_lex_irreflexive(key@);
                    }
                }
                assert forall|k: Seq<char>|
                    lookup(after, k) == if k == key@ {
                        Some(value@)
                    } else {
                        lookup(before, k)
                    } by {
                    if k == key@ {
                        lemma_lookup_at(after, p as int);
                    } else if has_key(before, k) {
                        let i = index_of_key(before, k);
                        lemma_lookup_at(before, i);
                        let i2 = if i < p {
                            i
                        } else {
                            i + 1
                        };
                        assert(after[i2] == before[i]);
                        lemma_lookup_at(after, i2);
                    } else if has_key(after, k) {
                        let i = index_of_key(after, k);
                        if i < p {
                            assert(before[i].0 == k);
                        } else {
                            assert(before[i - 1].0 == k);
                        }
                    }
                }
            }
        }
        self.entries = entries;
    }

    /// Loads the dictionary that the file `path` holds as `content`. Where the
    /// outermost object writes a key more than once, nothing is loaded and the
    /// repeated keys are returned. Otherwise the entries are those of the JSON
    /// object that `content` is, which the caller vouches for, in ascending
    /// order of their keys.
    pub fn new(path: String, content: &str) -> (r: Result<Self, TranslationFileError>)
        requires
            duplicate_keys(content@).len() == 0 ==> json_entries(content@) is Some,
        ensures
            match r {
                Ok(file) => {
                    &&& duplicate_keys(content@).len() == 0
                    &&& json_entries(content@) is Some
                    &&& loaded(file@, path@, json_entries(content@).unwrap())
                },
                Err(error) => {
                    &&& duplicate_keys(content@).len() > 0
                    &&& error@ == TranslationFileErrorView::DuplicateKeys(
                        path@,
                        duplicate_keys(content@),
                    )
                },
            },
    {
        let duplicates = find_key_duplicates(content);
        assert(string_views(duplicates@).len() == duplicates@.len());
        if duplicates.len() != 0 {
            return Err(TranslationFileError::DuplicateKeys(path, duplicates));
        }
        match parse_entries(content) {
            Ok(entries) => Ok(Self::from_entries(path, entries)),
            Err(_) => vstd::pervasive::unreached(),
        }
    }

    /// Loads a dictionary as `new` does, for a caller that does not know
    /// whether `content` is a JSON object of strings: where no key is repeated
    /// and `content` is no such object, the result is `None`.
    pub fn try_new(path: String, content: &str) -> (r: Option<Result<Self, TranslationFileError>>)
        ensures
            match r {
                None => duplicate_keys(content@).len() == 0 && json_entries(content@)
                    is None,
                Some(Ok(file)) => {
                    &&& duplicate_keys(content@).len() == 0
                    &&& json_entries(content@) is Some
                    &&& loaded(file@, path@, json_entries(content@).unwrap())
                },
                Some(Err(error)) => {
                    &&& duplicate_keys(content@).len() > 0
                    &&& error@ == TranslationFileErrorView::DuplicateKeys(
                        path@,
                        duplicate_keys(content@),
                    )
                },
            },
    {
        match parse_entries(content) {
            Ok(_) => Some(Self::new(path, content)),
            Err(_) => {
                let duplicates = find_key_duplicates(content);
                assert(string_views(duplicates@).len() == duplicates@.len());
                if duplicates.len() != 0 {
                    Some(Self::new(path, content))
                } else {
                    None
                }
            },
        }
    }

    /// The text to save the dictionary as: a JSON object, pretty-printed, that
    /// lists the entries in ascending order of their keys. The text is the
    /// serializer's, and writing fails exactly where the serializer does.
    pub fn write(&self) -> (r: Result<String, SerializeError>)
        ensures
            match r {
                Ok(text) => json_text(self@.entries) == Some(text@),
                Err(_) => json_text(self@.entries) is None,
            },
    {
        proof {
            use_type_invariant(self);
        }
        match serialize_entries(&self.entries) {
            Ok(text) => Ok(text),
            Err(_) => Err(SerializeError {  }),
        }
    }

    /// Holds every entry of this dictionary against `other`: a key that
    /// `other` lacks is reported as missing from it, and a key under which
    /// either dictionary has an empty value as empty. The violations come in
    /// ascending order of their keys, at most one for a key.
    pub fn check_rules(&self, other: &Self) -> (errors: Vec<TranslationFileError>)
        ensures
            error_views(errors@) == violations(self@, other@),
    {
        proof {
            use_type_invariant(other);
        }
        let mut errors: Vec<TranslationFileError> = Vec::new();
        let n = self.entries.len();
        let mut i: usize = 0;
        assert(error_views(errors@) =~= Seq::empty());
        while i < n
            invariant
                i <= n,
                n == self.entries.len(),
                strictly_sorted(other@.entries),
                error_views(errors@) == rule_errors(
                    self@.entries,
                    other@.entries,
                    other@.path,
                    i as int,
                ),
            decreases n - i,
        {
            let ghost before = errors@;
            let key = &self.entries[i].0;
            let value = &self.entries[i].1;
            assert(self@.entries[i as int] == (key@, value@));
            match other.position(key) {
                None => {
                    let error = TranslationFileError::MissingKey {
                        key: key.clone(),
                        missing_in: other.path.clone(),
                    };
                    errors.push(error);
                    assert(error_views(errors@) =~= error_views(before).push(error@));
                },
                Some(j) => {
                    proof {
                        lemma_lookup_at(other@.entries, j as int);
                    }
                    if other.entries[j].1.as_str().is_empty() || value.as_str().is_empty() {
                        let error = TranslationFileError::EmptyValue(key.clone());
                        errors.push(error);
                        assert(error_views(errors@) =~= error_views(before).push(error@));
                    }
                },
            }
            i += 1;
        }
        errors
    }

    /// Compares two dictionaries. They are compatible where each defines
    /// every key of the other and no value is empty. Otherwise the violations
    /// of this dictionary and those of `other` are returned, in that order.
    pub fn is_compatible_with(&self, other: &Self) -> (r: Result<
        (),
        (Vec<TranslationFileError>, Vec<TranslationFileError>),
    >)
        ensures
            match r {
                Ok(_) => compatible(self@, other@),
                Err((self_errors, other_errors)) => {
                    &&& !compatible(self@, other@)
                    &&& error_views(self_errors@) == violations(self@, other@)
                    &&& error_views(other_errors@) == violations(other@, self@)
                },
            },
    {
        let self_errors = self.check_rules(other);
        let other_errors = other.check_rules(self);
        assert(error_views(self_errors@).len() == self_errors@.len());
        assert(error_views(other_errors@).len() == other_errors@.len());
        if self_errors.len() != 0 || other_errors.len() != 0 {
            return Err((self_errors, other_errors));
        }
        Ok(())
    }
}

/// Whether the violation `error` is about the key `key`.
pub open spec fn concerns(error: TranslationFileErrorView, key: Seq<char>) -> bool {
    match error {
        TranslationFileErrorView::EmptyValue(k) => k == key,
        TranslationFileErrorView::MissingKey { key: k, missing_in } => k == key,
        TranslationFileErrorView::DuplicateKeys(path, keys) => keys.contains(key),
    }
}

/// Where `b` defines every key of `a` and no value is empty, `a` has no
/// violation towards `b`.
proof fn lemma_no_rule_errors(a: Entries, b: Entries, b_path: Seq<char>, n: int)
    requires
        0 <= n <= a.len(),
        forall|i: int| 0 <= i < a.len() ==> has_key(b, (#[trigger] a[i]).0) && a[i].1.len() > 0,
        forall|i: int| 0 <= i < b.len() ==> (#[trigger] b[i]).1.len() > 0,
    ensures
        rule_errors(a, b, b_path, n).len() == 0,
    decreases n,
{
    if n > 0 {
        lemma_no_rule_errors(a, b, b_path, n - 1);
        let entry = a[n - 1];
        assert(has_key(b, entry.0));
        let j = index_of_key(b, entry.0);
        assert(b[j].1.len() > 0);
    }
}

/// Two dictionaries that define the same keys, and no empty value, are
/// compatible: neither has a violation towards the other.
pub proof fn lemma_same_keys_are_compatible(a: TranslationFileView, b: TranslationFileView)
    requires
        forall|key: Seq<char>| has_key(a.entries, key) <==> has_key(b.entries, key),
        forall|i: int| 0 <= i < a.entries.len() ==> (#[trigger] a.entries[i]).1.len() > 0,
        forall|i: int| 0 <= i < b.entries.len() ==> (#[trigger] b.entries[i]).1.len() > 0,
    ensures
        compatible(a, b),
        violations(a, b) == Seq::<TranslationFileErrorView>::empty(),
        violations(b, a) == Seq::<TranslationFileErrorView>::empty(),
{
    assert forall|i: int| 0 <= i < a.entries.len() implies has_key(
        b.entries,
        (#[trigger] a.entries[i]).0,
    ) by {
        assert(has_key(a.entries, a.entries[i].0));
    }
    assert forall|i: int| 0 <= i < b.entries.len() implies has_key(
        a.entries,
        (#[trigger] b.entries[i]).0,
    ) by {
        assert(has_key(b.entries, b.entries[i].0));
    }
    lemma_no_rule_errors(a.entries, b.entries, b.path, a.entries.len() as int);
    lemma_no_rule_errors(b.entries, a.entries, a.path, b.entries.len() as int);
    assert(violations(a, b) =~= Seq::empty());
    assert(violations(b, a) =~= Seq::empty());
}

/// The violations among the first `m` entries are the first of those among
/// the first `n`, and each further one is the violation of an entry from
/// index `m` on.
proof fn lemma_rule_errors_prefix(a: Entries, b: Entries, b_path: Seq<char>, m: int, n: int)
    requires
        0 <= m <= n <= a.len(),
    ensures
        rule_errors(a, b, b_path, m).len() <= rule_errors(a, b, b_path, n).len(),
        forall|j: int|
            0 <= j < rule_errors(a, b, b_path, m).len() ==> rule_errors(a, b, b_path, n)[j]
                == rule_errors(a, b, b_path, m)[j],
        forall|j: int|
            rule_errors(a, b, b_path, m).len() <= j < rule_errors(a, b, b_path, n).len()
                ==> exists|i: int|
                m <= i < n && rule_error(a[i], b, b_path) == Some(
                    #[trigger] rule_errors(a, b, b_path, n)[j],
                ),
    decreases n - m,
{
    if m < n {
        lemma_rule_errors_prefix(a, b, b_path, m, n - 1);
        let shorter = rule_errors(a, b, b_path, n - 1);
        let longer = rule_errors(a, b, b_path, n);
        assert forall|j: int|
            rule_errors(a, b, b_path, m).len() <= j < longer.len() implies exists|i: int|
            m <= i < n && rule_error(a[i], b, b_path) == Some(#[trigger] longer[j]) by {
            if j < shorter.len() {
                assert(longer[j] == shorter[j]);
                let i = choose|i: int|
                    m <= i < n - 1 && rule_error(a[i], b, b_path) == Some(shorter[j]);
                assert(m <= i < n && rule_error(a[i], b, b_path) == Some(longer[j]));
            } else {
                assert(rule_error(a[n - 1], b, b_path) == Some(longer[j]));
            }
        }
    }
}

/// A key that `a` defines and `b` lacks is reported exactly once among the
/// violations of `a`, as missing from `b`, and no other violation of `a` is
/// about that key.
pub proof fn lemma_missing_key_reported_once(
    a: TranslationFileView,
    b: TranslationFileView,
    key: Seq<char>,
)
    requires
        strictly_sorted(a.entries),
        has_key(a.entries, key),
        !has_key(b.entries, key),
    ensures
        exists|at: int|
            {
                &&& 0 <= at < violations(a, b).len()
                &&& #[trigger] violations(a, b)[at] == (TranslationFileErrorView::MissingKey {
                    key,
                    missing_in: b.path,
                })
                &&& forall|j: int|
                    0 <= j < violations(a, b).len() && j != at ==> !concerns(
                        #[trigger] violations(a, b)[j],
                        key,
                    )
            },
{
    let idx = index_of_key(a.entries, key);
    let n = a.entries.len() as int;
    lemma_lookup_at(a.entries, idx);
    let upto = rule_errors(a.entries, b.entries, b.path, idx);
    let with = rule_errors(a.entries, b.entries, b.path, idx + 1);
    let all = violations(a, b);
    let at = upto.len() as int;
    lemma_rule_errors_prefix(a.entries, b.entries, b.path, 0, idx);
    lemma_rule_errors_prefix(a.entries, b.entries, b.path, idx, idx + 1);
    lemma_rule_errors_prefix(a.entries, b.entries, b.path, idx + 1, n);
    assert(rule_error(a.entries[idx], b.entries, b.path) == Some(
        TranslationFileErrorView::MissingKey { key, missing_in: b.path },
    ));
    assert(with == upto.push(TranslationFileErrorView::MissingKey { key, missing_in: b.path }));
    assert(all[at] == with[at]);
    assert forall|j: int| 0 <= j < all.len() && j != at implies !concerns(
        #[trigger] all[j],
        key,
    ) by {
        if j < at {
            assert(all[j] == with[j] && with[j] == upto[j]);
            let i = choose|i: int|
                0 <= i < idx && rule_error(a.entries[i], b.entries, b.path) == Some(upto[j]);
            assert(a.entries[i].0 != key);
        } else {
            let i = choose|i: int|
                idx + 1 <= i < n && rule_error(a.entries[i], b.entries, b.path) == Some(all[j]);
            assert(a.entries[i].0 != key);
        }
    }
}

} // verus!
