//! Reconciliation: holds the usages that the scanner found against the keys
//! that a dictionary defines.

use crate::text::{
    lemma_filter_empty, lemma_filter_push, lines_of, list_contains, split_lines, string_views,
    substring, to_chars, trim, trim_bounds,
};
use crate::translation_file::{entry_views, has_key, Entries, TranslationFile};
use crate::ts_file::{usage_views, KeyUsage, KeyUsageView};
use vstd::prelude::*;

verus! {

/// The keys that at least one usage refers to.
pub open spec fn used_keys(usages: Seq<KeyUsageView>) -> Set<Seq<char>> {
    Set::new(
        |key: Seq<char>|
            exists|i: int| 0 <= i < usages.len() && (#[trigger] usages[i]).key == key,
    )
}

/// Whether a usage refers to a key that `defined` lacks.
pub open spec fn is_invalid(defined: Entries) -> spec_fn(KeyUsageView) -> bool {
    |usage: KeyUsageView| !has_key(defined, usage.key)
}

/// Whether an entry's key is neither used nor ignored.
pub open spec fn is_unused(usages: Seq<KeyUsageView>, ignore: Seq<Seq<char>>) -> spec_fn(
    (Seq<char>, Seq<char>),
) -> bool {
    |entry: (Seq<char>, Seq<char>)|
        !used_keys(usages).contains(entry.0) && !ignore.contains(entry.0)
}

/// The keys that the first `n` lines of an ignore list name: each line
/// without the white space around it, and no line of nothing but white space.
pub open spec fn ignore_keys(lines: Seq<Seq<char>>, n: int) -> Seq<Seq<char>>
    decreases n,
{
    if n <= 0 {
        Seq::empty()
    } else {
        let before = ignore_keys(lines, n - 1);
        if trim(lines[n - 1]).len() == 0 {
            before
        } else {
            before.push(trim(lines[n - 1]))
        }
    }
}

/// Reads an ignore list: one key on a line, white space around it dropped,
/// blank lines left out.
pub fn parse_ignore_list(content: &str) -> (keys: Vec<String>)
    ensures
        string_views(keys@) == ignore_keys(lines_of(content@), lines_of(content@).len() as int),
{
    let lines = split_lines(content);
    let ghost all = string_views(lines@);
    let mut keys: Vec<String> = Vec::new();
    let mut i: usize = 0;
    assert(string_views(keys@) =~= Seq::empty());
    while i < lines.len()
        invariant
            i <= lines.len(),
            all == string_views(lines@),
            string_views(keys@) == ignore_keys(all, i as int),
        decreases lines.len() - i,
    {
        assert(all[i as int] == lines@[i as int]@);
        let chars = to_chars(lines[i].as_str());
        let n = chars.len();
        assert(chars@.subrange(0, n as int) =~= chars@);
        let (from, to) = trim_bounds(&chars, 0, n);
        if from < to {
            let ghost before = string_views(keys@);
            let key = substring(&chars, from, to);
            keys.push(key);
            assert(string_views(keys@) =~= before.push(key@));
        }
        i += 1;
    }
    keys
}

/// Whether some usage refers to `key`.
pub fn is_used(usages: &Vec<KeyUsage>, key: &String) -> (used: bool)
    ensures
        used == used_keys(usage_views(usages@)).contains(key@),
{
    let mut i: usize = 0;
    while i < usages.len()
        invariant
            i <= usages.len(),
            forall|k: int| 0 <= k < i ==> usage_views(usages@)[k].key != key@,
        decreases usages.len() - i,
    {
        if usages[i].key == *key {
            assert(usage_views(usages@)[i as int].key == key@);
            return true;
        }
        i += 1;
    }
    false
}

/// The usages that refer to a key which `defined` lacks: each such usage, in
/// the order of `usages`, so that a key used at several places is reported
/// for each of them.
pub fn invalid_usages(defined: &TranslationFile, usages: &Vec<KeyUsage>) -> (invalid: Vec<KeyUsage>)
    ensures
        usage_views(invalid@) == usage_views(usages@).filter(is_invalid(defined@.entries)),
{
    let ghost all = usage_views(usages@);
    let ghost pred = is_invalid(defined@.entries);
    let mut invalid: Vec<KeyUsage> = Vec::new();
    let mut i: usize = 0;
    proof {
        reveal(Seq::filter);
        assert(all.take(0) =~= Seq::empty());
        assert(usage_views(invalid@) =~= Seq::empty());
    }
    while i < usages.len()
        invariant
            i <= usages.len(),
            all == usage_views(usages@),
            pred == is_invalid(defined@.entries),
            usage_views(invalid@) == all.take(i as int).filter(pred),
        decreases usages.len() - i,
    {
        let ghost before = usage_views(invalid@);
        proof {
            assert(all.take(i + 1) =~= all.take(i as int).push(all[i as int]));
            lemma_filter_push(all.take(i as int), all[i as int], pred);
        }
        if !defined.contains_key(usages[i].key.as_str()) {
            let usage = KeyUsage {
                key: usages[i].key.clone(),
                line: usages[i].line,
                file_path: usages[i].file_path.clone(),
            };
            invalid.push(usage);
            assert(usage_views(invalid@) =~= before.push(all[i as int]));
        }
        i += 1;
    }
    assert(all.take(usages.len() as int) =~= all);
    invalid
}

/// The entries of `defined` whose key no usage refers to and `ignore` does
/// not list: each once, with its value, in ascending order of the keys.
pub fn unused_keys(
    defined: &TranslationFile,
    usages: &Vec<KeyUsage>,
    ignore: &Vec<String>,
) -> (unused: Vec<(String, String)>)
    ensures
        entry_views(unused@) == defined@.entries.filter(
            is_unused(usage_views(usages@), string_views(ignore@)),
        ),
{
    let entries = defined.entries();
    let ghost all = defined@.entries;
    let ghost pred = is_unused(usage_views(usages@), string_views(ignore@));
    let mut unused: Vec<(String, String)> = Vec::new();
    let mut i: usize = 0;
    proof {
        reveal(Seq::filter);
        assert(all.take(0) =~= Seq::empty());
        assert(entry_views(unused@) =~= Seq::empty());
    }
    while i < entries.len()
        invariant
            i <= entries.len(),
            all == entry_views(entries@),
            pred == is_unused(usage_views(usages@), string_views(ignore@)),
            entry_views(unused@) == all.take(i as int).filter(pred),
        decreases entries.len() - i,
    {
        let ghost before = entry_views(unused@);
        proof {
            assert(all.take(i + 1) =~= all.take(i as int).push(all[i as int]));
            lemma_filter_push(all.take(i as int), all[i as int], pred);
            assert(all[i as int] == (entries@[i as int].0@, entries@[i as int].1@));
        }
        if !is_used(usages, &entries[i].0) && !list_contains(ignore, &entries[i].0) {
            let entry = (entries[i].0.clone(), entries[i].1.clone());
            unused.push(entry);
            assert(entry_views(unused@) =~= before.push(all[i as int]));
        }
        i += 1;
    }
    assert(all.take(entries.len() as int) =~= all);
    unused
}

/// What a run found wrong between the usages and the dictionary.
#[derive(Debug, Clone, PartialEq, Eq)]
pub struct Report {
    pub invalid_usages: Vec<KeyUsage>,
    pub unused_keys: Vec<(String, String)>,
}

impl Report {
    /// A run succeeds where every usage refers to a defined key and every
    /// defined key is used or ignored.
    pub open spec fn success(&self) -> bool {
        self.invalid_usages@.len() == 0 && self.unused_keys@.len() == 0
    }

    /// Whether the run succeeded.
    pub fn is_success(&self) -> (ok: bool)
        ensures
            ok == self.success(),
    {
        self.invalid_usages.len() == 0 && self.unused_keys.len() == 0
    }
}

/// Nothing is wrong exactly when every usage refers to a key that the
/// dictionary defines, and every key that it defines is used or ignored.
pub proof fn lemma_nothing_wrong(
    defined: Entries,
    usages: Seq<KeyUsageView>,
    ignore: Seq<Seq<char>>,
)
    ensures
        usages.filter(is_invalid(defined)).len() == 0 <==> forall|i: int|
            0 <= i < usages.len() ==> has_key(defined, (#[trigger] usages[i]).key),
        defined.filter(is_unused(usages, ignore)).len() == 0 <==> forall|i: int|
            0 <= i < defined.len() ==> used_keys(usages).contains((#[trigger] defined[i]).0)
                || ignore.contains(defined[i].0),
{
    lemma_filter_empty(usages, is_invalid(defined));
    lemma_filter_empty(defined, is_unused(usages, ignore));
}

/// Holds the usages against the dictionary: the invalid usages and the unused
/// keys together.
pub fn reconcile(
    defined: &TranslationFile,
    usages: &Vec<KeyUsage>,
    ignore: &Vec<String>,
) -> (report: Report)
    ensures
        usage_views(report.invalid_usages@) == usage_views(usages@).filter(
            is_invalid(defined@.entries),
        ),
        entry_views(report.unused_keys@) == defined@.entries.filter(
            is_unused(usage_views(usages@), string_views(ignore@)),
        ),
{
    Report {
        invalid_usages: invalid_usages(defined, usages),
        unused_keys: unused_keys(defined, usages, ignore),
    }
}

} // verus!
