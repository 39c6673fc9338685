//! The usage scanner: finds references to dictionary keys in source lines.
//!
//! The scanner is a line-oriented heuristic. It knows no syntax tree; it looks
//! for marker substrings and takes the quoted text that follows them.

use crate::text::{
    contains, contains_chars, find, find_chars, find_chars_from, find_from, lines_of, split_lines,
    string_views, substring, to_chars,
};
use vstd::prelude::*;

verus! {

/// A located reference to a dictionary key.
#[derive(Debug, Clone, PartialEq, Eq)]
pub struct KeyUsage {
    pub key: String,
    /// 1-based number of the line that holds the quoted key.
    pub line: usize,
    pub file_path: String,
}

/// What a `KeyUsage` stands for in contracts.
pub ghost struct KeyUsageView {
    pub key: Seq<char>,
    pub line: nat,
    pub file_path: Seq<char>,
}

impl View for KeyUsage {
    type V = KeyUsageView;

    open spec fn view(&self) -> KeyUsageView {
        KeyUsageView { key: self.key@, line: self.line as nat, file_path: self.file_path@ }
    }
}

/// The views of a sequence of usages, in order.
pub open spec fn usage_views(usages: Seq<KeyUsage>) -> Seq<KeyUsageView> {
    usages.map_values(|u: KeyUsage| u@)
}

/// The view of an optional string.
pub open spec fn opt_view(o: Option<String>) -> Option<Seq<char>> {
    match o {
        Some(s) => Some(s@),
        None => None,
    }
}

/// The pattern that opens and closes a key.
pub open spec fn quote() -> Seq<char> {
    seq!['"']
}

/// The token of a ternary expression.
pub open spec fn question_mark() -> Seq<char> {
    seq!['?']
}

/// The token that parts the two branches of a ternary expression.
pub open spec fn colon() -> Seq<char> {
    seq![':']
}

/// The token that ends a self-closing tag.
pub open spec fn self_closing() -> Seq<char> {
    seq!['/', '>']
}

/// The token that opens a closing tag.
pub open spec fn closing_tag() -> Seq<char> {
    seq!['<', '/']
}

/// The bounds of the first quoted substring of `s` that opens at or after
/// `start`: the index after the opening quote, and the index of the closing one.
pub open spec fn quoted_bounds(s: Seq<char>, start: int) -> Option<(int, int)> {
    match find_from(s, quote(), start) {
        Some(open) => match find_from(s, quote(), open + 1) {
            Some(close) => Some((open + 1, close)),
            None => None,
        },
        None => None,
    }
}

/// The first quoted substring of `s` that opens at or after `start`, without
/// its quotes.
pub open spec fn quoted_from(s: Seq<char>, start: int) -> Option<Seq<char>> {
    match quoted_bounds(s, start) {
        Some((from, to)) => Some(s.subrange(from, to)),
        None => None,
    }
}

/// The quoted substring that follows the first occurrence of `marker` in `line`.
pub open spec fn extract_id_spec(line: Seq<char>, marker: Seq<char>) -> Option<Seq<char>> {
    match find(line, marker) {
        Some(at) => quoted_from(line, at + marker.len()),
        None => None,
    }
}

/// The first quoted substring of `line`.
pub open spec fn extract_quoted_spec(line: Seq<char>) -> Option<Seq<char>> {
    quoted_from(line, 0)
}

/// The bounds of a quoted substring are ordered and lie inside the string, a
/// quote stands on either side, and none stands in between or between
/// `start` and the opening quote. There is no quoted substring exactly when
/// fewer than two quotes stand at or after `start`.
pub proof fn lemma_quoted_bounds(s: Seq<char>, start: int)
    requires
        0 <= start,
    ensures
        match quoted_bounds(s, start) {
            Some((from, to)) => {
                &&& start < from <= to < s.len()
                &&& s[from - 1] == '"'
                &&& s[to] == '"'
                &&& forall|j: int| start <= j < from - 1 ==> s[j] != '"'
                &&& forall|j: int| from <= j < to ==> s[j] != '"'
            },
            None => forall|a: int, b: int|
                start <= a < b < s.len() ==> s[a] != '"' || s[b] != '"',
        },
{
    lemma_first_quote(s, start);
    match find_from(s, quote(), start) {
        Some(open) => {
            lemma_first_quote(s, open + 1);
        },
        None => {},
    }
}

/// `find_from` with a quote as its pattern gives the index of the first
/// quote at or after `start`.
proof fn lemma_first_quote(s: Seq<char>, start: int)
    requires
        0 <= start,
    ensures
        match find_from(s, quote(), start) {
            Some(at) => start <= at < s.len() && s[at] == '"' && forall|j: int|
                start <= j < at ==> s[j] != '"',
            None => forall|j: int| start <= j < s.len() ==> s[j] != '"',
        },
{
    crate::text::lemma_find_from(s, quote(), start);
    assert forall|j: int| start <= j < s.len() && s[j] == '"' implies crate::text::occurs_at(
        s,
        quote(),
        j,
    ) by {
        assert(s.subrange(j, j + 1) =~= quote());
    }
    match find_from(s, quote(), start) {
        Some(at) => {
            assert(s.subrange(at, at + 1)[0] == '"');
        },
        None => {},
    }
}

/// The pattern of the two characters `a` and `b`.
fn two_chars(a: char, b: char) -> (v: Vec<char>)
    ensures
        v@ == seq![a, b],
{
    let mut v: Vec<char> = Vec::new();
    v.push(a);
    v.push(b);
    assert(v@ =~= seq![a, b]);
    v
}

/// The pattern of the one character `a`.
fn one_char(a: char) -> (v: Vec<char>)
    ensures
        v@ == seq![a],
{
    let mut v: Vec<char> = Vec::new();
    v.push(a);
    assert(v@ =~= seq![a]);
    v
}

/// Finds the bounds of the first quoted substring at or after `start`.
pub fn quoted_chars(s: &Vec<char>, start: usize) -> (r: Option<(usize, usize)>)
    ensures
        match r {
            Some((from, to)) => from <= to <= s.len() && quoted_bounds(s@, start as int) == Some(
                (from as int, to as int),
            ),
            None => quoted_bounds(s@, start as int) is None,
        },
{
    let q = one_char('"');
    proof {
        crate::text::lemma_find_from(s@, quote(), start as int);
    }
    match find_chars_from(s, &q, start) {
        Some(open) => {
            proof {
                crate::text::lemma_find_from(s@, quote(), open + 1);
            }
            match find_chars_from(s, &q, open + 1) {
                Some(close) => Some((open + 1, close)),
                None => None,
            }
        },
        None => None,
    }
}

/// Finds the bounds of the quoted substring that follows `marker`.
pub fn extract_id_chars(line: &Vec<char>, marker: &Vec<char>) -> (r: Option<(usize, usize)>)
    ensures
        match r {
            Some((from, to)) => from <= to <= line.len() && extract_id_spec(line@, marker@) == Some(
                line@.subrange(from as int, to as int),
            ),
            None => extract_id_spec(line@, marker@) is None,
        },
{
    proof {
        crate::text::lemma_find_from(line@, marker@, 0);
    }
    match find_chars(line, marker) {
        Some(at) => quoted_chars(line, at + marker.len()),
        None => None,
    }
}

/// Returns the quoted substring that follows the first occurrence of `id_tag`
/// in `input`, or `None` where the marker or a pair of quotes after it is
/// missing.
pub fn extract_id(input: &str, id_tag: &str) -> (r: Option<String>)
    ensures
        opt_view(r) == extract_id_spec(input@, id_tag@),
{
    let line = to_chars(input);
    let marker = to_chars(id_tag);
    match extract_id_chars(&line, &marker) {
        Some((from, to)) => Some(substring(&line, from, to)),
        None => None,
    }
}

/// Returns the first quoted substring of `input`, without its quotes.
pub fn extract_quoted_string(input: &str) -> (r: Option<String>)
    ensures
        opt_view(r) == extract_quoted_spec(input@),
{
    let line = to_chars(input);
    match quoted_chars(&line, 0) {
        Some((from, to)) => Some(substring(&line, from, to)),
        None => None,
    }
}

/// The state of one idiom's matcher between two lines.
#[derive(Debug, Clone, Copy, PartialEq, Eq)]
pub enum ScanState {
    /// Looking for the opening marker.
    Idle,
    /// The opening marker was seen and the key is still owed. `ternary` is set
    /// once a line with a question mark has gone by.
    AwaitingIdentifier { ternary: bool },
}

/// What one line does to a matcher: the state after the line, and the key
/// that the line yields, if any.
///
/// An idle matcher passes over a line without the opening marker. A line with
/// the opening marker is the first line of the construct that the matcher
/// then waits in, and is held to the same rules as the lines after it:
/// - a quoted string after the identifier marker is the key, and the matcher
///   is idle again;
/// - else a line with a question mark yields its first quoted string, if it
///   has one, and the matcher waits on with the ternary flag set;
/// - else, with the flag set, a line with a colon yields its first quoted
///   string, if it has one, and the matcher is idle again;
/// - else a line with `/>` or `</` ends the wait without a key;
/// - else the matcher waits on, blank lines included.
pub open spec fn step(
    state: ScanState,
    line: Seq<char>,
    opening: Seq<char>,
    id_marker: Seq<char>,
) -> (ScanState, Option<Seq<char>>) {
    let ternary = state == (ScanState::AwaitingIdentifier { ternary: true });
    if state == ScanState::Idle && !contains(line, opening) {
        (ScanState::Idle, None)
    } else if extract_id_spec(line, id_marker) is Some {
        (ScanState::Idle, extract_id_spec(line, id_marker))
    } else if contains(line, question_mark()) {
        (ScanState::AwaitingIdentifier { ternary: true }, extract_quoted_spec(line))
    } else if ternary && contains(line, colon()) {
        (ScanState::Idle, extract_quoted_spec(line))
    } else if contains(line, self_closing()) || contains(line, closing_tag()) {
        (ScanState::Idle, None)
    } else {
        (ScanState::AwaitingIdentifier { ternary }, None)
    }
}

/// What a line that may be unreadable does to a matcher: an unreadable line
/// changes nothing and yields nothing.
pub open spec fn step_line(
    state: ScanState,
    line: Option<Seq<char>>,
    opening: Seq<char>,
    id_marker: Seq<char>,
) -> (ScanState, Option<Seq<char>>) {
    match line {
        Some(l) => step(state, l, opening, id_marker),
        None => (state, None),
    }
}

/// The matcher's state after the first `n` lines.
pub open spec fn scan_state(
    lines: Seq<Option<Seq<char>>>,
    opening: Seq<char>,
    id_marker: Seq<char>,
    n: int,
) -> ScanState
    decreases n,
{
    if n <= 0 {
        ScanState::Idle
    } else {
        step_line(scan_state(lines, opening, id_marker, n - 1), lines[n - 1], opening, id_marker).0
    }
}

/// The usages that the first `n` lines yield to one matcher, in line order.
pub open spec fn scan_usages(
    lines: Seq<Option<Seq<char>>>,
    opening: Seq<char>,
    id_marker: Seq<char>,
    path: Seq<char>,
    n: int,
) -> Seq<KeyUsageView>
    decreases n,
{
    if n <= 0 {
        Seq::empty()
    } else {
        let before = scan_usages(lines, opening, id_marker, path, n - 1);
        let state = scan_state(lines, opening, id_marker, n - 1);
        match step_line(state, lines[n - 1], opening, id_marker).1 {
            Some(key) => before.push(KeyUsageView { key, line: n as nat, file_path: path }),
            None => before,
        }
    }
}

/// The keys that one line yields to the first `m` of the bare markers, in the
/// markers' order.
pub open spec fn marker_keys(line: Seq<char>, markers: Seq<Seq<char>>, m: int) -> Seq<Seq<char>>
    decreases m,
{
    if m <= 0 {
        Seq::empty()
    } else {
        let before = marker_keys(line, markers, m - 1);
        match extract_id_spec(line, markers[m - 1]) {
            Some(key) => before.push(key),
            None => before,
        }
    }
}

/// The usages for the given keys, all found on line `line` of file `path`.
pub open spec fn usages_of_keys(keys: Seq<Seq<char>>, line: nat, path: Seq<char>) -> Seq<
    KeyUsageView,
> {
    keys.map_values(|key: Seq<char>| KeyUsageView { key, line, file_path: path })
}

/// The usages that the first `n` lines yield to the bare markers: line by
/// line, and within a line in the markers' order.
pub open spec fn marker_usages(
    lines: Seq<Option<Seq<char>>>,
    markers: Seq<Seq<char>>,
    path: Seq<char>,
    n: int,
) -> Seq<KeyUsageView>
    decreases n,
{
    if n <= 0 {
        Seq::empty()
    } else {
        let before = marker_usages(lines, markers, path, n - 1);
        match lines[n - 1] {
            Some(line) => before + usages_of_keys(
                marker_keys(line, markers, markers.len() as int),
                n as nat,
                path,
            ),
            None => before,
        }
    }
}

/// The views of a sequence of string slices, in order.
pub open spec fn str_views(tags: Seq<&str>) -> Seq<Seq<char>> {
    tags.map_values(|t: &str| t@)
}

/// The bare markers of the idioms that need no opening marker.
pub open spec fn misc_markers() -> Seq<Seq<char>> {
    seq!["translationId:"@, "translationKey:"@, "transId:"@, "pageTitleId="@, "titleId="@]
}

/// The usages that one matcher finds in the first `n` lines come in strictly
/// ascending order of their lines, so a line yields at most one. Each carries
/// the file's identity and the number of the line that yielded its key, which
/// lies between 1 and `n`.
pub proof fn lemma_scan_usages_ordered(
    lines: Seq<Option<Seq<char>>>,
    opening: Seq<char>,
    id_marker: Seq<char>,
    path: Seq<char>,
    n: int,
)
    requires
        0 <= n <= lines.len(),
    ensures
        scan_usages(lines, opening, id_marker, path, n).len() <= n,
        forall|k: int|
            0 <= k < scan_usages(lines, opening, id_marker, path, n).len() ==> {
                let usage = #[trigger] scan_usages(lines, opening, id_marker, path, n)[k];
                &&& 1 <= usage.line <= n
                &&& usage.file_path == path
                &&& step_line(
                    scan_state(lines, opening, id_marker, usage.line - 1),
                    lines[usage.line - 1],
                    opening,
                    id_marker,
                ).1 == Some(usage.key)
            },
        forall|a: int, b: int|
            0 <= a < b < scan_usages(lines, opening, id_marker, path, n).len() ==> scan_usages(
                lines,
                opening,
                id_marker,
                path,
                n,
            )[a].line < scan_usages(lines, opening, id_marker, path, n)[b].line,
    decreases n,
{
    if n > 0 {
        lemma_scan_usages_ordered(lines, opening, id_marker, path, n - 1);
    }
}

/// A line on which a waiting matcher waits on: one that cannot be read, or
/// one without a key after the identifier marker, without a question mark and
/// without a closing token.
pub open spec fn waits_on(line: Option<Seq<char>>, id_marker: Seq<char>) -> bool {
    match line {
        Some(l) => {
            &&& extract_id_spec(l, id_marker) is None
            &&& !contains(l, question_mark())
            &&& !contains(l, self_closing())
            &&& !contains(l, closing_tag())
        },
        None => true,
    }
}

/// A key that a line yields is among the usages of every number of lines
/// that holds that line.
proof fn lemma_usage_present(
    lines: Seq<Option<Seq<char>>>,
    opening: Seq<char>,
    id_marker: Seq<char>,
    path: Seq<char>,
    line: int,
    n: int,
)
    requires
        1 <= line <= n,
        step_line(
            scan_state(lines, opening, id_marker, line - 1),
            lines[line - 1],
            opening,
            id_marker,
        ).1 is Some,
    ensures
        scan_usages(lines, opening, id_marker, path, n).contains(
            KeyUsageView {
                key: step_line(
                    scan_state(lines, opening, id_marker, line - 1),
                    lines[line - 1],
                    opening,
                    id_marker,
                ).1.unwrap(),
                line: line as nat,
                file_path: path,
            },
        ),
    decreases n - line,
{
    let key = step_line(
        scan_state(lines, opening, id_marker, line - 1),
        lines[line - 1],
        opening,
        id_marker,
    ).1.unwrap();
    let usage = KeyUsageView { key, line: line as nat, file_path: path };
    let all = scan_usages(lines, opening, id_marker, path, n);
    let before = scan_usages(lines, opening, id_marker, path, n - 1);
    if line == n {
        assert(all == before.push(usage));
        assert(all[before.len() as int] == usage);
    } else {
        lemma_usage_present(lines, opening, id_marker, path, line, n - 1);
        let at = choose|at: int| 0 <= at < before.len() && before[at] == usage;
        assert(all[at] == usage);
    }
}

/// A matcher that sees the opening marker on line `first`, and carries no
/// ternary flag into it, waits over the lines on which it can only wait on:
/// it is still waiting, without the flag, after each line from `first` to
/// `upto`, and none of them yields a key.
proof fn lemma_waits(
    lines: Seq<Option<Seq<char>>>,
    opening: Seq<char>,
    id_marker: Seq<char>,
    first: int,
    upto: int,
)
    requires
        1 <= first <= upto <= lines.len(),
        scan_state(lines, opening, id_marker, first - 1) != (ScanState::AwaitingIdentifier {
            ternary: true,
        }),
        lines[first - 1] is Some,
        contains(lines[first - 1].unwrap(), opening),
        forall|k: int| first <= k <= upto ==> waits_on(#[trigger] lines[k - 1], id_marker),
    ensures
        scan_state(lines, opening, id_marker, upto) == (ScanState::AwaitingIdentifier {
            ternary: false,
        }),
        forall|k: int|
            first <= k <= upto ==> step_line(
                #[trigger] scan_state(lines, opening, id_marker, k - 1),
                lines[k - 1],
                opening,
                id_marker,
            ).1 is None,
    decreases upto - first,
{
    assert(waits_on(lines[upto - 1], id_marker));
    if first < upto {
        lemma_waits(lines, opening, id_marker, first, upto - 1);
    }
}

/// A key that comes on a later line than the opening marker is a usage on
/// the line of the key. Where line `first` holds the opening marker, the
/// matcher carries no ternary flag into it, the lines from `first` up to the
/// line before `last` hold no key after the identifier marker, no question
/// mark and no closing token, and line `last` holds a key after the
/// identifier marker: that key is a usage on line `last`, and there is no
/// usage on any line from `first` up to the line before `last`.
pub proof fn lemma_key_on_later_line(
    lines: Seq<Option<Seq<char>>>,
    opening: Seq<char>,
    id_marker: Seq<char>,
    path: Seq<char>,
    first: int,
    last: int,
)
    requires
        1 <= first < last <= lines.len(),
        scan_state(lines, opening, id_marker, first - 1) != (ScanState::AwaitingIdentifier {
            ternary: true,
        }),
        lines[first - 1] is Some,
        contains(lines[first - 1].unwrap(), opening),
        forall|k: int| first <= k < last ==> waits_on(#[trigger] lines[k - 1], id_marker),
        lines[last - 1] is Some,
        extract_id_spec(lines[last - 1].unwrap(), id_marker) is Some,
    ensures
        scan_usages(lines, opening, id_marker, path, lines.len() as int).contains(
            KeyUsageView {
                key: extract_id_spec(lines[last - 1].unwrap(), id_marker).unwrap(),
                line: last as nat,
                file_path: path,
            },
        ),
        forall|k: int|
            0 <= k < scan_usages(lines, opening, id_marker, path, lines.len() as int).len() ==> !(
            first <= (#[trigger] scan_usages(
                lines,
                opening,
                id_marker,
                path,
                lines.len() as int,
            )[k]).line < last),
{
    let n = lines.len() as int;
    let usages = scan_usages(lines, opening, id_marker, path, n);
    lemma_waits(lines, opening, id_marker, first, last - 1);
    assert(scan_state(lines, opening, id_marker, last - 1) == (ScanState::AwaitingIdentifier {
        ternary: false,
    }));
    lemma_usage_present(lines, opening, id_marker, path, last, n);
    lemma_scan_usages_ordered(lines, opening, id_marker, path, n);
    assert forall|k: int| 0 <= k < usages.len() implies !(first <= (#[trigger] usages[k]).line
        < last) by {
        let line = usages[k].line as int;
        if first <= line < last {
            assert(step_line(
                scan_state(lines, opening, id_marker, line - 1),
                lines[line - 1],
                opening,
                id_marker,
            ).1 is None);
        }
    }
}

/// A file in which no line holds the opening marker yields no usage to that
/// marker's matcher, which stays idle.
pub proof fn lemma_scan_without_opening(
    lines: Seq<Option<Seq<char>>>,
    opening: Seq<char>,
    id_marker: Seq<char>,
    path: Seq<char>,
    n: int,
)
    requires
        0 <= n <= lines.len(),
        forall|i: int| 0 <= i < n && lines[i] is Some ==> !contains(lines[i].unwrap(), opening),
    ensures
        scan_state(lines, opening, id_marker, n) == ScanState::Idle,
        scan_usages(lines, opening, id_marker, path, n).len() == 0,
    decreases n,
{
    if n > 0 {
        lemma_scan_without_opening(lines, opening, id_marker, path, n - 1);
    }
}

/// Each key that a line yields to the first `m` markers follows one of them
/// on that line.
proof fn lemma_marker_keys_found(line: Seq<char>, markers: Seq<Seq<char>>, m: int)
    requires
        0 <= m <= markers.len(),
    ensures
        marker_keys(line, markers, m).len() <= m,
        forall|k: int|
            0 <= k < marker_keys(line, markers, m).len() ==> exists|j: int|
                0 <= j < m && extract_id_spec(line, markers[j]) == Some(
                    #[trigger] marker_keys(line, markers, m)[k],
                ),
    decreases m,
{
    if m > 0 {
        lemma_marker_keys_found(line, markers, m - 1);
        let before = marker_keys(line, markers, m - 1);
        let all = marker_keys(line, markers, m);
        assert forall|k: int| 0 <= k < all.len() implies exists|j: int|
            0 <= j < m && extract_id_spec(line, markers[j]) == Some(#[trigger] all[k]) by {
            if k < before.len() {
                let j = choose|j: int|
                    0 <= j < m - 1 && extract_id_spec(line, markers[j]) == Some(before[k]);
                assert(0 <= j < m && extract_id_spec(line, markers[j]) == Some(all[k]));
            } else {
                assert(extract_id_spec(line, markers[m - 1]) == Some(all[k]));
            }
        }
    }
}

/// The usages that the bare markers find in the first `n` lines come in
/// ascending order of their lines. Each carries the file's identity and the
/// number of a readable line, between 1 and `n`, on which one of the markers
/// stands before the usage's key.
pub proof fn lemma_marker_usages_ordered(
    lines: Seq<Option<Seq<char>>>,
    markers: Seq<Seq<char>>,
    path: Seq<char>,
    n: int,
)
    requires
        0 <= n <= lines.len(),
    ensures
        forall|k: int|
            0 <= k < marker_usages(lines, markers, path, n).len() ==> {
                let usage = #[trigger] marker_usages(lines, markers, path, n)[k];
                &&& 1 <= usage.line <= n
                &&& usage.file_path == path
                &&& lines[usage.line - 1] is Some
                &&& exists|j: int|
                    0 <= j < markers.len() && extract_id_spec(
                        lines[usage.line - 1].unwrap(),
                        markers[j],
                    ) == Some(usage.key)
            },
        forall|a: int, b: int|
            0 <= a < b < marker_usages(lines, markers, path, n).len() ==> marker_usages(
                lines,
                markers,
                path,
                n,
            )[a].line <= marker_usages(lines, markers, path, n)[b].line,
    decreases n,
{
    if n > 0 {
        lemma_marker_usages_ordered(lines, markers, path, n - 1);
        let before = marker_usages(lines, markers, path, n - 1);
        let all = marker_usages(lines, markers, path, n);
        match lines[n - 1] {
            Some(line) => {
                let keys = marker_keys(line, markers, markers.len() as int);
                lemma_marker_keys_found(line, markers, markers.len() as int);
                assert forall|k: int| 0 <= k < all.len() implies {
                    let usage = #[trigger] all[k];
                    &&& 1 <= usage.line <= n
                    &&& usage.file_path == path
                    &&& lines[usage.line - 1] is Some
                    &&& exists|j: int|
                        0 <= j < markers.len() && extract_id_spec(
                            lines[usage.line - 1].unwrap(),
                            markers[j],
                        ) == Some(usage.key)
                } by {
                    if k < before.len() {
                        assert(all[k] == before[k]);
                    } else {
                        let key = keys[k - before.len()];
                        assert(all[k] == KeyUsageView { key, line: n as nat, file_path: path });
                        let j = choose|j: int|
                            0 <= j < markers.len() && extract_id_spec(line, markers[j]) == Some(
                                key,
                            );
                        assert(0 <= j < markers.len() && extract_id_spec(
                            lines[n - 1].unwrap(),
                            markers[j],
                        ) == Some(all[k].key));
                    }
                }
                assert forall|a: int, b: int| 0 <= a < b < all.len() implies all[a].line
                    <= all[b].line by {
                    if b < before.len() {
                        assert(all[a] == before[a] && all[b] == before[b]);
                    } else if a < before.len() {
                        assert(all[a] == before[a]);
                        assert(all[b].line == n);
                    } else {
                        assert(all[a].line == n && all[b].line == n);
                    }
                }
            },
            None => {},
        }
    }
}

/// Advances one matcher over one line.
pub fn scan_line(state: ScanState, line: &str, opening_tag: &str, id_tag: &str) -> (r: (
    ScanState,
    Option<String>,
))
    ensures
        (r.0, opt_view(r.1)) == step(state, line@, opening_tag@, id_tag@),
{
    let chars = to_chars(line);
    let opening = to_chars(opening_tag);
    let id_marker = to_chars(id_tag);
    scan_chars(state, &chars, &opening, &id_marker)
}

/// Advances one matcher over one line, given as characters.
fn scan_chars(state: ScanState, line: &Vec<char>, opening: &Vec<char>, id_marker: &Vec<char>) -> (r:
    (ScanState, Option<String>))
    ensures
        (r.0, opt_view(r.1)) == step(state, line@, opening@, id_marker@),
{
    let ternary = match state {
        ScanState::Idle => {
            if !contains_chars(line, opening) {
                return (ScanState::Idle, None);
            }
            false
        },
        ScanState::AwaitingIdentifier { ternary } => ternary,
    };
    if let Some((from, to)) = extract_id_chars(line, id_marker) {
        return (ScanState::Idle, Some(substring(line, from, to)));
    }
    if contains_chars(line, &one_char('?')) {
        return (ScanState::AwaitingIdentifier { ternary: true }, quoted_string(line));
    }
    if ternary && contains_chars(line, &one_char(':')) {
        return (ScanState::Idle, quoted_string(line));
    }
    if contains_chars(line, &two_chars('/', '>')) || contains_chars(line, &two_chars('<', '/')) {
        return (ScanState::Idle, None);
    }
    (ScanState::AwaitingIdentifier { ternary }, None)
}

/// The first quoted substring of `line`, without its quotes.
fn quoted_string(line: &Vec<char>) -> (r: Option<String>)
    ensures
        opt_view(r) == extract_quoted_spec(line@),
{
    match quoted_chars(line, 0) {
        Some((from, to)) => Some(substring(line, from, to)),
        None => None,
    }
}

/// A source file as the scanner sees it: its identity and its lines.
#[derive(Debug, Clone)]
pub struct TSFile {
    pub path: String,
    /// The lines in file order; `None` stands for a line that could not be
    /// read, which still counts in the line numbers.
    pub lines: Vec<Option<String>>,
}

impl TSFile {
    /// The lines as contracts see them.
    pub open spec fn line_views(&self) -> Seq<Option<Seq<char>>> {
        self.lines@.map_values(|l: Option<String>| opt_view(l))
    }

    /// A file with the given identity whose lines are those of `content`.
    pub fn new(path: &str, content: &str) -> (file: Self)
        ensures
            file.path@ == path@,
            file.line_views() == lines_of(content@).map_values(|l: Seq<char>| Some(l)),
    {
        let mut split = split_lines(content);
        let ghost all = split@;
        let mut lines: Vec<Option<String>> = Vec::new();
        let mut i: usize = 0;
        let n = split.len();
        while i < n
            invariant
                i <= n,
                n == split.len(),
                split@ == all,
                lines.len() == i,
                forall|k: int| 0 <= k < i ==> lines@[k] == Some(all[k]),
            decreases n - i,
        {
            lines.push(Some(split[i].clone()));
            i += 1;
        }
        let file = TSFile { path: path.to_owned(), lines };
        assert(file.line_views() =~= lines_of(content@).map_values(|l: Seq<char>| Some(l))) by {
            assert(string_views(all) == lines_of(content@));
            assert forall|k: int| 0 <= k < n implies file.line_views()[k] == Some(
                string_views(all)[k],
            ) by {}
        }
        file
    }

    /// A file with the given identity and lines, where a line that could not
    /// be read is `None`.
    pub fn from_lines(path: String, lines: Vec<Option<String>>) -> (file: Self)
        ensures
            file.path == path,
            file.lines == lines,
    {
        TSFile { path, lines }
    }

    /// The usages of the tag idiom: `<FormattedMessage`, then `id=`.
    pub fn find_formatted_message_usages(&self) -> (usages: Vec<KeyUsage>)
        ensures
            usage_views(usages@) == scan_usages(
                self.line_views(),
                "<FormattedMessage"@,
                "id="@,
                self.path@,
                self.lines.len() as int,
            ),
    {
        self.find_usages("<FormattedMessage", "id=")
    }

    /// The usages of the call idiom: `formatMessage(`, then `id:`.
    pub fn find_format_message_usages(&self) -> (usages: Vec<KeyUsage>)
        ensures
            usage_views(usages@) == scan_usages(
                self.line_views(),
                "formatMessage("@,
                "id:"@,
                self.path@,
                self.lines.len() as int,
            ),
    {
        self.find_usages("formatMessage(", "id:")
    }

    /// Runs one matcher over the file: `opening_tag` announces a reference,
    /// `id_tag` stands before the quoted key.
    pub fn find_usages(&self, opening_tag: &str, id_tag: &str) -> (usages: Vec<KeyUsage>)
        ensures
            usage_views(usages@) == scan_usages(
                self.line_views(),
                opening_tag@,
                id_tag@,
                self.path@,
                self.lines.len() as int,
            ),
    {
        let opening = to_chars(opening_tag);
        let id_marker = to_chars(id_tag);
        let mut results: Vec<KeyUsage> = Vec::new();
        let mut state = ScanState::Idle;
        let n = self.lines.len();
        let mut i: usize = 0;
        assert(usage_views(results@) =~= Seq::<KeyUsageView>::empty());
        while i < n
            invariant
                i <= n,
                n == self.lines.len(),
                opening@ == opening_tag@,
                id_marker@ == id_tag@,
                state == scan_state(self.line_views(), opening@, id_marker@, i as int),
                usage_views(results@) == scan_usages(
                    self.line_views(),
                    opening@,
                    id_marker@,
                    self.path@,
                    i as int,
                ),
            decreases n - i,
        {
            assert(self.line_views()[i as int] == opt_view(self.lines@[i as int]));
            if let Some(line) = &self.lines[i] {
                let chars = to_chars(line.as_str());
                let (next, found) = scan_chars(state, &chars, &opening, &id_marker);
                if let Some(key) = found {
                    let ghost before = results@;
                    let usage = KeyUsage { key, line: i + 1, file_path: self.path.clone() };
                    results.push(usage);
                    assert(usage_views(results@) =~= usage_views(before).push(usage@));
                }
                state = next;
            }
            i += 1;
        }
        results
    }

    /// The usages of the bare markers: `translationId:`, `translationKey:`,
    /// `transId:`, `pageTitleId=` and `titleId=`, each checked on every line.
    pub fn find_misc_usages(&self) -> (usages: Vec<KeyUsage>)
        ensures
            usage_views(usages@) == marker_usages(
                self.line_views(),
                misc_markers(),
                self.path@,
                self.lines.len() as int,
            ),
    {
        let identifiers: [&str; 5] = [
            "translationId:",
            "translationKey:",
            "transId:",
            "pageTitleId=",
            "titleId=",
        ];
        assert(str_views(identifiers@) =~= misc_markers());
        self.find_usages_multiple_tags(identifiers.as_slice())
    }

    /// Checks every line for every one of `tags`: each marker that stands on a
    /// line with a quoted string after it yields one usage on that line.
    pub fn find_usages_multiple_tags(&self, tags: &[&str]) -> (usages: Vec<KeyUsage>)
        ensures
            usage_views(usages@) == marker_usages(
                self.line_views(),
                str_views(tags@),
                self.path@,
                self.lines.len() as int,
            ),
    {
        let ghost wanted = str_views(tags@);
        let mut markers: Vec<Vec<char>> = Vec::new();
        let mut t: usize = 0;
        while t < tags.len()
            invariant
                t <= tags.len(),
                markers.len() == t,
                wanted == str_views(tags@),
                forall|k: int| 0 <= k < t ==> markers@[k]@ == wanted[k],
            decreases tags.len() - t,
        {
            markers.push(to_chars(tags[t]));
            t += 1;
        }
        let mut results: Vec<KeyUsage> = Vec::new();
        let n = self.lines.len();
        let mut i: usize = 0;
        assert(usage_views(results@) =~= Seq::<KeyUsageView>::empty());
        while i < n
            invariant
                i <= n,
                n == self.lines.len(),
                wanted == str_views(tags@),
                markers.len() == tags.len(),
                forall|k: int| 0 <= k < markers.len() ==> markers@[k]@ == wanted[k],
                usage_views(results@) == marker_usages(
                    self.line_views(),
                    wanted,
                    self.path@,
                    i as int,
                ),
            decreases n - i,
        {
            assert(self.line_views()[i as int] == opt_view(self.lines@[i as int]));
            if let Some(line) = &self.lines[i] {
                let chars = to_chars(line.as_str());
                let ghost before = usage_views(results@);
                let mut j: usize = 0;
                assert(before + usages_of_keys(
                    marker_keys(line@, wanted, 0),
                    (i + 1) as nat,
                    self.path@,
                ) =~= before);
                while j < markers.len()
                    invariant
                        j <= markers.len(),
                        i < n,
                        chars@ == line@,
                        markers.len() == wanted.len(),
                        forall|k: int| 0 <= k < markers.len() ==> markers@[k]@ == wanted[k],
                        usage_views(results@) == before + usages_of_keys(
                            marker_keys(line@, wanted, j as int),
                            (i + 1) as nat,
                            self.path@,
                        ),
                    decreases markers.len() - j,
                {
                    if let Some((from, to)) = extract_id_chars(&chars, &markers[j]) {
                        let ghost had = results@;
                        let usage = KeyUsage {
                            key: substring(&chars, from, to),
                            line: i + 1,
                            file_path: self.path.clone(),
                        };
                        results.push(usage);
                        assert(usage_views(results@) =~= usage_views(had).push(usage@));
                        assert(usage_views(results@) =~= before + usages_of_keys(
                            marker_keys(line@, wanted, j + 1),
                            (i + 1) as nat,
                            self.path@,
                        ));
                    }
                    j += 1;
                }
            }
            i += 1;
        }
        results
    }
}

} // verus!
