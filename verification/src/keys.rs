//! The first pass over the text of a dictionary file: the keys of the object
//! as they are written, repeated ones included.
//!
//! A parser keeps one value for a key that is written twice. This pass reads
//! the text character by character, as a lexer does, and hands out every key
//! of the outermost object: each string that stands where exactly one brace
//! or bracket is open and that a colon follows, with its escapes resolved.

use crate::text::{string_from_chars, string_views, to_chars};
use vstd::prelude::*;

verus! {

/// Where the pass stands in the text.
#[derive(Debug, Clone, Copy, PartialEq, Eq)]
pub enum Lex {
    /// Between two strings.
    Outside,
    /// Inside a string.
    InString,
    /// Behind a backslash inside a string.
    Escape,
    /// Behind `\u` inside a string: `read` hexadecimal digits have been read,
    /// and `value` is the number that they write.
    Hex { read: u8, value: u32 },
}

/// The state of the pass after some characters.
pub ghost struct KeyScan {
    /// The number of braces and brackets that are open.
    pub depth: nat,
    pub lex: Lex,
    /// The characters of the string that is being read or was read last.
    pub token: Seq<char>,
    /// The last string stood where exactly one brace or bracket was open, and
    /// only white space has followed it.
    pub pending: bool,
    /// The leading half of a surrogate pair that `\u` has written, while its
    /// trailing half is owed.
    pub high: Option<u32>,
    /// The keys found so far.
    pub keys: Seq<Seq<char>>,
}

/// The state before the first character.
pub open spec fn start() -> KeyScan {
    KeyScan {
        depth: 0,
        lex: Lex::Outside,
        token: Seq::empty(),
        pending: false,
        high: None,
        keys: Seq::empty(),
    }
}

/// White space between the tokens of JSON.
pub open spec fn is_json_space(c: char) -> bool {
    c == ' ' || c == '\t' || c == '\n' || c == '\r'
}

/// The number that a hexadecimal digit writes; 0 for any other character.
pub open spec fn hex_value(c: char) -> u32 {
    let code = c as u32;
    if 48 <= code <= 57 {
        (code - 48) as u32
    } else if 65 <= code <= 70 {
        (code - 55) as u32
    } else if 97 <= code <= 102 {
        (code - 87) as u32
    } else {
        0
    }
}

/// The character that a backslash and `c` write, where `c` is not `u`.
pub open spec fn escaped(c: char) -> char {
    if c == 'b' {
        '\u{8}'
    } else if c == 'f' {
        '\u{c}'
    } else if c == 'n' {
        '\n'
    } else if c == 'r' {
        '\r'
    } else if c == 't' {
        '\t'
    } else {
        c
    }
}

/// `unit` is the leading half of a surrogate pair.
pub open spec fn is_leading(unit: u32) -> bool {
    0xD800 <= unit <= 0xDBFF
}

/// `unit` is the trailing half of a surrogate pair.
pub open spec fn is_trailing(unit: u32) -> bool {
    0xDC00 <= unit <= 0xDFFF
}

/// The code point that a surrogate pair writes.
pub open spec fn paired(leading: u32, trailing: u32) -> u32 {
    (0x10000 + (leading - 0xD800) * 0x400 + (trailing - 0xDC00)) as u32
}

/// The state after `\u` and four digits have written the code unit `unit`. A
/// unit that is no surrogate is a character of the string. A leading
/// surrogate waits for its trailing one, and the two together are one
/// character. A surrogate without its other half writes nothing.
pub open spec fn with_unit(s: KeyScan, unit: u32) -> KeyScan {
    if s.high is Some && is_trailing(unit) {
        KeyScan {
            lex: Lex::InString,
            token: s.token.push(paired(s.high.unwrap(), unit) as char),
            high: None,
            ..s
        }
    } else if is_leading(unit) {
        KeyScan { lex: Lex::InString, high: Some(unit), ..s }
    } else if is_trailing(unit) {
        KeyScan { lex: Lex::InString, high: None, ..s }
    } else {
        KeyScan { lex: Lex::InString, token: s.token.push(unit as char), high: None, ..s }
    }
}

/// The state after one more character.
///
/// Outside a string, a quote opens a string, a colon makes a key of the
/// string before it where that string stood with exactly one brace or
/// bracket open, braces and brackets open and close, and white space changes
/// nothing. Inside a string, a quote ends it, a backslash starts an escape,
/// and any other character belongs to the string. Behind `\u` the next four
/// characters are read as hexadecimal digits and write one code unit; of the
/// number read so far three digits are carried on, so that it stays below
/// 0x10000.
pub open spec fn key_step(s: KeyScan, c: char) -> KeyScan {
    match s.lex {
        Lex::Outside => {
            if c == '"' {
                KeyScan {
                    lex: Lex::InString,
                    token: Seq::empty(),
                    pending: false,
                    high: None,
                    ..s
                }
            } else if c == ':' {
                KeyScan {
                    keys: if s.pending {
                        s.keys.push(s.token)
                    } else {
                        s.keys
                    },
                    pending: false,
                    ..s
                }
            } else if is_json_space(c) {
                s
            } else if c == '{' || c == '[' {
                KeyScan { depth: s.depth + 1, pending: false, ..s }
            } else if c == '}' || c == ']' {
                KeyScan {
                    depth: if s.depth > 0 {
                        (s.depth - 1) as nat
                    } else {
                        0
                    },
                    pending: false,
                    ..s
                }
            } else {
                KeyScan { pending: false, ..s }
            }
        },
        Lex::InString => {
            if c == '"' {
                KeyScan { lex: Lex::Outside, pending: s.depth == 1, high: None, ..s }
            } else if c == '\\' {
                KeyScan { lex: Lex::Escape, ..s }
            } else {
                KeyScan { token: s.token.push(c), high: None, ..s }
            }
        },
        Lex::Escape => {
            if c == 'u' {
                KeyScan { lex: Lex::Hex { read: 0, value: 0 }, ..s }
            } else {
                KeyScan { lex: Lex::InString, token: s.token.push(escaped(c)), high: None, ..s }
            }
        },
        Lex::Hex { read, value } => {
            let unit = ((value % 0x1000) * 16 + hex_value(c)) as u32;
            if read < 3 {
                KeyScan { lex: Lex::Hex { read: (read + 1) as u8, value: unit }, ..s }
            } else {
                with_unit(s, unit)
            }
        },
    }
}

/// The state that the first `n` characters of `text` lead to from the state
/// `s`.
pub open spec fn scan_from(s: KeyScan, text: Seq<char>, n: int) -> KeyScan
    decreases n,
{
    if n <= 0 {
        s
    } else {
        key_step(scan_from(s, text, n - 1), text[n - 1])
    }
}

/// The state after the first `n` characters of `text`.
pub open spec fn key_scan(text: Seq<char>, n: int) -> KeyScan {
    scan_from(start(), text, n)
}

/// The state that the whole of `text` leads to from the state `s`.
pub open spec fn after(s: KeyScan, text: Seq<char>) -> KeyScan {
    scan_from(s, text, text.len() as int)
}

/// The keys of the outermost object that `text` writes, in the order in which
/// they are written, each as often as it is written.
pub open spec fn object_keys(text: Seq<char>) -> Seq<Seq<char>> {
    key_scan(text, text.len() as int).keys
}

/// A text is read piece by piece: reading `a` and then `b` leads to the state
/// that reading the two as one text leads to.
pub proof fn lemma_after_concat(s: KeyScan, a: Seq<char>, b: Seq<char>)
    ensures
        after(s, a + b) == after(after(s, a), b),
{
    lemma_scan_concat(s, a, b, b.len() as int);
}

/// The first characters of `a + b` lead where they lead in `a`, and those
/// beyond `a` where they lead in `b` from the state after `a`.
proof fn lemma_scan_concat(s: KeyScan, a: Seq<char>, b: Seq<char>, k: int)
    requires
        -a.len() <= k <= b.len(),
    ensures
        k <= 0 ==> scan_from(s, a + b, a.len() + k) == scan_from(s, a, a.len() + k),
        k >= 0 ==> scan_from(s, a + b, a.len() + k) == scan_from(after(s, a), b, k),
    decreases a.len() + k,
{
    if a.len() + k > 0 {
        lemma_scan_concat(s, a, b, k - 1);
    }
}

/// A text without a quote and without a backslash.
pub open spec fn plain(t: Seq<char>) -> bool {
    forall|i: int| 0 <= i < t.len() ==> t[i] != '"' && t[i] != '\\'
}

/// `t` between two quotes.
pub open spec fn quoted(t: Seq<char>) -> Seq<char> {
    seq!['"'] + t + seq!['"']
}

/// A member of an object as it is written: the key, a colon, a space and the
/// value.
pub open spec fn member_text(key: Seq<char>, value: Seq<char>) -> Seq<char> {
    quoted(key) + seq![':', ' '] + quoted(value)
}

/// The members of an object as they are written, one on a line, with a comma
/// between two of them.
pub open spec fn members_text(members: Seq<(Seq<char>, Seq<char>)>) -> Seq<char>
    decreases members.len(),
{
    if members.len() == 0 {
        Seq::empty()
    } else {
        let front = members.drop_last();
        members_text(front) + (if front.len() > 0 {
            seq![',']
        } else {
            Seq::empty()
        }) + seq!['\n', ' ', ' '] + member_text(members.last().0, members.last().1)
    }
}

/// An object as it is written: a brace, the members, a line feed and a brace.
pub open spec fn object_text(members: Seq<(Seq<char>, Seq<char>)>) -> Seq<char> {
    seq!['{'] + members_text(members) + seq!['\n', '}']
}

/// The keys of the given members, in order.
pub open spec fn member_keys(members: Seq<(Seq<char>, Seq<char>)>) -> Seq<Seq<char>> {
    members.map_values(|m: (Seq<char>, Seq<char>)| m.0)
}

/// A text of one character leads to the state after that character.
proof fn lemma_one(s: KeyScan, c: char)
    ensures
        after(s, seq![c]) == key_step(s, c),
{
    reveal_with_fuel(scan_from, 2);
}

/// Between strings, white space changes nothing.
proof fn lemma_space(s: KeyScan, t: Seq<char>, n: int)
    requires
        s.lex == Lex::Outside,
        forall|i: int| 0 <= i < t.len() ==> is_json_space(t[i]),
        0 <= n <= t.len(),
    ensures
        scan_from(s, t, n) == s,
    decreases n,
{
    if n > 0 {
        lemma_space(s, t, n - 1);
    }
}

/// Inside a string, plain characters join the string.
proof fn lemma_plain(s: KeyScan, t: Seq<char>, n: int)
    requires
        s.lex == Lex::InString,
        plain(t),
        0 <= n <= t.len(),
    ensures
        scan_from(s, t, n) == (KeyScan {
            token: s.token + t.take(n),
            high: if n > 0 {
                None
            } else {
                s.high
            },
            ..s
        }),
    decreases n,
{
    if n > 0 {
        lemma_plain(s, t, n - 1);
        assert(s.token + t.take(n) =~= (s.token + t.take(n - 1)).push(t[n - 1]));
    } else {
        assert(s.token + t.take(0) =~= s.token);
    }
}

/// Between strings, a plain text in quotes is read as one string.
proof fn lemma_quoted(s: KeyScan, t: Seq<char>)
    requires
        s.lex == Lex::Outside,
        plain(t),
    ensures
        after(s, quoted(t)) == (KeyScan {
            lex: Lex::Outside,
            token: t,
            pending: s.depth == 1,
            high: None,
            ..s
        }),
{
    let open = seq!['"'];
    let opened = after(s, open);
    lemma_one(s, '"');
    lemma_plain(opened, t, t.len() as int);
    assert(t.take(t.len() as int) =~= t);
    assert(opened.token + t =~= t);
    let inside = after(opened, t);
    lemma_one(inside, '"');
    lemma_after_concat(s, open, t);
    lemma_after_concat(s, open + t, open);
}

/// Directly inside the outermost object, a member with a plain key and a
/// plain value adds its key to the keys.
proof fn lemma_member(s: KeyScan, key: Seq<char>, value: Seq<char>)
    requires
        s.lex == Lex::Outside,
        s.depth == 1,
        plain(key),
        plain(value),
    ensures
        after(s, member_text(key, value)) == (KeyScan {
            lex: Lex::Outside,
            token: value,
            pending: true,
            high: None,
            keys: s.keys.push(key),
            ..s
        }),
{
    let colon = seq![':', ' '];
    lemma_quoted(s, key);
    let keyed = after(s, quoted(key));
    let parted = after(keyed, colon);
    assert(colon =~= seq![':'] + seq![' ']);
    lemma_after_concat(keyed, seq![':'], seq![' ']);
    lemma_one(keyed, ':');
    lemma_one(key_step(keyed, ':'), ' ');
    lemma_quoted(parted, value);
    lemma_after_concat(s, quoted(key), colon);
    lemma_after_concat(s, quoted(key) + colon, quoted(value));
}

/// Directly inside the outermost object, members with plain keys and plain
/// values add their keys to the keys, in order.
proof fn lemma_members(s: KeyScan, members: Seq<(Seq<char>, Seq<char>)>)
    requires
        s.lex == Lex::Outside,
        s.depth == 1,
        forall|i: int| 0 <= i < members.len() ==> plain(members[i].0) && plain(members[i].1),
    ensures
        after(s, members_text(members)).lex == Lex::Outside,
        after(s, members_text(members)).depth == 1,
        after(s, members_text(members)).keys == s.keys + member_keys(members),
    decreases members.len(),
{
    if members.len() == 0 {
        assert(s.keys + member_keys(members) =~= s.keys);
    } else {
        let front = members.drop_last();
        let last = members.last();
        let comma: Seq<char> = if front.len() > 0 {
            seq![',']
        } else {
            Seq::empty()
        };
        let indent = seq!['\n', ' ', ' '];
        lemma_members(s, front);
        let a = after(s, members_text(front));
        let b = after(a, comma);
        if front.len() > 0 {
            lemma_one(a, ',');
        }
        let c = after(b, indent);
        lemma_space(b, indent, 3);
        lemma_member(c, last.0, last.1);
        lemma_after_concat(s, members_text(front), comma);
        lemma_after_concat(s, members_text(front) + comma, indent);
        lemma_after_concat(
            s,
            members_text(front) + comma + indent,
            member_text(last.0, last.1),
        );
        assert(s.keys + member_keys(members) =~= (s.keys + member_keys(front)).push(last.0));
    }
}

/// The keys of an object that is written with one member on a line are the
/// keys of its members, where no key and no value holds a quote or a
/// backslash.
pub proof fn lemma_object_keys(members: Seq<(Seq<char>, Seq<char>)>)
    requires
        forall|i: int| 0 <= i < members.len() ==> plain(members[i].0) && plain(members[i].1),
    ensures
        object_keys(object_text(members)) == member_keys(members),
{
    let open = seq!['{'];
    let close = seq!['\n', '}'];
    let opened = after(start(), open);
    lemma_one(start(), '{');
    lemma_members(opened, members);
    let filled = after(opened, members_text(members));
    assert(close =~= seq!['\n'] + seq!['}']);
    lemma_after_concat(filled, seq!['\n'], seq!['}']);
    lemma_one(filled, '\n');
    lemma_one(filled, '}');
    lemma_after_concat(start(), open, members_text(members));
    lemma_after_concat(start(), open + members_text(members), close);
    assert(opened.keys + member_keys(members) =~= member_keys(members));
}

/// The character with the code `code`, through `char::from_u32` of std: there
/// is one exactly where `code` is a Unicode scalar value, that is at most
/// 0x10FFFF and no surrogate.
#[verifier::external_body]
fn char_from_code(code: u32) -> (r: Option<char>)
    ensures
        match r {
            Some(c) => c as u32 == code,
            None => code > 0x10FFFF || 0xD800 <= code <= 0xDFFF,
        },
{
    char::from_u32(code)
}

/// The pass as it runs.
struct KeyScanner {
    depth: usize,
    lex: Lex,
    token: Vec<char>,
    pending: bool,
    high: Option<u32>,
    keys: Vec<String>,
}

impl View for KeyScanner {
    type V = KeyScan;

    closed spec fn view(&self) -> KeyScan {
        KeyScan {
            depth: self.depth as nat,
            lex: self.lex,
            token: self.token@,
            pending: self.pending,
            high: self.high,
            keys: string_views(self.keys@),
        }
    }
}

/// The number that a hexadecimal digit writes; 0 for any other character.
fn hex_digit(c: char) -> (v: u32)
    ensures
        v == hex_value(c),
        v < 16,
{
    let code: u32 = c as u32;
    if 48 <= code && code <= 57 {
        code - 48
    } else if 65 <= code && code <= 70 {
        code - 55
    } else if 97 <= code && code <= 102 {
        code - 87
    } else {
        0
    }
}

/// The character that a backslash and `c` write, where `c` is not `u`.
fn escaped_char(c: char) -> (r: char)
    ensures
        r == escaped(c),
{
    if c == 'b' {
        '\u{8}'
    } else if c == 'f' {
        '\u{c}'
    } else if c == 'n' {
        '\n'
    } else if c == 'r' {
        '\r'
    } else if c == 't' {
        '\t'
    } else {
        c
    }
}

impl KeyScanner {
    /// Adds the character with the code `code` to the string that is being
    /// read.
    fn push_code(&mut self, code: u32)
        requires
            code <= 0x10FFFF,
            !(0xD800 <= code <= 0xDFFF),
        ensures
            final(self)@ == (KeyScan { token: old(self)@.token.push(code as char), ..old(self)@ }),
            final(self).depth == old(self).depth,
            final(self).high == old(self).high,
    {
        match char_from_code(code) {
            Some(c) => {
                proof {
                    vstd::utf8::char_u32_cast(c, code);
                }
                self.token.push(c);
            },
            None => {},
        }
    }

    /// Takes in the code unit that `\u` and four digits have written.
    fn take_unit(&mut self, unit: u32)
        requires
            unit < 0x10000,
            old(self).high is Some ==> is_leading(old(self).high.unwrap()),
        ensures
            final(self)@ == with_unit(old(self)@, unit),
            final(self).depth == old(self).depth,
            final(self).high is Some ==> is_leading(final(self).high.unwrap()),
    {
        let trailing = 0xDC00 <= unit && unit <= 0xDFFF;
        let leading = self.high;
        self.lex = Lex::InString;
        self.high = None;
        if trailing {
            if let Some(first) = leading {
                self.push_code(0x10000 + (first - 0xD800) * 0x400 + (unit - 0xDC00));
            }
        } else if 0xD800 <= unit && unit <= 0xDBFF {
            self.high = Some(unit);
        } else {
            self.push_code(unit);
        }
    }

    /// Takes in one more character.
    fn advance(&mut self, c: char)
        requires
            old(self).depth < usize::MAX,
            old(self).high is Some ==> is_leading(old(self).high.unwrap()),
        ensures
            final(self)@ == key_step(old(self)@, c),
            final(self).depth <= old(self).depth + 1,
            final(self).high is Some ==> is_leading(final(self).high.unwrap()),
    {
        match self.lex {
            Lex::Outside => {
                if c == '"' {
                    self.lex = Lex::InString;
                    self.token = Vec::new();
                    self.pending = false;
                    self.high = None;
                } else if c == ':' {
                    if self.pending {
                        let ghost before = string_views(self.keys@);
                        let key = string_from_chars(self.token.as_slice());
                        self.keys.push(key);
                        assert(string_views(self.keys@) =~= before.push(self.token@));
                    }
                    self.pending = false;
                } else if c == ' ' || c == '\t' || c == '\n' || c == '\r' {
                } else if c == '{' || c == '[' {
                    self.depth = self.depth + 1;
                    self.pending = false;
                } else if c == '}' || c == ']' {
                    if self.depth > 0 {
                        self.depth = self.depth - 1;
                    }
                    self.pending = false;
                } else {
                    self.pending = false;
                }
            },
            Lex::InString => {
                if c == '"' {
                    self.lex = Lex::Outside;
                    self.pending = self.depth == 1;
                    self.high = None;
                } else if c == '\\' {
                    self.lex = Lex::Escape;
                } else {
                    self.token.push(c);
                    self.high = None;
                }
            },
            Lex::Escape => {
                if c == 'u' {
                    self.lex = Lex::Hex { read: 0, value: 0 };
                } else {
                    self.lex = Lex::InString;
                    self.token.push(escaped_char(c));
                    self.high = None;
                }
            },
            Lex::Hex { read, value } => {
                let unit: u32 = (value % 0x1000) * 16 + hex_digit(c);
                if read < 3 {
                    self.lex = Lex::Hex { read: read + 1, value: unit };
                } else {
                    self.take_unit(unit);
                }
            },
        }
    }
}

/// Reads the keys of the outermost object that `content` writes, in the
/// order in which they are written, each as often as it is written.
pub fn read_object_keys(content: &str) -> (keys: Vec<String>)
    ensures
        string_views(keys@) == object_keys(content@),
{
    let chars = to_chars(content);
    let mut scanner = KeyScanner {
        depth: 0,
        lex: Lex::Outside,
        token: Vec::new(),
        pending: false,
        high: None,
        keys: Vec::new(),
    };
    assert(scanner@.token =~= Seq::empty() && scanner@.keys =~= Seq::empty());
    let mut i: usize = 0;
    while i < chars.len()
        invariant
            i <= chars.len(),
            chars@ == content@,
            scanner.depth <= i,
            scanner.high is Some ==> is_leading(scanner.high.unwrap()),
            scanner@ == key_scan(chars@, i as int),
        decreases chars.len() - i,
    {
        scanner.advance(chars[i]);
        i += 1;
    }
    scanner.keys
}

} // verus!
