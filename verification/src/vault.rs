//! The decrypted vault: an ordered list of `KEY=VALUE` environment variables,
//! read from and written to a dotenv-style text.
use crate::secret;
use crate::secret::SecretChars;
use crate::secret::SecretText;
use crate::text;
use vstd::prelude::*;

verus! {

/// One environment variable. Both texts are overwritten on drop.
#[derive(Debug)]
pub struct Entry {
    pub key: String,
    pub value: String,
}

impl View for Entry {
    type V = (Seq<char>, Seq<char>);

    open spec fn view(&self) -> (Seq<char>, Seq<char>) {
        (self.key@, self.value@)
    }
}

impl Entry {
    /// Overwrites and empties both texts.
    pub fn wipe(&mut self)
        ensures
            final(self)@ == (Seq::<char>::empty(), Seq::<char>::empty()),
        opens_invariants none
        no_unwind
    {
        secret::wipe_text(&mut self.key);
        secret::wipe_text(&mut self.value);
    }
}

impl Clone for Entry {
    fn clone(&self) -> (r: Self)
        ensures
            r@ == self@,
    {
        Entry { key: self.key.clone(), value: self.value.clone() }
    }
}

impl Drop for Entry {
    fn drop(&mut self)
        opens_invariants none
        no_unwind
    {
        self.wipe();
    }
}

/// The key and value of each entry.
pub open spec fn pairs(entries: Seq<Entry>) -> Seq<(Seq<char>, Seq<char>)> {
    entries.map_values(|e: Entry| e@)
}

/// The keys of a list of entries.
pub open spec fn keys(entries: Seq<(Seq<char>, Seq<char>)>) -> Seq<Seq<char>> {
    entries.map_values(|e: (Seq<char>, Seq<char>)| e.0)
}

/// The inside of a double-quoted value with `\\` and `\"` read back as one
/// character; any other backslash stands for itself.
pub open spec fn unescaped(s: Seq<char>) -> Seq<char>
    decreases s.len(),
{
    if s.len() == 0 {
        s
    } else if s[0] != '\\' {
        seq![s[0]] + unescaped(s.skip(1))
    } else if s.len() == 1 {
        s
    } else if s[1] == '\\' || s[1] == '"' {
        seq![s[1]] + unescaped(s.skip(2))
    } else {
        seq!['\\', s[1]] + unescaped(s.skip(2))
    }
}

/// `s` with a backslash put before each backslash and double quote.
pub open spec fn escaped(s: Seq<char>) -> Seq<char>
    decreases s.len(),
{
    if s.len() == 0 {
        s
    } else if s[0] == '\\' || s[0] == '"' {
        seq!['\\', s[0]] + escaped(s.skip(1))
    } else {
        seq![s[0]] + escaped(s.skip(1))
    }
}

/// Whether `v` stands between two quotes `q`.
pub open spec fn between(v: Seq<char>, q: char) -> bool {
    v.len() >= 2 && v[0] == q && v.last() == q
}

/// The value that `v` writes: surrounding quotes are taken off.
pub open spec fn unquoted(v: Seq<char>) -> Seq<char> {
    if between(v, '"') {
        unescaped(v.subrange(1, v.len() - 1))
    } else if between(v, '\'') {
        v.subrange(1, v.len() - 1)
    } else {
        v
    }
}

/// Whether a value is written in quotes: it would not be read back as it is.
pub open spec fn needs_quotes(v: Seq<char>) -> bool {
    ||| v.len() == 0
    ||| v[0] == '"'
    ||| v[0] == '\''
    ||| text::is_blank(v[0])
    ||| text::is_blank(v.last())
    ||| v.contains('#')
    ||| v.contains('\n')
}

/// How a value is written.
pub open spec fn quoted(v: Seq<char>) -> Seq<char> {
    if needs_quotes(v) {
        seq!['"'] + escaped(v) + seq!['"']
    } else {
        v
    }
}

/// The entry that one line gives, if it gives one.
pub open spec fn line_entry(raw: Seq<char>) -> Option<(Seq<char>, Seq<char>)> {
    let line = text::trimmed(raw);
    let body = text::trimmed_start(
        if text::begins_with(line, "export "@) {
            line.skip("export "@.len() as int)
        } else {
            line
        },
    );
    let n = text::first_index(body, '=');
    let key = text::trimmed(body.take(n));
    if line.len() == 0 || line[0] == '#' || n >= body.len() || key.len() == 0 {
        None
    } else {
        Some((key, unquoted(text::trimmed(body.skip(n + 1)))))
    }
}

/// The entries that a list of lines gives, in order.
pub open spec fn line_entries(lines: Seq<Seq<char>>) -> Seq<(Seq<char>, Seq<char>)>
    decreases lines.len(),
{
    if lines.len() == 0 {
        Seq::empty()
    } else {
        let rest = line_entries(lines.drop_last());
        match line_entry(lines.last()) {
            Some(e) => rest.push(e),
            None => rest,
        }
    }
}

/// Keys that a written line gives back: trimmed, without `=` or a line feed,
/// and read neither as a comment nor as an `export` prefix.
pub open spec fn clean_key(key: Seq<char>) -> bool {
    &&& key.len() > 0
    &&& !text::is_blank(key[0])
    &&& !text::is_blank(key.last())
    &&& key[0] != '#'
    &&& !key.contains('=')
    &&& !key.contains('\n')
    &&& !text::begins_with(key, "export "@)
}

/// Where the double quote stands that closes a value, of which `s` is what
/// follows the opening quote: the first that no backslash escapes. There is none
/// if a backslash escapes anything but a backslash or a double quote.
pub open spec fn closing(s: Seq<char>) -> Option<int>
    decreases s.len(),
{
    if s.len() == 0 {
        None
    } else if s[0] == '"' {
        Some(0)
    } else if s[0] != '\\' {
        match closing(s.skip(1)) {
            Some(m) => Some(m + 1),
            None => None,
        }
    } else if s.len() >= 2 && (s[1] == '\\' || s[1] == '"') {
        match closing(s.skip(2)) {
            Some(m) => Some(m + 2),
            None => None,
        }
    } else {
        None
    }
}

/// The entry over several lines with which a text begins, and how long it is: a
/// clean key and a quoted value with a line feed in it, as they are written.
pub open spec fn block(text: Seq<char>) -> Option<((Seq<char>, Seq<char>), int)> {
    let n = text::first_index(text, '=');
    let body = text.skip(n + 2);
    if n + 1 < text.len() && text[n + 1] == '"' && clean_key(text.take(n)) {
        match closing(body) {
            Some(m) => if body.take(m).contains('\n') && m + 1 < body.len() && body[m + 1]
                == '\n' {
                Some(((text.take(n), unescaped(body.take(m))), n + m + 4))
            } else {
                None
            },
            None => None,
        }
    } else {
        None
    }
}

/// The entries that a dotenv text gives: one for each line that gives one, but
/// for entries that were written over several lines.
pub open spec fn parsed(text: Seq<char>) -> Seq<(Seq<char>, Seq<char>)>
    decreases text.len(),
{
    if text.len() == 0 {
        Seq::empty()
    } else {
        proof {
            lemma_block_len(text);
            text::lemma_first_index(text, '\n');
        }
        match block(text) {
            Some(b) => seq![b.0] + parsed(text.skip(b.1)),
            None => {
                let n = text::first_index(text, '\n');
                let rest = if n < text.len() {
                    parsed(text.skip(n + 1))
                } else {
                    Seq::empty()
                };
                match line_entry(text.take(n)) {
                    Some(e) => seq![e] + rest,
                    None => rest,
                }
            },
        }
    }
}

proof fn lemma_closing_range(s: Seq<char>)
    ensures
        closing(s) matches Some(m) ==> 0 <= m < s.len() && s[m] == '"',
    decreases s.len(),
{
    if s.len() > 0 && s[0] != '"' {
        lemma_closing_range(s.skip(1));
        if s.len() >= 2 {
            lemma_closing_range(s.skip(2));
        }
    }
}

/// An entry over several lines is not empty and within the text.
pub proof fn lemma_block_len(text: Seq<char>)
    ensures
        block(text) matches Some(b) ==> 0 < b.1 <= text.len(),
{
    let n = text::first_index(text, '=');
    text::lemma_first_index(text, '=');
    lemma_closing_range(text.skip(n + 2));
}

/// The line that writes one entry, without its line feed.
pub open spec fn entry_line(e: (Seq<char>, Seq<char>)) -> Seq<char> {
    e.0 + seq!['='] + quoted(e.1)
}

/// The dotenv text of a list of entries: one line each.
pub open spec fn serialized(entries: Seq<(Seq<char>, Seq<char>)>) -> Seq<char>
    decreases entries.len(),
{
    if entries.len() == 0 {
        Seq::empty()
    } else {
        serialized(entries.drop_last()) + entry_line(entries.last()).push('\n')
    }
}

/// An ASCII letter.
pub open spec fn is_letter(c: char) -> bool {
    ('a' <= c && c <= 'z') || ('A' <= c && c <= 'Z')
}

/// An ASCII letter, an ASCII digit or an underscore.
pub open spec fn is_word(c: char) -> bool {
    is_letter(c) || ('0' <= c && c <= '9') || c == '_'
}

/// Whether a key may start so.
pub open spec fn starts_well(key: Seq<char>) -> bool {
    key.len() > 0 && (is_letter(key[0]) || key[0] == '_')
}

/// `[A-Za-z_][A-Za-z0-9_]*`
pub open spec fn valid_key(key: Seq<char>) -> bool {
    starts_well(key) && forall|i: int| 0 <= i < key.len() ==> is_word(#[trigger] key[i])
}

/// Why a key is refused.
#[derive(Clone, Copy, Debug, PartialEq, Eq, Structural)]
pub enum KeyError {
    Empty,
    BadStart,
    BadCharacter,
}

impl KeyError {
    pub open spec fn text(self) -> Seq<char> {
        match self {
            KeyError::Empty => "key cannot be empty"@,
            KeyError::BadStart => "key must start with a letter or underscore"@,
            KeyError::BadCharacter => "key may only contain letters, digits, and underscores"@,
        }
    }

    /// The reason in words.
    pub fn message(&self) -> (r: &'static str)
        ensures
            r@ == self.text(),
    {
        match self {
            KeyError::Empty => "key cannot be empty",
            KeyError::BadStart => "key must start with a letter or underscore",
            KeyError::BadCharacter => "key may only contain letters, digits, and underscores",
        }
    }
}

/// Why a key that is not valid is refused.
pub open spec fn key_error(key: Seq<char>) -> KeyError {
    if key.len() == 0 {
        KeyError::Empty
    } else if !starts_well(key) {
        KeyError::BadStart
    } else {
        KeyError::BadCharacter
    }
}

/// The entries with `key` set to `value`: in place if there is such a key, else
/// at the end.
pub open spec fn with_value(
    entries: Seq<(Seq<char>, Seq<char>)>,
    key: Seq<char>,
    value: Seq<char>,
) -> Seq<(Seq<char>, Seq<char>)> {
    let n = text::first_index(keys(entries), key);
    if n < entries.len() {
        entries.update(n, (key, value))
    } else {
        entries.push((key, value))
    }
}

/// Whether `key` is a usable environment-variable name.
pub fn validate_key(key: &str) -> (r: Result<(), KeyError>)
    ensures
        match r {
            Ok(_) => valid_key(key@),
            Err(e) => !valid_key(key@) && e == key_error(key@),
        },
{
    let chars = text::chars_of(key);
    if chars.len() == 0 {
        return Err(KeyError::Empty);
    }
    if !(letter(chars[0]) || chars[0] == '_') {
        return Err(KeyError::BadStart);
    }
    let mut i: usize = 0;
    while i < chars.len()
        invariant
            chars@ == key@,
            i <= chars@.len(),
            starts_well(key@),
            forall|j: int| 0 <= j < i ==> is_word(#[trigger] key@[j]),
        decreases chars.len() - i,
    {
        if !word(chars[i]) {
            assert(!is_word(key@[i as int]));
            return Err(KeyError::BadCharacter);
        }
        i += 1;
    }
    Ok(())
}

fn letter(c: char) -> (r: bool)
    ensures
        r == is_letter(c),
{
    ('a' <= c && c <= 'z') || ('A' <= c && c <= 'Z')
}

fn word(c: char) -> (r: bool)
    ensures
        r == is_word(c),
{
    letter(c) || ('0' <= c && c <= '9') || c == '_'
}

/// Takes surrounding quotes off a value, and the escaping that quoting put in.
pub fn unquote(v: &str) -> (r: String)
    ensures
        r@ == unquoted(v@),
{
    let chars = SecretChars::of(v);
    unquote_chars(chars.as_slice())
}

fn unquote_chars(v: &[char]) -> (r: String)
    ensures
        r@ == unquoted(v@),
{
    let n = v.len();
    if n >= 2 && v[0] == '"' && v[n - 1] == '"' {
        unescape(&v[1..n - 1])
    } else if n >= 2 && v[0] == '\'' && v[n - 1] == '\'' {
        text::string_of(&v[1..n - 1])
    } else {
        text::string_of(v)
    }
}

/// Reads back the inside of a double-quoted value.
fn unescape(s: &[char]) -> (r: String)
    ensures
        r@ == unescaped(s@),
{
    let mut out = String::new();
    let mut i: usize = 0;
    assert(s@.skip(0) == s@);
    while i < s.len()
        invariant
            i <= s@.len(),
            out@ + unescaped(s@.skip(i as int)) == unescaped(s@),
        decreases s.len() - i,
    {
        let ghost rest = s@.skip(i as int);
        let ghost before = out@;
        assert(rest[0] == s@[i as int]);
        assert(rest.skip(1) == s@.skip(i + 1));
        if s[i] != '\\' {
            out.push(s[i]);
            i += 1;
            assert(before + (seq![rest[0]] + unescaped(rest.skip(1))) == out@ + unescaped(
                rest.skip(1),
            ));
        } else if i + 1 == s.len() {
            out.push('\\');
            i += 1;
            proof {
                assert(rest == seq!['\\']);
                assert(s@.skip(i as int) == Seq::<char>::empty());
                assert(before + rest == out@ + unescaped(s@.skip(i as int)));
            }
        } else {
            let c = s[i + 1];
            assert(rest.skip(2) == s@.skip(i + 2));
            assert(rest[1] == c);
            if c == '\\' || c == '"' {
                out.push(c);
                assert(before + (seq![c] + unescaped(rest.skip(2))) == out@ + unescaped(
                    rest.skip(2),
                ));
            } else {
                out.push('\\');
                out.push(c);
                assert(before + (seq!['\\', c] + unescaped(rest.skip(2))) == out@ + unescaped(
                    rest.skip(2),
                ));
            }
            i += 2;
        }
    }
    assert(s@.skip(i as int) == Seq::<char>::empty());
    assert(out@ + unescaped(s@.skip(i as int)) == out@);
    out
}

/// Whether a value has to be written in quotes.
fn wants_quotes(v: &[char]) -> (r: bool)
    ensures
        r == needs_quotes(v@),
{
    let n = v.len();
    if n == 0 || v[0] == '"' || v[0] == '\'' || text::is_whitespace(v[0])
        || text::is_whitespace(v[n - 1]) {
        return true;
    }
    let mut i: usize = 0;
    while i < n
        invariant
            n == v@.len(),
            i <= n,
            forall|j: int| 0 <= j < i ==> v@[j] != '#' && v@[j] != '\n',
        decreases n - i,
    {
        if v[i] == '#' || v[i] == '\n' {
            assert(v@[i as int] == '#' || v@[i as int] == '\n');
            return true;
        }
        i += 1;
    }
    false
}

/// A value as it is written: in quotes if it would not be read back as it is.
pub fn quote_if_needed(v: &str) -> (r: String)
    ensures
        r@ == quoted(v@),
{
    let mut r = String::new();
    push_quoted(&mut r, v);
    assert(r@ =~= quoted(v@));
    r
}

/// Appends a value as it is written.
fn push_quoted(out: &mut String, value: &str)
    ensures
        final(out)@ == old(out)@ + quoted(value@),
{
    let chars = SecretChars::of(value);
    let v = chars.as_slice();
    if !wants_quotes(v) {
        text::push_all(out, v);
        return;
    }
    out.push('"');
    let ghost start = out@;
    let mut i: usize = 0;
    assert(v@.skip(0) == v@);
    while i < v.len()
        invariant
            i <= v@.len(),
            out@ + escaped(v@.skip(i as int)) == start + escaped(v@),
        decreases v.len() - i,
    {
        let ghost before = out@;
        let ghost rest = v@.skip(i as int);
        assert(rest[0] == v@[i as int]);
        assert(rest.skip(1) == v@.skip(i + 1));
        if v[i] == '\\' || v[i] == '"' {
            out.push('\\');
            out.push(v[i]);
            assert(before + (seq!['\\', rest[0]] + escaped(rest.skip(1))) == out@ + escaped(
                rest.skip(1),
            ));
        } else {
            out.push(v[i]);
            assert(before + (seq![rest[0]] + escaped(rest.skip(1))) == out@ + escaped(
                rest.skip(1),
            ));
        }
        i += 1;
    }
    assert(v@.skip(i as int) == Seq::<char>::empty());
    assert(out@ + escaped(v@.skip(i as int)) == out@);
    out.push('"');
    assert(out@ == old(out)@ + quoted(value@));
}

/// The entry that one line gives, if it gives one.
fn parse_line(raw: &[char]) -> (r: Option<Entry>)
    ensures
        match r {
            Some(e) => line_entry(raw@) == Some(e@),
            None => line_entry(raw@) is None,
        },
{
    let line = text::trim(raw);
    if line.len() == 0 || line[0] == '#' {
        return None;
    }
    let export = text::chars_of("export ");
    let rest = if text::has_prefix(line, export.as_slice()) {
        assert(line@.skip(export@.len() as int) == line@.subrange(
            export@.len() as int,
            line@.len() as int,
        ));
        &line[export.len()..line.len()]
    } else {
        line
    };
    let body = text::trim_start(rest);
    let n = text::find(body, '=');
    if n >= body.len() {
        return None;
    }
    assert(body@.take(n as int) == body@.subrange(0, n as int));
    assert(body@.skip(n + 1) == body@.subrange(n + 1, body@.len() as int));
    let key = text::trim(&body[0..n]);
    if key.len() == 0 {
        return None;
    }
    let value = unquote_chars(text::trim(&body[n + 1..body.len()]));
    Some(Entry { key: text::string_of(key), value })
}

/// Where the double quote stands that closes a value.
fn find_closing(s: &[char]) -> (r: Option<usize>)
    ensures
        match r {
            Some(m) => closing(s@) == Some(m as int),
            None => closing(s@) is None,
        },
{
    let mut i: usize = 0;
    assert(s@.skip(0) =~= s@);
    while i < s.len()
        invariant
            i <= s@.len(),
            closing(s@) == (match closing(s@.skip(i as int)) {
                Some(m) => Some(m + i),
                None => None,
            }),
        decreases s.len() - i,
    {
        let ghost rest = s@.skip(i as int);
        proof {
            assert(rest[0] == s@[i as int]);
            assert(rest.skip(1) =~= s@.skip(i + 1));
            if i + 1 < s@.len() {
                assert(rest[1] == s@[i + 1]);
                assert(rest.skip(2) =~= s@.skip(i + 2));
            }
        }
        if s[i] == '"' {
            return Some(i);
        }
        if s[i] != '\\' {
            i += 1;
        } else if i + 1 < s.len() && (s[i + 1] == '\\' || s[i + 1] == '"') {
            i += 2;
        } else {
            return None;
        }
    }
    None
}

/// Whether a written line gives a key back.
fn is_clean(key: &[char]) -> (r: bool)
    ensures
        r == clean_key(key@),
{
    let n = key.len();
    let equals = text::find(key, '=');
    let feed = text::find(key, '\n');
    let export = text::chars_of("export ");
    proof {
        text::lemma_first_index(key@, '=');
        text::lemma_first_index(key@, '\n');
    }
    n > 0 && !text::is_whitespace(key[0]) && !text::is_whitespace(key[n - 1]) && key[0] != '#'
        && equals == n && feed == n && !text::has_prefix(key, export.as_slice())
}

/// The entry over several lines with which a text begins, and how long it is.
fn take_block(text: &[char]) -> (r: Option<(Entry, usize)>)
    ensures
        match r {
            Some(p) => block(text@) == Some((p.0@, p.1 as int)),
            None => block(text@) is None,
        },
{
    let n = text::find(text, '=');
    let len = text.len();
    if n >= len || len - n < 2 || text[n + 1] != '"' {
        return None;
    }
    let key = &text[0..n];
    assert(key@ =~= text@.take(n as int));
    if !is_clean(key) {
        return None;
    }
    let body = &text[n + 2..len];
    assert(body@ =~= text@.skip(n + 2));
    match find_closing(body) {
        None => None,
        Some(m) => {
            proof {
                lemma_closing_range(body@);
            }
            let inner = &body[0..m];
            assert(inner@ =~= body@.take(m as int));
            let feed = text::find(inner, '\n');
            proof {
                text::lemma_first_index(inner@, '\n');
            }
            if feed < inner.len() && body.len() - m >= 2 && body[m + 1] == '\n' {
                assert(inner@[feed as int] == '\n');
                Some((Entry { key: text::string_of(key), value: unescape(inner) }, n + m + 4))
            } else {
                None
            }
        },
    }
}

/// If `input` looks like a `KEY=VALUE` assignment, its trimmed key and its
/// value without surrounding quotes. `None` when there is no `=`.
pub fn split_assignment(input: &str) -> (r: Option<(String, String)>)
    ensures
        match r {
            Some(p) => {
                let n = text::first_index(input@, '=');
                &&& n < input@.len()
                &&& p.0@ == text::trimmed(input@.take(n))
                &&& p.1@ == unquoted(text::trimmed(input@.skip(n + 1)))
            },
            None => !input@.contains('='),
        },
{
    let chars = SecretChars::of(input);
    let s = chars.as_slice();
    let n = text::find(s, '=');
    proof {
        text::lemma_first_index(s@, '=');
    }
    if n >= s.len() {
        return None;
    }
    assert(s@.take(n as int) == s@.subrange(0, n as int));
    assert(s@.skip(n + 1) == s@.subrange(n + 1, s@.len() as int));
    let key = text::string_of(text::trim(&s[0..n]));
    let value = unquote_chars(text::trim(&s[n + 1..s.len()]));
    Some((key, value))
}

/// An ordered list of environment variables.
pub struct EnvVault {
    entries: Vec<Entry>,
}

impl View for EnvVault {
    type V = Seq<(Seq<char>, Seq<char>)>;

    closed spec fn view(&self) -> Seq<(Seq<char>, Seq<char>)> {
        pairs(self.entries@)
    }
}

impl Default for EnvVault {
    fn default() -> (r: Self)
        ensures
            r@ == Seq::<(Seq<char>, Seq<char>)>::empty(),
    {
        let r = EnvVault { entries: Vec::new() };
        assert(r@ == Seq::<(Seq<char>, Seq<char>)>::empty());
        r
    }
}

impl EnvVault {
    /// Reads a dotenv text. Blank lines and `#` comments are ignored, and so
    /// are lines without `=` or without a key. An `export ` prefix and
    /// surrounding quotes on the value are taken off. An entry that was written
    /// over several lines, for the sake of line feeds in its value, is read as
    /// one.
    pub fn parse(text: &str) -> (r: Self)
        ensures
            r@ == parsed(text@),
    {
        let chars = SecretChars::of(text);
        let all = chars.as_slice();
        let mut entries: Vec<Entry> = Vec::new();
        let mut i: usize = 0;
        proof {
            assert(all@.skip(0) =~= all@);
            assert(pairs(entries@) + parsed(all@) =~= parsed(all@));
        }
        while i < all.len()
            invariant
                i <= all@.len(),
                all@ == text@,
                pairs(entries@) + parsed(all@.skip(i as int)) == parsed(text@),
            decreases all.len() - i,
        {
            let ghost before = pairs(entries@);
            let rest = &all[i..all.len()];
            assert(rest@ =~= all@.skip(i as int));
            proof {
                lemma_block_len(rest@);
                text::lemma_first_index(rest@, '\n');
            }
            match take_block(rest) {
                Some((e, len)) => {
                    let ghost pair = e@;
                    entries.push(e);
                    i += len;
                    proof {
                        assert(rest@.skip(len as int) =~= all@.skip(i as int));
                        assert(pairs(entries@) =~= before.push(pair));
                        assert(before + (seq![pair] + parsed(all@.skip(i as int)))
                            =~= before.push(pair) + parsed(all@.skip(i as int)));
                    }
                },
                None => {
                    let n = text::find(rest, '\n');
                    let line = &rest[0..n];
                    assert(line@ =~= rest@.take(n as int));
                    let ghost tail = if n < rest@.len() {
                        parsed(rest@.skip(n + 1))
                    } else {
                        Seq::empty()
                    };
                    if n < rest.len() {
                        i += n + 1;
                        assert(rest@.skip(n + 1) =~= all@.skip(i as int));
                    } else {
                        i = all.len();
                        assert(all@.skip(i as int) =~= Seq::<char>::empty());
                    }
                    assert(tail =~= parsed(all@.skip(i as int)));
                    if let Some(e) = parse_line(line) {
                        let ghost pair = e@;
                        entries.push(e);
                        proof {
                            assert(pairs(entries@) =~= before.push(pair));
                            assert(before + (seq![pair] + tail) =~= before.push(pair) + tail);
                        }
                    }
                },
            }
        }
        proof {
            assert(all@.skip(i as int) =~= Seq::<char>::empty());
            assert(pairs(entries@) + parsed(all@.skip(i as int)) =~= pairs(entries@));
        }
        EnvVault { entries }
    }

    /// The dotenv text: one `KEY=VALUE` per entry. A value is quoted only
    /// where it would otherwise not be read back: where it is empty, starts with
    /// a quote, starts or ends with white space, or holds a `#` or a line feed.
    pub fn serialize(&self) -> (r: SecretText)
        ensures
            r@ == serialized(self@),
    {
        let mut out = String::new();
        let mut i: usize = 0;
        let ghost all = self@;
        assert(all.take(0) == Seq::<(Seq<char>, Seq<char>)>::empty());
        while i < self.entries.len()
            invariant
                all == pairs(self.entries@),
                i <= self.entries@.len(),
                out@ == serialized(all.take(i as int)),
            decreases self.entries.len() - i,
        {
            let ghost before = out@;
            let e = &self.entries[i];
            assert(all[i as int] == e@);
            assert(all.take(i + 1).drop_last() == all.take(i as int));
            out.append(e.key.as_str());
            out.push('=');
            push_quoted(&mut out, e.value.as_str());
            out.push('\n');
            assert(out@ == before + entry_line(e@).push('\n'));
            i += 1;
        }
        assert(all.take(all.len() as int) == all);
        SecretText::new(out)
    }

    pub fn entries(&self) -> (r: &[Entry])
        ensures
            pairs(r@) == self@,
    {
        self.entries.as_slice()
    }

    /// The number of entries is a `usize`.
    pub proof fn lemma_len_fits(&self)
        ensures
            self@.len() <= usize::MAX,
    {
        assert(self.entries.len() == self.entries@.len());
    }

    pub fn len(&self) -> (r: usize)
        ensures
            r == self@.len(),
    {
        self.entries.len()
    }

    pub fn is_empty(&self) -> (r: bool)
        ensures
            r == (self@.len() == 0),
    {
        self.entries.len() == 0
    }

    /// The index of the first entry with this key.
    pub fn position(&self, key: &str) -> (r: Option<usize>)
        ensures
            match r {
                Some(i) => i == text::first_index(keys(self@), key@) && i < self@.len(),
                None => text::first_index(keys(self@), key@) == self@.len(),
            },
    {
        let wanted = key.to_owned();
        let mut i: usize = 0;
        while i < self.entries.len()
            invariant
                wanted@ == key@,
                i <= self.entries@.len(),
                forall|j: int| 0 <= j < i ==> keys(self@)[j] != key@,
            decreases self.entries.len() - i,
        {
            assert(keys(self@)[i as int] == self.entries@[i as int].key@);
            if self.entries[i].key == wanted {
                proof {
                    text::lemma_first_index_unique(keys(self@), key@, i as int);
                }
                return Some(i);
            }
            i += 1;
        }
        proof {
            text::lemma_first_index_unique(keys(self@), key@, i as int);
        }
        None
    }

    /// Gives an existing key (case sensitive) a new value, or adds an entry at
    /// the end. Returns the index of the entry.
    pub fn set(&mut self, key: &str, value: &str) -> (r: usize)
        ensures
            r == text::first_index(keys(old(self)@), key@),
            r < final(self)@.len(),
            final(self)@ == with_value(old(self)@, key@, value@),
    {
        match self.position(key) {
            Some(i) => {
                proof {
                    text::lemma_first_index(keys(self@), key@);
                    assert(keys(self@)[i as int] == self.entries@[i as int].key@);
                }
                self.set_value_at(i, value);
                i
            },
            None => {
                self.entries.push(Entry { key: key.to_owned(), value: value.to_owned() });
                assert(self@ == old(self)@.push((key@, value@)));
                self.entries.len() - 1
            },
        }
    }

    /// Gives the entry at `index`, if there is one, a new value.
    pub fn set_value_at(&mut self, index: usize, value: &str)
        ensures
            index < old(self)@.len() ==> final(self)@ == old(self)@.update(
                index as int,
                (old(self)@[index as int].0, value@),
            ),
            index >= old(self)@.len() ==> final(self)@ == old(self)@,
    {
        if index < self.entries.len() {
            secret::wipe_text(&mut self.entries[index].value);
            self.entries[index].value = value.to_owned();
            assert(self@ == old(self)@.update(
                index as int,
                (old(self)@[index as int].0, value@),
            ));
        }
    }

    /// Removes the entry at `index`, if there is one.
    pub fn remove_at(&mut self, index: usize)
        ensures
            index < old(self)@.len() ==> final(self)@ == old(self)@.remove(index as int),
            index >= old(self)@.len() ==> final(self)@ == old(self)@,
    {
        if index < self.entries.len() {
            self.entries.remove(index);
            assert(self@ == old(self)@.remove(index as int));
        }
    }

    pub fn contains(&self, key: &str) -> (r: bool)
        ensures
            r == keys(self@).contains(key@),
    {
        proof {
            text::lemma_first_index(keys(self@), key@);
        }
        self.position(key).is_some()
    }
}

proof fn lemma_unescaped_escaped(s: Seq<char>)
    ensures
        unescaped(escaped(s)) == s,
    decreases s.len(),
{
    if s.len() > 0 {
        lemma_unescaped_escaped(s.skip(1));
        let tail = escaped(s.skip(1));
        let e = escaped(s);
        if s[0] == '\\' || s[0] == '"' {
            assert(e[0] == '\\' && e[1] == s[0]);
            assert(e.skip(2) == tail);
        } else {
            assert(e[0] == s[0]);
            assert(e.skip(1) == tail);
        }
        assert(unescaped(e) == seq![s[0]] + unescaped(tail));
        assert(seq![s[0]] + s.skip(1) == s);
    }
}

/// Escaping puts in no line feed and takes none away.
proof fn lemma_escaped_feeds(s: Seq<char>)
    ensures
        escaped(s).contains('\n') <==> s.contains('\n'),
    decreases s.len(),
{
    if s.len() > 0 {
        let rest = s.skip(1);
        let tail = escaped(rest);
        let e = escaped(s);
        let n = e.len() - tail.len();
        lemma_escaped_feeds(rest);
        if s.contains('\n') {
            let i = s.index_of('\n');
            if i == 0 {
                assert(e[0] == '\n');
            } else {
                assert(rest[i - 1] == '\n');
                assert(e[n + tail.index_of('\n')] == '\n');
            }
        }
        if e.contains('\n') {
            let i = e.index_of('\n');
            if i < n {
                assert(s[0] == '\n');
            } else {
                assert(tail[i - n] == '\n');
                assert(s[1 + rest.index_of('\n')] == '\n');
            }
        }
    }
}

/// The quote behind an escaped value closes it.
proof fn lemma_closing_escaped(s: Seq<char>, behind: Seq<char>)
    ensures
        closing(escaped(s) + seq!['"'] + behind) == Some(escaped(s).len() as int),
    decreases s.len(),
{
    let all = escaped(s) + seq!['"'] + behind;
    if s.len() == 0 {
        assert(all[0] == '"');
    } else {
        let rest = s.skip(1);
        lemma_closing_escaped(rest, behind);
        let after = escaped(rest) + seq!['"'] + behind;
        if s[0] == '\\' || s[0] == '"' {
            assert(all[0] == '\\' && all[1] == s[0]);
            assert(all.skip(2) =~= after);
        } else {
            assert(all[0] == s[0]);
            assert(all.skip(1) =~= after);
        }
    }
}

/// What stands before the closing quote is an escaped value.
proof fn lemma_closing_inner(s: Seq<char>)
    ensures
        closing(s) matches Some(m) ==> escaped(unescaped(s.take(m))) == s.take(m),
    decreases s.len(),
{
    lemma_closing_range(s);
    if let Some(m) = closing(s) {
        let inner = s.take(m);
        if s[0] == '"' {
            assert(inner =~= Seq::<char>::empty());
        } else if s[0] != '\\' {
            lemma_closing_inner(s.skip(1));
            lemma_closing_range(s.skip(1));
            assert(inner.skip(1) =~= s.skip(1).take(m - 1));
            assert(inner[0] == s[0]);
            let u = unescaped(inner);
            assert(u[0] == s[0]);
            assert(u.skip(1) =~= unescaped(inner.skip(1)));
            assert(seq![s[0]] + inner.skip(1) =~= inner);
        } else {
            lemma_closing_inner(s.skip(2));
            lemma_closing_range(s.skip(2));
            assert(inner.skip(2) =~= s.skip(2).take(m - 2));
            assert(inner[0] == '\\' && inner[1] == s[1]);
            let u = unescaped(inner);
            assert(u[0] == s[1]);
            assert(u.skip(1) =~= unescaped(inner.skip(2)));
            assert(seq!['\\', s[1]] + inner.skip(2) =~= inner);
        }
    }
}

/// A value that is written, and read without its quotes again, is the same.
pub proof fn law_unquote_quoted(value: Seq<char>)
    ensures
        unquoted(quoted(value)) == value,
{
    if needs_quotes(value) {
        let q = quoted(value);
        lemma_unescaped_escaped(value);
        assert(q.subrange(1, q.len() - 1) == escaped(value));
    }
}

/// A written value is not trimmed, and stays on its line if it holds no line
/// feed.
proof fn lemma_quoted(value: Seq<char>)
    ensures
        quoted(value).len() > 0,
        !text::is_blank(quoted(value)[0]),
        !text::is_blank(quoted(value).last()),
        quoted(value).contains('\n') ==> value.contains('\n'),
{
    let q = quoted(value);
    if needs_quotes(value) && q.contains('\n') {
        lemma_escaped_feeds(value);
        let i = q.index_of('\n');
        assert(escaped(value)[i - 1] == '\n');
    }
}

proof fn lemma_entry_line(e: (Seq<char>, Seq<char>))
    requires
        clean_key(e.0),
        !e.1.contains('\n'),
    ensures
        line_entry(entry_line(e)) == Some(e),
        !entry_line(e).contains('\n'),
{
    let (key, value) = e;
    let line = entry_line(e);
    let q = quoted(value);
    lemma_quoted(value);
    law_unquote_quoted(value);
    let n = key.len() as int;
    assert(line[0] == key[0]);
    assert(line.last() == q.last());
    assert(line[n] == '=');
    text::lemma_trimmed_id(line);
    text::lemma_trimmed_id(key);
    text::lemma_trimmed_id(q);
    assert forall|i: int| 0 <= i < line.len() implies line[i] != '\n' by {
        if i < n {
            assert(line[i] == key[i]);
        } else if i > n {
            assert(line[i] == q[i - n - 1]);
        }
    }
    assert(!text::begins_with(line, "export "@)) by {
        let w = "export "@;
        reveal_strlit("export ");
        if text::begins_with(line, w) {
            assert(line.take(w.len() as int) == w);
            if n < 7 {
                assert(line.take(w.len() as int)[n] == '=');
            } else {
                assert(key.take(7) == line.take(7));
            }
        }
    }
    assert forall|i: int| 0 <= i < n implies line[i] != '=' by {
        assert(line[i] == key[i]);
    }
    text::lemma_first_index_unique(line, '=', n);
    assert(line.take(n) == key);
    assert(line.skip(n + 1) == q);
}

/// Where the key of a written entry ends, and what stands behind it.
proof fn lemma_entry_head(e: (Seq<char>, Seq<char>), rest: Seq<char>)
    requires
        clean_key(e.0),
    ensures
        ({
            let text = entry_line(e).push('\n') + rest;
            let n = e.0.len() as int;
            &&& text::first_index(text, '=') == n
            &&& text.take(n) == e.0
            &&& n + 1 < text.len()
            &&& text[n + 1] == quoted(e.1)[0]
            &&& needs_quotes(e.1) ==> text.skip(n + 2) == escaped(e.1) + seq!['"'] + (seq!['\n']
                + rest)
        }),
{
    let (key, value) = e;
    let line = entry_line(e);
    let text = line.push('\n') + rest;
    let n = key.len() as int;
    lemma_quoted(value);
    assert forall|i: int| 0 <= i < n implies text[i] != '=' by {
        assert(text[i] == key[i]);
    }
    assert(text[n] == '=');
    text::lemma_first_index_unique(text, '=', n);
    assert(text.take(n) =~= key);
    assert(text[n + 1] == quoted(value)[0]);
    if needs_quotes(value) {
        assert(text.skip(n + 2) =~= escaped(value) + seq!['"'] + (seq!['\n'] + rest));
    }
}

/// A text that begins with a written entry gives that entry first.
proof fn lemma_parsed_front(e: (Seq<char>, Seq<char>), rest: Seq<char>)
    requires
        clean_key(e.0),
    ensures
        parsed(entry_line(e).push('\n') + rest) == seq![e] + parsed(rest),
{
    let (key, value) = e;
    let line = entry_line(e);
    let text = line.push('\n') + rest;
    let n = key.len() as int;
    lemma_entry_head(e, rest);
    lemma_escaped_feeds(value);
    if needs_quotes(value) {
        let m = escaped(value).len() as int;
        let body = text.skip(n + 2);
        lemma_closing_escaped(value, seq!['\n'] + rest);
        assert(body.take(m) =~= escaped(value));
        assert(body[m + 1] == '\n');
        if value.contains('\n') {
            lemma_unescaped_escaped(value);
            assert(block(text) == Some((e, n + m + 4)));
            assert(text.skip(n + m + 4) =~= rest);
        }
    }
    if !value.contains('\n') {
        assert(block(text) is None);
        lemma_entry_line(e);
        let l = line.len() as int;
        assert forall|i: int| 0 <= i < l implies text[i] != '\n' by {
            assert(text[i] == line[i]);
        }
        text::lemma_first_index_unique(text, '\n', l);
        assert(text.take(l) =~= line);
        assert(text.skip(l + 1) =~= rest);
    }
}

/// Exactly what is written of a clean key and a value with a line feed is read
/// over several lines.
pub proof fn law_blocks_are_written_entries(text: Seq<char>, e: (Seq<char>, Seq<char>))
    ensures
        block(text) == Some((e, entry_line(e).len() + 1int)) <==> clean_key(e.0) && e.1.contains('\n')
            && text::begins_with(text, entry_line(e).push('\n')),
        block(text) matches Some(b) ==> b.1 == entry_line(b.0).len() + 1,
{
    if clean_key(e.0) && e.1.contains('\n') && text::begins_with(text, entry_line(e).push('\n')) {
        let line = entry_line(e).push('\n');
        let rest = text.skip(line.len() as int);
        let n = e.0.len() as int;
        let m = escaped(e.1).len() as int;
        assert(text =~= line + rest);
        lemma_entry_head(e, rest);
        lemma_escaped_feeds(e.1);
        lemma_unescaped_escaped(e.1);
        lemma_closing_escaped(e.1, seq!['\n'] + rest);
        assert(text.skip(n + 2).take(m) =~= escaped(e.1));
    }
    if let Some(b) = block(text) {
        let n = text::first_index(text, '=');
        let body = text.skip(n + 2);
        let m = closing(body)->0;
        let line = entry_line(b.0).push('\n');
        text::lemma_first_index(text, '=');
        lemma_closing_range(body);
        lemma_closing_inner(body);
        lemma_escaped_feeds(b.0.1);
        assert(needs_quotes(b.0.1));
        assert(line.len() == n + m + 4);
        assert forall|i: int| 0 <= i < line.len() implies line[i] == text[i] by {
            if i < n {
                assert(line[i] == text.take(n)[i]);
            } else if n + 2 <= i < n + 2 + m {
                assert(line[i] == escaped(b.0.1)[i - n - 2]);
                assert(body.take(m)[i - n - 2] == text[i]);
            } else if i == n + 2 + m {
                assert(body[m] == text[i]);
            } else if i == n + 3 + m {
                assert(body[m + 1] == text[i]);
            }
        }
        assert(text.take(line.len() as int) =~= line);
    }
}

/// Whether no entry over several lines begins anywhere in a text.
pub open spec fn line_by_line(text: Seq<char>) -> bool {
    forall|i: int| 0 <= i < text.len() ==> block(#[trigger] text.skip(i)) is None
}

proof fn lemma_line_entries_front(line: Seq<char>, lines: Seq<Seq<char>>)
    ensures
        line_entries(seq![line] + lines) == (match line_entry(line) {
            Some(e) => seq![e] + line_entries(lines),
            None => line_entries(lines),
        }),
    decreases lines.len(),
{
    let all = seq![line] + lines;
    if lines.len() == 0 {
        assert(all.drop_last() =~= lines);
        assert(line_entries(lines) =~= Seq::empty());
        assert(all.last() == line);
        if let Some(e) = line_entry(line) {
            assert(line_entries(lines).push(e) =~= seq![e] + line_entries(lines));
        }
    } else {
        lemma_line_entries_front(line, lines.drop_last());
        assert(all.drop_last() =~= seq![line] + lines.drop_last());
        assert(all.last() == lines.last());
        let rest = line_entries(lines.drop_last());
        if let Some(e) = line_entry(line) {
            if let Some(f) = line_entry(lines.last()) {
                assert((seq![e] + rest).push(f) =~= seq![e] + rest.push(f));
            }
        }
    }
}

/// A text in which no entry stands over several lines is read line by line.
pub proof fn law_lines_are_read_one_by_one(text: Seq<char>)
    requires
        line_by_line(text),
    ensures
        parsed(text) == line_entries(text::line_seq(text)),
    decreases text.len(),
{
    if text.len() > 0 {
        assert(text.skip(0) =~= text);
        assert(block(text.skip(0)) is None);
        let n = text::first_index(text, '\n');
        text::lemma_first_index(text, '\n');
        let line = text.take(n);
        if n < text.len() {
            let rest = text.skip(n + 1);
            assert forall|i: int| 0 <= i < rest.len() implies block(
                #[trigger] rest.skip(i),
            ) is None by {
                assert(rest.skip(i) =~= text.skip(n + 1 + i));
            }
            law_lines_are_read_one_by_one(rest);
            lemma_line_entries_front(text::without_return(line), text::line_seq(rest));
            text::lemma_trimmed_without_return(line);
        } else {
            assert(line =~= text);
            lemma_line_entries_front(text, Seq::empty());
            assert(seq![text] + Seq::<Seq<char>>::empty() =~= seq![text]);
            assert(line_entries(Seq::<Seq<char>>::empty()) =~= Seq::empty());
        }
    }
}

/// The text of a list of entries begins with its first.
proof fn lemma_serialized_front(entries: Seq<(Seq<char>, Seq<char>)>)
    requires
        entries.len() > 0,
    ensures
        serialized(entries) == entry_line(entries[0]).push('\n') + serialized(entries.skip(1)),
    decreases entries.len(),
{
    let init = entries.drop_last();
    let last = entry_line(entries.last()).push('\n');
    let rest = entries.skip(1);
    if init.len() == 0 {
        assert(rest =~= Seq::empty());
        assert(serialized(init) =~= Seq::empty());
        assert(serialized(rest) =~= Seq::empty());
        assert(serialized(entries) =~= last + serialized(rest));
    } else {
        lemma_serialized_front(init);
        assert(init.skip(1) =~= rest.drop_last());
        assert(serialized(entries) =~= entry_line(entries[0]).push('\n') + (serialized(
            init.skip(1),
        ) + last));
    }
}

/// Reading what was written gives the entries back, in order, whatever their
/// values, if their keys are clean.
pub proof fn law_parse_serialized(entries: Seq<(Seq<char>, Seq<char>)>)
    requires
        forall|i: int| 0 <= i < entries.len() ==> clean_key((#[trigger] entries[i]).0),
    ensures
        parsed(serialized(entries)) == entries,
    decreases entries.len(),
{
    if entries.len() > 0 {
        let rest = entries.skip(1);
        assert forall|i: int| 0 <= i < rest.len() implies clean_key((#[trigger] rest[i]).0) by {
            assert(rest[i] == entries[i + 1]);
        }
        law_parse_serialized(rest);
        lemma_serialized_front(entries);
        assert(clean_key(entries[0].0));
        lemma_parsed_front(entries[0], serialized(rest));
        assert(seq![entries[0]] + rest =~= entries);
    } else {
        assert(parsed(serialized(entries)) =~= entries);
    }
}

/// Every valid environment-variable name is a clean key.
pub proof fn law_valid_keys_are_clean(key: Seq<char>)
    requires
        valid_key(key),
    ensures
        clean_key(key),
{
    assert(is_word(key[key.len() - 1]));
    assert forall|i: int| 0 <= i < key.len() implies key[i] != '=' && key[i] != '\n' by {
        assert(is_word(key[i]));
    }
    if text::begins_with(key, "export "@) {
        reveal_strlit("export ");
        assert(key.take("export "@.len() as int)[6] == ' ');
        assert(is_word(key[6]));
    }
}

/// Setting a key gives it the value, leaves every other entry as it is, and
/// makes no key occur twice.
pub proof fn law_set_touches_one_entry(
    entries: Seq<(Seq<char>, Seq<char>)>,
    key: Seq<char>,
    value: Seq<char>,
)
    ensures
        ({
            let after = with_value(entries, key, value);
            let n = text::first_index(keys(entries), key);
            &&& 0 <= n < after.len()
            &&& after[n] == (key, value)
            &&& forall|i: int| 0 <= i < entries.len() && i != n ==> after[i] == entries[i]
            &&& keys(entries).no_duplicates() ==> keys(after).no_duplicates()
        }),
{
    let before = keys(entries);
    let n = text::first_index(before, key);
    let after = with_value(entries, key, value);
    text::lemma_first_index(before, key);
    if n < entries.len() {
        assert(keys(after) =~= before);
    } else {
        assert(keys(after) =~= before.push(key));
    }
}

/// A value that stands neither between two double quotes nor between two single
/// quotes is read as it is; one between single quotes is what stands between them;
/// one between double quotes is that with its escapes read back.
pub proof fn law_unquoting(v: Seq<char>)
    ensures
        !(v.len() >= 2 && v[0] == '"' && v[v.len() - 1] == '"') && !(v.len() >= 2 && v[0] == '\''
            && v[v.len() - 1] == '\'') ==> unquoted(v) == v,
        unquoted(seq!['\''] + v + seq!['\'']) == v,
        unquoted(seq!['"'] + v + seq!['"']) == unescaped(v),
{
    let single = seq!['\''] + v + seq!['\''];
    let double = seq!['"'] + v + seq!['"'];
    assert(single[0] == '\'' && single.last() == '\'');
    assert(single.subrange(1, single.len() - 1) =~= v);
    assert(double[0] == '"' && double.last() == '"');
    assert(double.subrange(1, double.len() - 1) =~= v);
}

/// Inside double quotes a backslash makes a following backslash or double quote
/// stand for itself and stands for itself before anything else and at the end;
/// every other character stands for itself.
pub proof fn law_unescaping(c: char, rest: Seq<char>)
    ensures
        unescaped(Seq::empty()) == Seq::<char>::empty(),
        unescaped(seq!['\\']) == seq!['\\'],
        c != '\\' ==> unescaped(seq![c] + rest) == seq![c] + unescaped(rest),
        c == '\\' || c == '"' ==> unescaped(seq!['\\', c] + rest) == seq![c] + unescaped(rest),
        c != '\\' && c != '"' ==> unescaped(seq!['\\', c] + rest) == seq!['\\', c] + unescaped(
            rest,
        ),
{
    let one = seq![c] + rest;
    let two = seq!['\\', c] + rest;
    assert(one[0] == c);
    assert(one.skip(1) =~= rest);
    assert(two[0] == '\\' && two[1] == c);
    assert(two.skip(2) =~= rest);
}

/// Escaping puts a backslash before each backslash and double quote, and nothing
/// else anywhere.
pub proof fn law_escaping(c: char, rest: Seq<char>)
    ensures
        escaped(Seq::empty()) == Seq::<char>::empty(),
        c == '\\' || c == '"' ==> escaped(seq![c] + rest) == seq!['\\', c] + escaped(rest),
        c != '\\' && c != '"' ==> escaped(seq![c] + rest) == seq![c] + escaped(rest),
{
    let one = seq![c] + rest;
    assert(one[0] == c);
    assert(one.skip(1) =~= rest);
}

/// A value is quoted exactly if it is empty, starts with a quote, starts or ends
/// with white space, or holds a `#` or a line feed; any other is written as it is.
pub proof fn law_quoted_only_when_needed(v: Seq<char>)
    ensures
        ({
            let needed = v.len() == 0 || v[0] == '"' || v[0] == '\'' || text::is_blank(v[0])
                || text::is_blank(v[v.len() - 1]) || v.contains('#') || v.contains('\n');
            quoted(v) == (if needed {
                seq!['"'] + escaped(v) + seq!['"']
            } else {
                v
            })
        }),
{
}

/// A line `KEY=VALUE`, with or without `export ` before it and with any white
/// space around its parts, gives the key and the value without its quotes.
pub proof fn law_assignments_are_read(
    before: Seq<char>,
    export: bool,
    key: Seq<char>,
    gap: Seq<char>,
    space: Seq<char>,
    value: Seq<char>,
    after: Seq<char>,
)
    requires
        forall|i: int| 0 <= i < before.len() ==> text::is_blank(#[trigger] before[i]),
        forall|i: int| 0 <= i < gap.len() ==> text::is_blank(#[trigger] gap[i]),
        forall|i: int| 0 <= i < space.len() ==> text::is_blank(#[trigger] space[i]),
        forall|i: int| 0 <= i < after.len() ==> text::is_blank(#[trigger] after[i]),
        key.len() > 0,
        !text::is_blank(key[0]),
        !text::is_blank(key[key.len() - 1]),
        key[0] != '#',
        !key.contains('='),
        !export ==> !text::begins_with(key + gap, "export "@),
        value.len() > 0 ==> !text::is_blank(value[0]) && !text::is_blank(value[value.len() - 1]),
    ensures
        line_entry(
            before + (if export {
                "export "@
            } else {
                Seq::empty()
            }) + key + gap + seq!['='] + space + value + after,
        ) == Some((key, unquoted(value))),
{
    let w = "export "@;
    reveal_strlit("export ");
    let e = if export {
        w
    } else {
        Seq::<char>::empty()
    };
    let raw = before + e + key + gap + seq!['='] + space + value + after;
    let n = key.len() + gap.len();
    let rest = if value.len() > 0 {
        space + value
    } else {
        Seq::<char>::empty()
    };
    let body = key + gap + seq!['='] + rest;
    let line = e + body;
    let tail = if value.len() > 0 {
        after
    } else {
        space + after
    };
    assert forall|i: int| 0 <= i < tail.len() implies text::is_blank(#[trigger] tail[i]) by {
        if value.len() == 0 {
            if i < space.len() {
                assert(tail[i] == space[i]);
            } else {
                assert(tail[i] == after[i - space.len()]);
            }
        }
    }
    assert(raw =~= before + line + tail);
    assert(line[0] == (if export {
        'e'
    } else {
        key[0]
    }));
    assert(line.last() == (if value.len() > 0 {
        value[value.len() - 1]
    } else {
        '='
    }));
    text::law_trimming(before, line, tail);
    assert(body[0] == key[0]);
    if export {
        assert(line.take(7) =~= w);
        assert(line.skip(7) =~= body);
    } else {
        assert(line =~= body);
        if text::begins_with(line, w) {
            if n < 7 {
                assert(line.take(7)[n as int] == '=');
            } else {
                assert((key + gap).take(7) =~= line.take(7));
            }
        }
    }
    assert(body =~= Seq::<char>::empty() + body + Seq::<char>::empty());
    assert(text::trimmed_start(body) == body);
    assert forall|i: int| 0 <= i < n implies body[i] != '=' by {
        if i < key.len() {
            assert(body[i] == key[i]);
        } else {
            assert(body[i] == gap[i - key.len()]);
        }
    }
    assert(body[n as int] == '=');
    text::lemma_first_index_unique(body, '=', n as int);
    let empty = Seq::<char>::empty();
    assert(body.take(n as int) =~= empty + key + gap);
    text::law_trimming(empty, key, gap);
    assert(body.skip(n + 1int) =~= rest);
    if value.len() > 0 {
        assert(rest =~= space + value + empty);
        text::law_trimming(space, value, empty);
    } else {
        assert(rest =~= empty + empty + empty);
        text::law_trimming(empty, empty, empty);
        assert(value =~= empty);
    }
}

/// Blank lines, comments, lines without `=` and lines without a key give nothing.
pub proof fn law_other_lines_give_nothing(before: Seq<char>, s: Seq<char>)
    requires
        forall|i: int| 0 <= i < before.len() ==> text::is_blank(#[trigger] before[i]),
    ensures
        line_entry(before) is None,
        line_entry(before + seq!['#'] + s) is None,
        line_entry(before + seq!['='] + s) is None,
        !s.contains('=') ==> line_entry(s) is None,
{
    let empty = Seq::<char>::empty();
    assert(before =~= before + empty + empty);
    text::law_trimming(before, empty, empty);
    let comment = before + seq!['#'] + s;
    lemma_trimmed_front(before, '#', s);
    let bare = before + seq!['='] + s;
    lemma_trimmed_front(before, '=', s);
    let t = text::trimmed(bare);
    assert(t[0] == '=');
    reveal_strlit("export ");
    if text::begins_with(t, "export "@) {
        assert(t.take(7)[0] == 'e');
    }
    assert(text::trimmed_start(t) == t);
    text::lemma_first_index_unique(t, '=', 0);
    assert(t.take(0) =~= empty);
    text::law_trimming(empty, empty, empty);
    assert(empty + empty + empty =~= empty);
    if !s.contains('=') {
        lemma_no_equals(s);
    }
}

proof fn lemma_trimmed_front(before: Seq<char>, c: char, s: Seq<char>)
    requires
        forall|i: int| 0 <= i < before.len() ==> text::is_blank(#[trigger] before[i]),
        !text::is_blank(c),
    ensures
        text::trimmed(before + seq![c] + s).len() > 0,
        text::trimmed(before + seq![c] + s)[0] == c,
    decreases s.len(),
{
    let empty = Seq::<char>::empty();
    let all = before + seq![c] + s;
    if s.len() > 0 && text::is_blank(s[s.len() - 1]) {
        let init = s.drop_last();
        lemma_trimmed_front(before, c, init);
        let x = before + seq![c] + init;
        assert(all =~= x.push(s.last()));
        text::lemma_trimmed_blank_end(x, s.last());
    } else {
        assert(all =~= before + (seq![c] + s) + empty);
        assert((seq![c] + s).last() == (if s.len() > 0 {
            s[s.len() - 1]
        } else {
            c
        }));
        text::law_trimming(before, seq![c] + s, empty);
    }
}

proof fn lemma_no_equals(s: Seq<char>)
    requires
        !s.contains('='),
    ensures
        line_entry(s) is None,
{
    let line = text::trimmed(s);
    let w = "export "@;
    let cut = if text::begins_with(line, w) {
        line.skip(w.len() as int)
    } else {
        line
    };
    let body = text::trimmed_start(cut);
    text::lemma_trimmed_within(s, '=');
    if text::begins_with(line, w) && cut.contains('=') {
        assert(line[w.len() + cut.index_of('=')] == '=');
    }
    text::lemma_trimmed_within(cut, '=');
    text::lemma_first_index(body, '=');
    if text::first_index(body, '=') < body.len() {
        assert(body.contains('='));
    }
}

/// The entries of lines are those of each line, in order.
pub proof fn law_lines_give_their_entries(a: Seq<Seq<char>>, b: Seq<Seq<char>>, line: Seq<char>)
    ensures
        line_entries(a + b) == line_entries(a) + line_entries(b),
        line_entries(seq![line]) == (match line_entry(line) {
            Some(e) => seq![e],
            None => Seq::empty(),
        }),
    decreases b.len(),
{
    assert(seq![line].drop_last() =~= Seq::<Seq<char>>::empty());
    assert(line_entries(Seq::<Seq<char>>::empty()) =~= Seq::empty());
    assert(line_entries(seq![line]) =~= (match line_entry(line) {
        Some(e) => seq![e],
        None => Seq::empty(),
    }));
    if b.len() == 0 {
        assert(a + b =~= a);
        assert(line_entries(a + b) =~= line_entries(a) + line_entries(b));
    } else {
        law_lines_give_their_entries(a, b.drop_last(), line);
        assert((a + b).drop_last() =~= a + b.drop_last());
        assert((a + b).last() == b.last());
        assert(line_entries(a + b) =~= line_entries(a) + line_entries(b));
    }
}

/// A key is valid exactly if it is made of ASCII letters, digits and underscores
/// and starts with no digit; an empty one, one that starts otherwise, and one with
/// another character are told apart in that order.
pub proof fn law_valid_keys(key: Seq<char>)
    ensures
        ({
            let letter = |c: char|
                (0x41 <= c as int && c as int <= 0x5a) || (0x61 <= c as int && c as int <= 0x7a)
                    || c as int == 0x5f;
            let digit = |c: char| 0x30 <= c as int && c as int <= 0x39;
            &&& valid_key(key) <==> key.len() > 0 && letter(key[0]) && forall|i: int|
                0 <= i < key.len() ==> letter(#[trigger] key[i]) || digit(key[i])
            &&& key.len() == 0 ==> key_error(key) == KeyError::Empty
            &&& key.len() > 0 && !letter(key[0]) ==> key_error(key) == KeyError::BadStart
            &&& key.len() > 0 && letter(key[0]) && !valid_key(key) ==> key_error(key)
                == KeyError::BadCharacter
        }),
{
    if valid_key(key) {
        assert forall|i: int| 0 <= i < key.len() implies (0x41 <= (#[trigger] key[i]) as int
            && key[i] as int <= 0x5a) || (0x61 <= key[i] as int && key[i] as int <= 0x7a)
            || key[i] as int == 0x5f || (0x30 <= key[i] as int && key[i] as int <= 0x39) by {
            assert(is_word(key[i]));
        }
    }
}

/// Setting a key that is there changes its first entry's value and nothing else;
/// setting one that is not adds one entry at the end and changes nothing else.
pub proof fn law_set_replaces_or_adds(
    entries: Seq<(Seq<char>, Seq<char>)>,
    key: Seq<char>,
    value: Seq<char>,
    i: int,
)
    requires
        0 <= i <= entries.len(),
        i < entries.len() ==> entries[i].0 == key,
        forall|j: int| 0 <= j < i ==> (#[trigger] entries[j]).0 != key,
    ensures
        with_value(entries, key, value) == entries.take(i) + seq![(key, value)] + (if i
            < entries.len() {
            entries.skip(i + 1)
        } else {
            Seq::empty()
        }),
        text::first_index(keys(entries), key) == i,
        keys(entries).len() == entries.len(),
{
    let ks = keys(entries);
    assert forall|j: int| 0 <= j < i implies ks[j] != key by {
        assert(entries[j].0 != key);
    }
    text::lemma_first_index_unique(ks, key, i);
    assert(with_value(entries, key, value) =~= entries.take(i) + seq![(key, value)] + (if i
        < entries.len() {
        entries.skip(i + 1)
    } else {
        Seq::empty()
    }));
}

/// Each entry is written as its key, `=`, its value and a line feed, one behind the
/// other.
pub proof fn law_entries_are_written_in_order(
    a: Seq<(Seq<char>, Seq<char>)>,
    b: Seq<(Seq<char>, Seq<char>)>,
    key: Seq<char>,
    value: Seq<char>,
)
    ensures
        serialized(a + b) == serialized(a) + serialized(b),
        serialized(seq![(key, value)]) == key + seq!['='] + quoted(value) + seq!['\n'],
    decreases b.len(),
{
    let one = seq![(key, value)];
    assert(one.drop_last() =~= Seq::<(Seq<char>, Seq<char>)>::empty());
    assert(serialized(one.drop_last()) =~= Seq::<char>::empty());
    assert(serialized(one) =~= key + seq!['='] + quoted(value) + seq!['\n']);
    if b.len() == 0 {
        assert(a + b =~= a);
        assert(serialized(a + b) =~= serialized(a) + serialized(b));
    } else {
        law_entries_are_written_in_order(a, b.drop_last(), key, value);
        assert((a + b).drop_last() =~= a + b.drop_last());
        assert((a + b).last() == b.last());
        assert(serialized(a + b) =~= serialized(a) + serialized(b));
    }
}

/// Each reason for refusing a key has words of its own, and they say which rule it
/// breaks.
pub proof fn law_key_errors_are_told_apart(key: Seq<char>)
    ensures
        key.len() == 0 ==> key_error(key).text() == "key cannot be empty"@,
        key.len() > 0 && !(key[0] == '_' || ('a' <= key[0] && key[0] <= 'z') || ('A' <= key[0]
            && key[0] <= 'Z')) ==> key_error(key).text()
            == "key must start with a letter or underscore"@,
        key.len() > 0 && (key[0] == '_' || ('a' <= key[0] && key[0] <= 'z') || ('A' <= key[0]
            && key[0] <= 'Z')) && !valid_key(key) ==> key_error(key).text()
            == "key may only contain letters, digits, and underscores"@,
{
}

} // verus!
