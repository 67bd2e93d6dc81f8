//! Text as sequences of characters: trimming, lines, pieces, numbers.
//!
//! Executable code walks slices of characters, so that a piece of a text is a
//! sub-slice of it and no second copy of a secret is made on the way.
use vstd::prelude::*;

verus! {

/// `String::push` appends one character.
pub assume_specification[ String::push ](s: &mut String, c: char)
    ensures
        final(s)@ == old(s)@.push(c),
;

/// `String::with_capacity` gives an empty text. It panics on a capacity above
/// `isize::MAX`.
pub assume_specification[ String::with_capacity ](capacity: usize) -> (r: String)
    requires
        capacity <= isize::MAX,
    ensures
        r@ == Seq::<char>::empty(),
;

/// `String::pop` takes the last character off, if there is one.
pub assume_specification[ String::pop ](s: &mut String) -> (r: Option<char>)
    ensures
        old(s)@.len() == 0 ==> r is None && final(s)@ == old(s)@,
        old(s)@.len() > 0 ==> r == Some(old(s)@.last()) && final(s)@ == old(s)@.drop_last(),
;

/// `std::str::Utf8Error`: why bytes are not UTF-8.
#[verifier::external_type_specification]
#[verifier::external_body]
pub struct ExUtf8Error(std::str::Utf8Error);

/// `std::str::from_utf8` gives the text that the bytes encode, and an error
/// exactly when they are not UTF-8.
pub assume_specification[ std::str::from_utf8 ](v: &[u8]) -> (r: Result<&str, std::str::Utf8Error>)
    ensures
        match r {
            Ok(s) => vstd::utf8::valid_utf8(v@) && s@ == vstd::utf8::decode_utf8(v@),
            Err(_) => !vstd::utf8::valid_utf8(v@),
        },
;

/// The characters with Unicode's `White_Space` property.
pub open spec fn is_blank(c: char) -> bool {
    ||| '\u{9}' <= c && c <= '\u{d}'
    ||| c == '\u{20}'
    ||| c == '\u{85}'
    ||| c == '\u{a0}'
    ||| c == '\u{1680}'
    ||| '\u{2000}' <= c && c <= '\u{200a}'
    ||| c == '\u{2028}'
    ||| c == '\u{2029}'
    ||| c == '\u{202f}'
    ||| c == '\u{205f}'
    ||| c == '\u{3000}'
}

/// `s` without its leading blanks.
pub open spec fn trimmed_start(s: Seq<char>) -> Seq<char>
    decreases s.len(),
{
    if s.len() > 0 && is_blank(s[0]) {
        trimmed_start(s.skip(1))
    } else {
        s
    }
}

/// `s` without its trailing blanks.
pub open spec fn trimmed_end(s: Seq<char>) -> Seq<char>
    decreases s.len(),
{
    if s.len() > 0 && is_blank(s.last()) {
        trimmed_end(s.drop_last())
    } else {
        s
    }
}

/// `s` without its leading and trailing blanks.
pub open spec fn trimmed(s: Seq<char>) -> Seq<char> {
    trimmed_end(trimmed_start(s))
}

/// The index of the first `c` in `s`, or the length of `s` if there is none.
pub open spec fn first_index<T>(s: Seq<T>, c: T) -> int
    decreases s.len(),
{
    if s.len() == 0 || s[0] == c {
        0
    } else {
        1 + first_index(s.skip(1), c)
    }
}

/// Whether `s` begins with `p`.
pub open spec fn begins_with<T>(s: Seq<T>, p: Seq<T>) -> bool {
    p.len() <= s.len() && s.take(p.len() as int) == p
}

/// `s` without one carriage return at its end.
pub open spec fn without_return(s: Seq<char>) -> Seq<char> {
    if s.len() > 0 && s.last() == '\r' {
        s.drop_last()
    } else {
        s
    }
}

/// The lines of `s`: each ends in a line feed, which a carriage return may
/// precede; the last line needs no end.
pub open spec fn line_seq(s: Seq<char>) -> Seq<Seq<char>>
    decreases s.len(),
{
    if s.len() == 0 {
        Seq::empty()
    } else {
        let n = first_index(s, '\n');
        if 0 <= n < s.len() {
            seq![without_return(s.take(n))] + line_seq(s.skip(n + 1))
        } else {
            seq![s]
        }
    }
}

/// The pieces of `s` between occurrences of `sep`.
pub open spec fn pieces<T>(s: Seq<T>, sep: T) -> Seq<Seq<T>>
    decreases s.len(),
{
    let n = first_index(s, sep);
    if 0 <= n < s.len() {
        seq![s.take(n)] + pieces(s.skip(n + 1), sep)
    } else {
        seq![s]
    }
}

/// The decimal digits of `n`.
pub open spec fn decimal(n: nat) -> Seq<char>
    decreases n,
{
    if n < 10 {
        seq![digit(n)]
    } else {
        decimal(n / 10).push(digit(n % 10))
    }
}

/// The character of one decimal digit.
pub open spec fn digit(d: nat) -> char {
    (48 + d) as char
}

/// The contents of each slice.
pub open spec fn contents<T>(v: Seq<&[T]>) -> Seq<Seq<T>> {
    v.map_values(|p: &[T]| p@)
}

pub proof fn lemma_first_index<T>(s: Seq<T>, c: T)
    ensures
        0 <= first_index(s, c) <= s.len(),
        first_index(s, c) < s.len() ==> s[first_index(s, c)] == c,
        forall|i: int| 0 <= i < first_index(s, c) ==> s[i] != c,
    decreases s.len(),
{
    if s.len() > 0 && s[0] != c {
        let t = s.skip(1);
        lemma_first_index(t, c);
        assert forall|i: int| 0 <= i < first_index(s, c) implies s[i] != c by {
            if i > 0 {
                assert(t[i - 1] == s[i]);
            }
        }
    }
}

/// The first index is the only place with `c` there and no `c` before it.
pub proof fn lemma_first_index_unique<T>(s: Seq<T>, c: T, n: int)
    requires
        0 <= n <= s.len(),
        n < s.len() ==> s[n] == c,
        forall|i: int| 0 <= i < n ==> s[i] != c,
    ensures
        first_index(s, c) == n,
{
    lemma_first_index(s, c);
}

/// A text that neither begins nor ends in a blank is trimmed.
pub proof fn lemma_trimmed_id(s: Seq<char>)
    requires
        s.len() > 0,
        !is_blank(s[0]),
        !is_blank(s.last()),
    ensures
        trimmed(s) == s,
        trimmed_start(s) == s,
{
}

/// A carriage return at the end is trimmed anyway.
pub proof fn lemma_trimmed_without_return(s: Seq<char>)
    ensures
        trimmed(without_return(s)) == trimmed(s),
    decreases s.len(),
{
    if s.len() > 0 && s.last() == '\r' {
        let init = s.drop_last();
        if is_blank(s[0]) {
            let rest = s.skip(1);
            if rest.len() > 0 {
                assert(rest.last() == '\r');
                assert(rest.drop_last() =~= init.skip(1));
                assert(init[0] == s[0]);
                lemma_trimmed_without_return(rest);
            } else {
                assert(init =~= Seq::<char>::empty());
                assert(rest =~= Seq::<char>::empty());
            }
        } else {
            assert(init.len() > 0 && init[0] == s[0]);
        }
    }
}

/// No line holds a line feed.
pub proof fn lemma_lines_are_lines(s: Seq<char>)
    ensures
        forall|i: int| 0 <= i < line_seq(s).len() ==> !(#[trigger] line_seq(s)[i]).contains('\n'),
    decreases s.len(),
{
    if s.len() > 0 {
        let n = first_index(s, '\n');
        lemma_first_index(s, '\n');
        if n < s.len() {
            let rest = line_seq(s.skip(n + 1));
            lemma_lines_are_lines(s.skip(n + 1));
            let all = line_seq(s);
            assert forall|i: int| 0 <= i < all.len() implies !(#[trigger] all[i]).contains('\n') by {
                if i == 0 {
                    let line = s.take(n);
                    assert forall|j: int| 0 <= j < n implies line[j] != '\n' by {
                        assert(line[j] == s[j]);
                    }
                } else {
                    assert(all[i] == rest[i - 1]);
                }
            }
        } else {
            assert(line_seq(s) == seq![s]);
        }
    }
}

/// A line and its line feed behind whole lines are one more line.
pub proof fn lemma_line_seq_push(before: Seq<char>, line: Seq<char>)
    requires
        before.len() == 0 || before.last() == '\n',
        !line.contains('\n'),
    ensures
        line_seq(before + line.push('\n')) == line_seq(before).push(
            without_return(line),
        ),
    decreases before.len(),
{
    let all = before + line.push('\n');
    if before.len() == 0 {
        assert(all == line.push('\n'));
        lemma_first_index_unique(all, '\n', line.len() as int);
        assert(all.take(line.len() as int) == line);
        let tail = all.skip(line.len() + 1int);
        assert(tail == Seq::<char>::empty());
        assert(line_seq(tail) == Seq::<Seq<char>>::empty());
        assert(line_seq(before) == Seq::<Seq<char>>::empty());
        assert(line_seq(all) == seq![without_return(line)]);
    } else {
        lemma_first_index(before, '\n');
        let n = first_index(before, '\n');
        assert(n < before.len()) by {
            assert(before[before.len() - 1] == '\n');
        }
        lemma_first_index_unique(all, '\n', n);
        let rest = before.skip(n + 1);
        assert(all.take(n) == before.take(n));
        assert(all.skip(n + 1) == rest + line.push('\n'));
        if rest.len() > 0 {
            assert(rest.last() == before.last());
        }
        lemma_line_seq_push(rest, line);
        let head = seq![without_return(before.take(n))];
        assert(line_seq(all) == head + line_seq(rest).push(without_return(line)));
        assert(line_seq(all) == (head + line_seq(rest)).push(
            without_return(line),
        ));
    }
}

/// UTF-8 encodes a text piece by piece.
pub proof fn lemma_encode_concat(a: Seq<char>, b: Seq<char>)
    ensures
        vstd::utf8::encode_utf8(a + b) == vstd::utf8::encode_utf8(a) + vstd::utf8::encode_utf8(b),
    decreases a.len(),
{
    if a.len() == 0 {
        assert(a + b == b);
        assert(vstd::utf8::encode_utf8(a) == Seq::<u8>::empty());
    } else {
        let rest = a.drop_first();
        lemma_encode_concat(rest, b);
        assert((a + b).drop_first() == rest + b);
        assert((a + b)[0] == a[0]);
        assert(vstd::utf8::encode_utf8(a + b) == vstd::utf8::encode_utf8(a)
            + vstd::utf8::encode_utf8(b));
    }
}

pub fn is_whitespace(c: char) -> (r: bool)
    ensures
        r == is_blank(c),
{
    ('\u{9}' <= c && c <= '\u{d}') || c == '\u{20}' || c == '\u{85}' || c == '\u{a0}' || c
        == '\u{1680}' || ('\u{2000}' <= c && c <= '\u{200a}') || c == '\u{2028}' || c == '\u{2029}'
        || c == '\u{202f}' || c == '\u{205f}' || c == '\u{3000}'
}

/// The characters of `s`.
pub fn chars_of(s: &str) -> (v: Vec<char>)
    ensures
        v@ == s@,
{
    let mut v: Vec<char> = Vec::with_capacity(s.len());
    for c in it: s.chars()
        invariant
            it.seq() == s@,
            v@ == s@.take(it.index() as int),
    {
        v.push(c);
    }
    proof {
        assert(s@.take(s@.len() as int) == s@);
    }
    v
}

/// The text made of the characters of `s`.
pub fn string_of(s: &[char]) -> (r: String)
    ensures
        r@ == s@,
{
    let mut r = String::new();
    push_all(&mut r, s);
    r
}

/// Appends the characters of `s`.
pub fn push_all(r: &mut String, s: &[char])
    ensures
        final(r)@ == old(r)@ + s@,
{
    let mut i: usize = 0;
    while i < s.len()
        invariant
            i <= s@.len(),
            r@ == old(r)@ + s@.take(i as int),
        decreases s.len() - i,
    {
        r.push(s[i]);
        i += 1;
        assert(old(r)@ + s@.take(i as int) == (old(r)@ + s@.take(i - 1)).push(s@[i - 1]));
    }
    assert(s@.take(s@.len() as int) == s@);
}

/// Whether two texts have the same characters.
pub fn same_chars(a: &[char], b: &[char]) -> (r: bool)
    ensures
        r == (a@ == b@),
{
    if a.len() != b.len() {
        return false;
    }
    let mut i: usize = 0;
    while i < a.len()
        invariant
            i <= a@.len(),
            a@.len() == b@.len(),
            forall|j: int| 0 <= j < i ==> a@[j] == b@[j],
        decreases a.len() - i,
    {
        if a[i] != b[i] {
            return false;
        }
        i += 1;
    }
    assert(a@ =~= b@);
    true
}

/// Whether two texts are equal.
pub fn same_text(a: &str, b: &str) -> (r: bool)
    ensures
        r == (a@ == b@),
{
    let x = chars_of(a);
    let y = chars_of(b);
    same_chars(x.as_slice(), y.as_slice())
}

/// Drops leading blanks.
pub fn trim_start(s: &[char]) -> (r: &[char])
    ensures
        r@ == trimmed_start(s@),
{
    let mut i: usize = 0;
    assert(s@.skip(0) == s@);
    while i < s.len() && is_whitespace(s[i])
        invariant
            i <= s@.len(),
            trimmed_start(s@) == trimmed_start(s@.skip(i as int)),
        decreases s.len() - i,
    {
        assert(s@.skip(i as int).skip(1) == s@.skip(i + 1));
        i += 1;
    }
    assert(s@.skip(i as int) == s@.subrange(i as int, s@.len() as int));
    &s[i..s.len()]
}

/// Drops trailing blanks.
pub fn trim_end(s: &[char]) -> (r: &[char])
    ensures
        r@ == trimmed_end(s@),
{
    let mut n: usize = s.len();
    assert(s@.take(n as int) == s@);
    while n > 0 && is_whitespace(s[n - 1])
        invariant
            n <= s@.len(),
            trimmed_end(s@) == trimmed_end(s@.take(n as int)),
        decreases n,
    {
        assert(s@.take(n as int).drop_last() == s@.take(n - 1));
        n -= 1;
    }
    assert(s@.take(n as int) == s@.subrange(0, n as int));
    &s[0..n]
}

/// Drops leading and trailing blanks.
pub fn trim(s: &[char]) -> (r: &[char])
    ensures
        r@ == trimmed(s@),
{
    trim_end(trim_start(s))
}

/// The index of the first `c`, or the length.
pub fn find(s: &[char], c: char) -> (r: usize)
    ensures
        r == first_index(s@, c),
        r <= s@.len(),
{
    let mut i: usize = 0;
    assert(s@.skip(0) == s@);
    while i < s.len() && s[i] != c
        invariant
            i <= s@.len(),
            first_index(s@, c) == i + first_index(s@.skip(i as int), c),
        decreases s.len() - i,
    {
        assert(s@.skip(i as int).skip(1) == s@.skip(i + 1));
        i += 1;
    }
    i
}

/// Whether `s` begins with `p`.
pub fn has_prefix(s: &[char], p: &[char]) -> (r: bool)
    ensures
        r == begins_with(s@, p@),
{
    if p.len() > s.len() {
        return false;
    }
    assert(s@.take(p@.len() as int) == s@.subrange(0, p@.len() as int));
    same_chars(&s[0..p.len()], p)
}

/// The lines of a text.
pub fn lines<'a>(s: &'a [char]) -> (r: Vec<&'a [char]>)
    ensures
        contents(r@) == line_seq(s@),
{
    let mut r: Vec<&'a [char]> = Vec::new();
    let mut i: usize = 0;
    assert(s@.skip(0) == s@);
    assert(contents(r@) == Seq::<Seq<char>>::empty());
    while i < s.len()
        invariant
            i <= s@.len(),
            contents(r@) + line_seq(s@.skip(i as int)) == line_seq(s@),
        decreases s.len() - i,
    {
        let ghost rest = s@.skip(i as int);
        let ghost before = r@;
        assert(rest == s@.subrange(i as int, s@.len() as int));
        let tail = &s[i..s.len()];
        let n = find(tail, '\n');
        if n < tail.len() {
            let end = if n > 0 && tail[n - 1] == '\r' {
                n - 1
            } else {
                n
            };
            let line = &tail[0..end];
            r.push(line);
            proof {
                assert(line@ == without_return(rest.take(n as int)));
                assert(contents(r@) == contents(before).push(line@));
                assert(rest.skip(n + 1) == s@.skip(i + n + 1));
                assert(contents(before) + line_seq(rest) == contents(r@) + line_seq(
                    s@.skip(i + n + 1),
                ));
            }
            i = i + n + 1;
        } else {
            r.push(tail);
            proof {
                assert(contents(r@) == contents(before).push(tail@));
                assert(s@.skip(s@.len() as int) == Seq::<char>::empty());
                assert(line_seq(rest) == seq![rest]);
                assert(contents(before) + line_seq(rest) == contents(r@) + line_seq(
                    s@.skip(s@.len() as int),
                ));
            }
            i = s.len();
        }
    }
    assert(s@.skip(i as int) == Seq::<char>::empty());
    assert(contents(r@) + line_seq(s@.skip(i as int)) == contents(r@));
    r
}

/// The pieces of a text between occurrences of `sep`.
pub fn split<'a>(s: &'a [char], sep: char) -> (r: Vec<&'a [char]>)
    ensures
        contents(r@) == pieces(s@, sep),
{
    let mut r: Vec<&'a [char]> = Vec::new();
    let mut tail: &'a [char] = s;
    let mut n: usize = find(tail, sep);
    assert(contents(r@) + pieces(tail@, sep) == pieces(s@, sep));
    while n < tail.len()
        invariant
            n == first_index(tail@, sep),
            n <= tail@.len(),
            contents(r@) + pieces(tail@, sep) == pieces(s@, sep),
        decreases tail@.len(),
    {
        let ghost before = r@;
        let ghost rest = tail@;
        let piece = &tail[0..n];
        r.push(piece);
        tail = &tail[n + 1..tail.len()];
        n = find(tail, sep);
        proof {
            let k = first_index(rest, sep);
            assert(piece@ == rest.take(k));
            assert(contents(r@) == contents(before).push(piece@));
            assert(tail@ == rest.skip(k + 1));
            assert(contents(before) + pieces(rest, sep) == contents(r@) + pieces(tail@, sep));
        }
    }
    let ghost before = r@;
    r.push(tail);
    proof {
        assert(contents(r@) == contents(before).push(tail@));
        assert(pieces(tail@, sep) == seq![tail@]);
        assert(contents(before) + pieces(tail@, sep) == contents(r@));
    }
    r
}

/// Appends the decimal digits of `n`.
pub fn push_decimal(r: &mut String, n: u64)
    ensures
        final(r)@ == old(r)@ + decimal(n as nat),
    decreases n,
{
    if n >= 10 {
        push_decimal(r, n / 10);
    }
    let ghost before = r@;
    let d = (48 + (n % 10) as u8) as char;
    r.push(d);
    proof {
        assert(d == digit((n % 10) as nat));
        if n >= 10 {
            assert(decimal(n as nat) == decimal((n / 10) as nat).push(d));
            assert(old(r)@ + decimal(n as nat) == before.push(d));
        } else {
            assert(decimal(n as nat) == seq![d]);
            assert(old(r)@ + decimal(n as nat) == before.push(d));
        }
    }
}

/// The parts with `sep` between them.
pub open spec fn joined_with(parts: Seq<Seq<char>>, sep: Seq<char>) -> Seq<char>
    decreases parts.len(),
{
    if parts.len() == 0 {
        Seq::empty()
    } else if parts.len() == 1 {
        parts[0]
    } else {
        joined_with(parts.drop_last(), sep) + sep + parts.last()
    }
}

/// Joins the parts with `sep` between them.
pub fn join(parts: &Vec<String>, sep: &str) -> (r: String)
    ensures
        r@ == joined_with(crate::order::views(parts@), sep@),
{
    let ghost all = crate::order::views(parts@);
    let mut r = String::new();
    let mut i: usize = 0;
    assert(all.take(0) == Seq::<Seq<char>>::empty());
    while i < parts.len()
        invariant
            i <= parts@.len(),
            all == crate::order::views(parts@),
            r@ == joined_with(all.take(i as int), sep@),
        decreases parts.len() - i,
    {
        let ghost before = r@;
        if i > 0 {
            r.append(sep);
        }
        r.append(parts[i].as_str());
        proof {
            let t = all.take(i + 1);
            assert(t.drop_last() == all.take(i as int));
            assert(t.last() == parts@[i as int]@);
            assert(r@ =~= joined_with(t, sep@));
        }
        i += 1;
    }
    assert(all.take(all.len() as int) == all);
    r
}

/// A line without carriage returns and line feeds at its end.
pub open spec fn chomped(line: Seq<char>) -> Seq<char>
    decreases line.len(),
{
    if line.len() > 0 && (line.last() == '\r' || line.last() == '\n') {
        chomped(line.drop_last())
    } else {
        line
    }
}

/// Drops carriage returns and line feeds at the end.
pub fn chomp(line: &[char]) -> (r: &[char])
    ensures
        r@ == chomped(line@),
{
    let mut n: usize = line.len();
    assert(line@.take(n as int) == line@);
    while n > 0 && (line[n - 1] == '\r' || line[n - 1] == '\n')
        invariant
            n <= line@.len(),
            chomped(line@) == chomped(line@.take(n as int)),
        decreases n,
    {
        assert(line@.take(n as int).drop_last() == line@.take(n - 1));
        n -= 1;
    }
    assert(line@.take(n as int) == line@.subrange(0, n as int));
    &line[0..n]
}

/// Every part stands in what is joined.
pub proof fn lemma_joined_holds(parts: Seq<Seq<char>>, sep: Seq<char>, i: int) -> (k: int)
    requires
        0 <= i < parts.len(),
    ensures
        0 <= k,
        k + parts[i].len() <= joined_with(parts, sep).len(),
        joined_with(parts, sep).subrange(k, k + parts[i].len()) == parts[i],
    decreases parts.len(),
{
    let all = joined_with(parts, sep);
    let m = parts[i].len() as int;
    if parts.len() == 1 {
        assert(all.subrange(0, m) =~= parts[i]);
        0
    } else if i == parts.len() - 1 {
        let k = all.len() - m;
        assert(all.subrange(k, k + m) =~= parts[i]);
        k
    } else {
        let init = parts.drop_last();
        assert(init[i] == parts[i]);
        let k = lemma_joined_holds(init, sep, i);
        assert(all.subrange(k, k + m) =~= joined_with(init, sep).subrange(k, k + m));
        k
    }
}

/// White space is what Unicode says it is.
pub proof fn law_white_space(c: char)
    ensures
        is_blank(c) <==> seq![
            0x9int,
            0xa,
            0xb,
            0xc,
            0xd,
            0x20,
            0x85,
            0xa0,
            0x1680,
            0x2000,
            0x2001,
            0x2002,
            0x2003,
            0x2004,
            0x2005,
            0x2006,
            0x2007,
            0x2008,
            0x2009,
            0x200a,
            0x2028,
            0x2029,
            0x202f,
            0x205f,
            0x3000,
        ].contains(c as int),
{
    let all = seq![
        0x9int,
        0xa,
        0xb,
        0xc,
        0xd,
        0x20,
        0x85,
        0xa0,
        0x1680,
        0x2000,
        0x2001,
        0x2002,
        0x2003,
        0x2004,
        0x2005,
        0x2006,
        0x2007,
        0x2008,
        0x2009,
        0x200a,
        0x2028,
        0x2029,
        0x202f,
        0x205f,
        0x3000,
    ];
    let n = c as int;
    assert(all.len() == 25);
    if is_blank(c) {
        if 0x9 <= n <= 0xd {
            assert(all[n - 9] == n);
        } else if 0x2000 <= n <= 0x200a {
            assert(all[n - 0x2000 + 9] == n);
        } else {
            assert(all[5] == n || all[6] == n || all[7] == n || all[8] == n || all[20] == n
                || all[21] == n || all[22] == n || all[23] == n || all[24] == n);
        }
    }
    if all.contains(n) {
        let i = all.index_of(n);
        assert(all[i] == n);
        assert(0 <= i < 25);
    }
}

proof fn lemma_trimmed_start_cut(s: Seq<char>) -> (i: int)
    ensures
        0 <= i <= s.len(),
        trimmed_start(s) == s.skip(i),
        forall|k: int| 0 <= k < i ==> is_blank(#[trigger] s[k]),
        i < s.len() ==> !is_blank(s[i]),
    decreases s.len(),
{
    if s.len() > 0 && is_blank(s[0]) {
        let t = s.skip(1);
        let i = lemma_trimmed_start_cut(t);
        assert(t.skip(i) =~= s.skip(i + 1));
        assert forall|k: int| 0 <= k < i + 1 implies is_blank(#[trigger] s[k]) by {
            if k > 0 {
                assert(t[k - 1] == s[k]);
            }
        }
        i + 1
    } else {
        assert(s.skip(0) =~= s);
        0
    }
}

proof fn lemma_trimmed_end_cut(s: Seq<char>) -> (j: int)
    ensures
        0 <= j <= s.len(),
        trimmed_end(s) == s.take(j),
        forall|k: int| j <= k < s.len() ==> is_blank(#[trigger] s[k]),
        j > 0 ==> !is_blank(s[j - 1]),
    decreases s.len(),
{
    if s.len() > 0 && is_blank(s.last()) {
        let t = s.drop_last();
        let j = lemma_trimmed_end_cut(t);
        assert(t.take(j) =~= s.take(j));
        assert forall|k: int| j <= k < s.len() implies is_blank(#[trigger] s[k]) by {
            if k < t.len() {
                assert(t[k] == s[k]);
            }
        }
        if j > 0 {
            assert(t[j - 1] == s[j - 1]);
        }
        j
    } else {
        assert(s.take(s.len() as int) =~= s);
        s.len() as int
    }
}

/// Trimming takes off white space at both ends, all of it and nothing else.
pub proof fn law_trimming(before: Seq<char>, s: Seq<char>, after: Seq<char>)
    requires
        forall|k: int| 0 <= k < before.len() ==> is_blank(#[trigger] before[k]),
        forall|k: int| 0 <= k < after.len() ==> is_blank(#[trigger] after[k]),
        s.len() > 0 ==> !is_blank(s[0]) && !is_blank(s.last()),
    ensures
        trimmed(before + s + after) == s,
        s.len() > 0 ==> trimmed_start(before + s + after) == s + after,
        s.len() > 0 ==> trimmed_end(before + s + after) == before + s,
{
    let all = before + s + after;
    let i = lemma_trimmed_start_cut(all);
    let e = lemma_trimmed_end_cut(all);
    let rest = all.skip(i);
    let j = lemma_trimmed_end_cut(rest);
    if s.len() == 0 {
        if i < all.len() {
            assert(all[i] == (if i < before.len() {
                before[i]
            } else {
                after[i - before.len()]
            }));
        }
        assert(rest =~= Seq::<char>::empty());
        assert(trimmed(all) =~= s);
    } else {
        let n = before.len() as int;
        let m = n + s.len();
        if i < n {
            assert(all[i] == before[i]);
        }
        if i > n {
            assert(all[n] == s[0]);
        }
        assert(rest =~= s + after);
        if e > m {
            assert(all[e - 1] == after[e - 1 - m]);
        }
        if e < m {
            assert(all[m - 1] == s[s.len() - 1]);
        }
        assert(all.take(e) =~= before + s);
        if j > s.len() {
            assert(rest[j - 1] == after[j - 1 - s.len()]);
        }
        if j < s.len() {
            assert(rest[s.len() - 1] == s[s.len() - 1]);
        }
        assert(rest.take(j) =~= s);
    }
}

/// A text begins with another exactly if something behind that makes it up.
pub proof fn law_beginning<T>(s: Seq<T>, p: Seq<T>)
    ensures
        begins_with(s, p) <==> exists|rest: Seq<T>| s == p + rest,
{
    if begins_with(s, p) {
        assert(s =~= p + s.skip(p.len() as int));
    }
    if exists|rest: Seq<T>| s == p + rest {
        let rest = choose|rest: Seq<T>| s == p + rest;
        assert(s.take(p.len() as int) =~= p);
    }
}

/// A text is taken apart at its line feeds: what stands before the first one is a
/// line, without a carriage return at its end, and what follows gives the other
/// lines. A text without line feeds is one line, and an empty one is none.
pub proof fn law_lines(line: Seq<char>, rest: Seq<char>)
    requires
        !line.contains('\n'),
    ensures
        line_seq(line + seq!['\n'] + rest) == seq![
            if line.len() > 0 && line[line.len() - 1] == '\r' {
                line.take(line.len() - 1)
            } else {
                line
            },
        ] + line_seq(rest),
        line.len() > 0 ==> line_seq(line) == seq![line],
        line_seq(Seq::empty()) == Seq::<Seq<char>>::empty(),
{
    let all = line + seq!['\n'] + rest;
    let n = line.len() as int;
    assert forall|i: int| 0 <= i < n implies all[i] != '\n' by {
        assert(all[i] == line[i]);
    }
    lemma_first_index_unique(all, '\n', n);
    lemma_first_index_unique(line, '\n', n);
    assert(all.take(n) =~= line);
    assert(all.skip(n + 1) =~= rest);
    if n > 0 {
        assert(line.drop_last() =~= line.take(n - 1));
    }
}

/// A list is taken apart at its separators: what stands before the first one is a
/// piece, and what follows gives the other pieces. A list without separators is
/// one piece.
pub proof fn law_pieces<T>(piece: Seq<T>, sep: T, rest: Seq<T>)
    requires
        !piece.contains(sep),
    ensures
        pieces(piece + seq![sep] + rest, sep) == seq![piece] + pieces(rest, sep),
        pieces(piece, sep) == seq![piece],
{
    let all = piece + seq![sep] + rest;
    let n = piece.len() as int;
    assert forall|i: int| 0 <= i < n implies all[i] != sep by {
        assert(all[i] == piece[i]);
    }
    lemma_first_index_unique(all, sep, n);
    lemma_first_index_unique(piece, sep, n);
    assert(all.take(n) =~= piece);
    assert(all.skip(n + 1) =~= rest);
}

/// The first place of something is the one before which it does not occur.
pub proof fn law_first_place<T>(before: Seq<T>, c: T, after: Seq<T>)
    requires
        !before.contains(c),
    ensures
        first_index(before + seq![c] + after, c) == before.len(),
        first_index(before, c) == before.len(),
{
    let all = before + seq![c] + after;
    assert forall|i: int| 0 <= i < before.len() implies all[i] != c by {
        assert(all[i] == before[i]);
    }
    lemma_first_index_unique(all, c, before.len() as int);
    lemma_first_index_unique(before, c, before.len() as int);
}

/// A number's last digit is what is left of it beyond the tens, and the digits
/// before it are those of the tens.
pub proof fn law_decimal_digits(tens: nat, ones: nat)
    requires
        ones < 10,
    ensures
        decimal(ones) == seq![(0x30 + ones) as char],
        tens > 0 ==> decimal(10 * tens + ones) == decimal(tens) + seq![(0x30 + ones) as char],
{
    if tens > 0 {
        assert((10 * tens + ones) / 10 == tens);
        assert((10 * tens + ones) % 10 == ones);
        assert(decimal(10 * tens + ones) =~= decimal(tens) + seq![(0x30 + ones) as char]);
    }
}

/// Joining puts the separator between parts and nowhere else.
pub proof fn law_joining(first: Seq<char>, parts: Seq<Seq<char>>, sep: Seq<char>, last: Seq<char>)
    ensures
        joined_with(Seq::empty(), sep) == Seq::<char>::empty(),
        joined_with(seq![first], sep) == first,
        joined_with(seq![first] + parts + seq![last], sep) == joined_with(seq![first] + parts, sep)
            + sep + last,
{
    let some = seq![first] + parts;
    let all = some + seq![last];
    assert(all.drop_last() =~= some);
    assert(all.len() >= 2);
    assert(all.last() == last);
}

/// Chomping takes off the line break and nothing before it.
pub proof fn law_chomping(line: Seq<char>, ending: Seq<char>)
    requires
        forall|i: int| 0 <= i < ending.len() ==> #[trigger] ending[i] == '\r' || ending[i] == '\n',
        line.len() > 0 ==> line.last() != '\r' && line.last() != '\n',
    ensures
        chomped(line + ending) == line,
    decreases ending.len(),
{
    let all = line + ending;
    if ending.len() == 0 {
        assert(all =~= line);
    } else {
        assert(ending[ending.len() - 1] == all.last());
        assert(all.drop_last() =~= line + ending.drop_last());
        assert forall|i: int| 0 <= i < ending.drop_last().len() implies #[trigger]
            ending.drop_last()[i] == '\r' || ending.drop_last()[i] == '\n' by {
            assert(ending.drop_last()[i] == ending[i]);
        }
        law_chomping(line, ending.drop_last());
    }
}

/// A blank at the end is trimmed.
pub proof fn lemma_trimmed_blank_end(s: Seq<char>, c: char)
    requires
        is_blank(c),
    ensures
        trimmed(s.push(c)) == trimmed(s),
    decreases s.len(),
{
    let all = s.push(c);
    if s.len() > 0 {
        assert(all[0] == s[0]);
        if is_blank(s[0]) {
            assert(all.skip(1) =~= s.skip(1).push(c));
            lemma_trimmed_blank_end(s.skip(1), c);
        } else {
            assert(all.drop_last() =~= s);
            assert(all.last() == c);
        }
    } else {
        assert(all.skip(1) =~= Seq::<char>::empty());
        assert(s =~= Seq::<char>::empty());
    }
}

/// Trimming brings nothing in.
pub proof fn lemma_trimmed_within(s: Seq<char>, c: char)
    requires
        !s.contains(c),
    ensures
        !trimmed(s).contains(c),
        !trimmed_start(s).contains(c),
{
    let i = lemma_trimmed_start_cut(s);
    let t = s.skip(i);
    if t.contains(c) {
        assert(s[i + t.index_of(c)] == c);
    }
    let j = lemma_trimmed_end_cut(t);
    if t.take(j).contains(c) {
        assert(t[t.take(j).index_of(c)] == c);
    }
}

} // verus!
