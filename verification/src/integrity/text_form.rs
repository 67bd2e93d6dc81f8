//! A baseline as text: one tab-separated line per entry.
use super::Baseline;
use super::BaselineView;
use super::Declared;
use super::DirGroup;
use super::DirView;
use super::FileEntry;
use super::FileView;
use crate::order;
use crate::path;
use crate::path::FsPath;
use crate::text;
use vstd::prelude::*;

verus! {

/// The line of an absent path.
pub open spec fn absent_line(p: Seq<u8>) -> Seq<char> {
    "absent\t-\t"@ + path::shown(p)
}

/// The line of a file.
pub open spec fn file_line(f: FileView) -> Seq<char> {
    "file\t"@ + f.hash + "\t"@ + path::shown(f.path)
}

/// The line of a directory.
pub open spec fn dir_line(p: Seq<u8>) -> Seq<char> {
    "dir\t-\t"@ + path::shown(p)
}

pub open spec fn absent_lines(s: Seq<Seq<u8>>) -> Seq<Seq<char>> {
    s.map_values(|p: Seq<u8>| absent_line(p))
}

pub open spec fn file_lines(s: Seq<FileView>) -> Seq<Seq<char>> {
    s.map_values(|f: FileView| file_line(f))
}

/// Each directory's line with the lines of its files behind it.
pub open spec fn dir_lines(s: Seq<DirView>) -> Seq<Seq<char>>
    decreases s.len(),
{
    if s.len() == 0 {
        Seq::empty()
    } else {
        dir_lines(s.drop_last()).push(dir_line(s.last().path)) + file_lines(s.last().files)
    }
}

/// The two comment lines of a user's baseline.
pub open spec fn comment_lines(user: Seq<char>) -> Seq<Seq<char>> {
    seq![
        "# envvault config-integrity baseline for user "@ + user,
        "# fields: <kind>\\t<blake3-hex|->\\t<path> — managed by `envvault baseline set`; do not edit"@,
    ]
}

/// The lines of a user's baseline file.
pub open spec fn baseline_lines(b: BaselineView, user: Seq<char>) -> Seq<Seq<char>> {
    comment_lines(user) + absent_lines(b.absent) + file_lines(b.files) + dir_lines(b.dirs)
}

/// Lines, each with a line feed behind it.
pub open spec fn line_text(lines: Seq<Seq<char>>) -> Seq<char>
    decreases lines.len(),
{
    if lines.len() == 0 {
        Seq::empty()
    } else {
        line_text(lines.drop_last()) + lines.last().push('\n')
    }
}

/// The three fields of a line: up to the first tab, up to the second, the rest.
pub open spec fn fields(line: Seq<char>) -> (Seq<char>, Seq<char>, Seq<char>) {
    let n = text::first_index(line, '\t');
    if n >= line.len() {
        (line, Seq::empty(), Seq::empty())
    } else {
        let rest = line.skip(n + 1);
        let m = text::first_index(rest, '\t');
        if m >= rest.len() {
            (line.take(n), rest, Seq::empty())
        } else {
            (line.take(n), rest.take(m), rest.skip(m + 1))
        }
    }
}

/// What one line says.
pub enum LineView {
    Nothing,
    File(FileView),
    Dir(Seq<u8>),
    Absent(Seq<u8>),
    Bad(ErrorView),
}

/// Why a baseline file is refused.
pub enum ErrorView {
    Malformed(Seq<char>),
    UnknownKind(Seq<char>),
}

pub open spec fn read_line(raw: Seq<char>) -> LineView {
    let line = text::chomped(raw);
    let (kind, hash, place) = fields(line);
    let bytes = vstd::utf8::encode_utf8(place);
    if line.len() == 0 || line[0] == '#' {
        LineView::Nothing
    } else if place.len() == 0 {
        LineView::Bad(ErrorView::Malformed(line))
    } else if kind == "file"@ {
        LineView::File(FileView { path: bytes, hash })
    } else if kind == "dir"@ {
        LineView::Dir(bytes)
    } else if kind == "absent"@ {
        LineView::Absent(bytes)
    } else {
        LineView::Bad(ErrorView::UnknownKind(kind))
    }
}

/// What the lines of a file say together.
#[verifier::ext_equal]
pub struct ScanView {
    pub files: Seq<FileView>,
    pub dirs: Seq<Seq<u8>>,
    pub absent: Seq<Seq<u8>>,
}

pub open spec fn with_line(s: ScanView, line: LineView) -> Result<ScanView, ErrorView> {
    match line {
        LineView::Nothing => Ok(s),
        LineView::File(f) => Ok(ScanView { files: s.files.push(f), ..s }),
        LineView::Dir(d) => Ok(ScanView { dirs: s.dirs.push(d), ..s }),
        LineView::Absent(a) => Ok(ScanView { absent: s.absent.push(a), ..s }),
        LineView::Bad(e) => Err(e),
    }
}

/// What a list of lines says, or the first error in it.
pub open spec fn scan(lines: Seq<Seq<char>>) -> Result<ScanView, ErrorView>
    decreases lines.len(),
{
    if lines.len() == 0 {
        Ok(ScanView { files: Seq::empty(), dirs: Seq::empty(), absent: Seq::empty() })
    } else {
        match scan(lines.drop_last()) {
            Err(e) => Err(e),
            Ok(s) => with_line(s, read_line(lines.last())),
        }
    }
}

/// The index of the first directory that is `p` or holds it, or their number.
pub open spec fn owner(dirs: Seq<Seq<u8>>, p: Seq<u8>) -> int
    decreases dirs.len(),
{
    if dirs.len() == 0 || path::below(p, dirs[0]) {
        0
    } else {
        1 + owner(dirs.skip(1), p)
    }
}

/// The files whose owner is the `i`-th directory.
pub open spec fn owned(files: Seq<FileView>, dirs: Seq<Seq<u8>>, i: int) -> Seq<FileView>
    decreases files.len(),
{
    if files.len() == 0 {
        Seq::empty()
    } else {
        let rest = owned(files.drop_last(), dirs, i);
        if owner(dirs, files.last().path) == i {
            rest.push(files.last())
        } else {
            rest
        }
    }
}

/// The baseline of what a file says: directories by falling length of their
/// paths, each with the files that it is the first to hold, and the files that
/// no directory holds.
pub open spec fn grouped(s: ScanView) -> BaselineView {
    let dirs = order::sorted::<Declared>(s.dirs);
    BaselineView {
        files: owned(s.files, dirs, dirs.len() as int),
        dirs: Seq::new(
            dirs.len(),
            |i: int| DirView { path: dirs[i], files: owned(s.files, dirs, i) },
        ),
        absent: s.absent,
    }
}

/// The baseline that a text gives.
pub open spec fn parsed(text: Seq<char>) -> Result<BaselineView, ErrorView> {
    match scan(text::line_seq(text)) {
        Err(e) => Err(e),
        Ok(s) => Ok(grouped(s)),
    }
}

/// Why a baseline file is refused.
pub enum BaselineError {
    /// A line without a path.
    Malformed(String),
    /// A line of an unknown kind.
    UnknownKind(String),
}

impl View for BaselineError {
    type V = ErrorView;

    open spec fn view(&self) -> ErrorView {
        match self {
            BaselineError::Malformed(l) => ErrorView::Malformed(l@),
            BaselineError::UnknownKind(k) => ErrorView::UnknownKind(k@),
        }
    }
}

/// What one line says, in memory.
enum Line {
    Nothing,
    File(FileEntry),
    Dir(FsPath),
    Absent(FsPath),
    Bad(BaselineError),
}

impl View for Line {
    type V = LineView;

    closed spec fn view(&self) -> LineView {
        match self {
            Line::Nothing => LineView::Nothing,
            Line::File(f) => LineView::File(f@),
            Line::Dir(d) => LineView::Dir(d@),
            Line::Absent(a) => LineView::Absent(a@),
            Line::Bad(e) => LineView::Bad(e@),
        }
    }
}

/// Splits a line at its first two tabs.
fn split_fields<'a>(line: &'a [char]) -> (r: (&'a [char], &'a [char], &'a [char]))
    ensures
        (r.0@, r.1@, r.2@) == fields(line@),
{
    let len = line.len();
    let n = text::find(line, '\t');
    if n >= len {
        let none = &line[len..len];
        assert(none@ == Seq::<char>::empty());
        return (line, none, none);
    }
    let rest = &line[n + 1..len];
    assert(rest@ == line@.skip(n + 1));
    assert(line@.take(n as int) == line@.subrange(0, n as int));
    let m = text::find(rest, '\t');
    if m >= rest.len() {
        let none = &line[len..len];
        assert(none@ == Seq::<char>::empty());
        return (&line[0..n], rest, none);
    }
    assert(rest@.take(m as int) == rest@.subrange(0, m as int));
    assert(rest@.skip(m + 1) == rest@.subrange(m + 1, rest@.len() as int));
    (&line[0..n], &rest[0..m], &rest[m + 1..rest.len()])
}

/// Whether a field is a given word.
fn is_word(field: &[char], word: &str) -> (r: bool)
    ensures
        r == (field@ == word@),
{
    let w = text::chars_of(word);
    text::same_chars(field, w.as_slice())
}

/// What one line says.
fn parse_line(raw: &[char]) -> (r: Line)
    ensures
        r@ == read_line(raw@),
{
    let line = text::chomp(raw);
    if line.len() == 0 || line[0] == '#' {
        return Line::Nothing;
    }
    let (kind, hash, place) = split_fields(line);
    if place.len() == 0 {
        return Line::Bad(BaselineError::Malformed(text::string_of(line)));
    }
    let location = FsPath::of(text::string_of(place).as_str());
    if is_word(kind, "file") {
        Line::File(FileEntry { path: location, hash: text::string_of(hash) })
    } else if is_word(kind, "dir") {
        Line::Dir(location)
    } else if is_word(kind, "absent") {
        Line::Absent(location)
    } else {
        Line::Bad(BaselineError::UnknownKind(text::string_of(kind)))
    }
}

proof fn lemma_owner(dirs: Seq<Seq<u8>>, p: Seq<u8>, n: int)
    requires
        0 <= n <= dirs.len(),
        n < dirs.len() ==> path::below(p, dirs[n]),
        forall|i: int| 0 <= i < n ==> !path::below(p, #[trigger] dirs[i]),
    ensures
        owner(dirs, p) == n,
    decreases dirs.len(),
{
    if n > 0 {
        assert(!path::below(p, dirs[0]));
        let rest = dirs.skip(1);
        assert forall|i: int| 0 <= i < n - 1 implies !path::below(p, #[trigger] rest[i]) by {
            assert(rest[i] == dirs[i + 1]);
        }
        lemma_owner(rest, p, n - 1);
    }
}

/// Puts each file into the first group that holds it, and returns the others.
fn group(files: Vec<FileEntry>, dirs: Vec<Declared>) -> (r: (Vec<FileEntry>, Vec<DirGroup>))
    ensures
        ({
            let f = order::views(files@);
            let d = order::views(dirs@);
            &&& order::views(r.0@) == owned(f, d, d.len() as int)
            &&& order::views(r.1@) == Seq::new(
                d.len(),
                |i: int| DirView { path: d[i], files: owned(f, d, i) },
            )
        }),
{
    let ghost f = order::views(files@);
    let ghost d = order::views(dirs@);
    let mut groups: Vec<DirGroup> = Vec::new();
    let mut k: usize = 0;
    while k < dirs.len()
        invariant
            k <= dirs@.len(),
            groups@.len() == k,
            d == order::views(dirs@),
            forall|i: int|
                0 <= i < k ==> (#[trigger] groups@[i]).path@ == d[i] && groups@[i].files@.len() == 0,
        decreases dirs.len() - k,
    {
        groups.push(DirGroup { path: dirs[k].path.clone(), files: Vec::new() });
        k += 1;
    }
    let mut alone: Vec<FileEntry> = Vec::new();
    let mut i: usize = 0;
    proof {
        assert(f.take(0) == Seq::<FileView>::empty());
        assert(order::views(alone@) =~= Seq::<FileView>::empty());
        assert forall|j: int| 0 <= j < d.len() implies order::views(
            (#[trigger] groups@[j]).files@,
        ) == owned(f.take(0), d, j) by {
            assert(groups@[j].files@.len() == 0);
            assert(order::views(groups@[j].files@) =~= Seq::<FileView>::empty());
        }
    }
    while i < files.len()
        invariant
            i <= files@.len(),
            f == order::views(files@),
            d == order::views(dirs@),
            groups@.len() == d.len(),
            order::views(alone@) == owned(f.take(i as int), d, d.len() as int),
            forall|j: int|
                0 <= j < d.len() ==> (#[trigger] groups@[j]).path@ == d[j] && order::views(
                    groups@[j].files@,
                ) == owned(f.take(i as int), d, j),
        decreases files.len() - i,
    {
        let ghost now = groups@;
        let ghost before = alone@;
        let fe = &files[i];
        let mut g: usize = 0;
        while g < groups.len() && !fe.path.starts_with(&groups[g].path)
            invariant
                groups@ == now,
                g <= groups@.len(),
                groups@.len() == d.len(),
                forall|j: int| 0 <= j < d.len() ==> (#[trigger] groups@[j]).path@ == d[j],
                forall|j: int| 0 <= j < g ==> !path::below(fe.path@, #[trigger] d[j]),
            decreases groups.len() - g,
        {
            assert(!path::below(fe.path@, d[g as int]));
            g += 1;
        }
        proof {
            if g < groups@.len() {
                assert(groups@[g as int].path@ == d[g as int]);
            }
            lemma_owner(d, fe.path@, g as int);
            assert(f.take(i + 1).drop_last() == f.take(i as int));
            assert(f.take(i + 1).last() == fe@);
        }
        let copy = FileEntry { path: fe.path.clone(), hash: fe.hash.clone() };
        assert(copy@ =~= fe@);
        if g < groups.len() {
            groups[g].files.push(copy);
            proof {
                assert forall|j: int| 0 <= j < d.len() implies (#[trigger] groups@[j]).path@ == d[j]
                    && order::views(groups@[j].files@) == owned(f.take(i + 1), d, j) by {
                    assert(now[j].path@ == d[j]);
                    if j == g {
                        assert(groups@[j].files@ == now[j].files@.push(copy));
                        assert(order::views(groups@[j].files@) =~= order::views(now[j].files@).push(
                            copy@,
                        ));
                    }
                }
            }
        } else {
            alone.push(copy);
            assert(order::views(alone@) =~= order::views(before).push(copy@));
            assert forall|j: int| 0 <= j < d.len() implies (#[trigger] groups@[j]).path@ == d[j]
                && order::views(groups@[j].files@) == owned(f.take(i + 1), d, j) by {
                assert(now[j].path@ == d[j]);
            }
        }
        i += 1;
    }
    proof {
        assert(f.take(f.len() as int) == f);
        let want = Seq::new(d.len(), |i: int| DirView { path: d[i], files: owned(f, d, i) });
        assert forall|j: int| 0 <= j < d.len() implies order::views(groups@)[j] == want[j] by {
            assert(groups@[j].path@ == d[j]);
        }
        assert(order::views(groups@) =~= want);
    }
    (alone, groups)
}

impl Baseline {
    /// Reads the text form. Files below a declared directory belong to it, to
    /// the one with the longest path if there are several.
    pub fn parse(text: &str) -> (r: Result<Baseline, BaselineError>)
        ensures
            match r {
                Ok(b) => parsed(text@) == Ok::<BaselineView, ErrorView>(b@) && b@.plain(),
                Err(e) => parsed(text@) == Err::<BaselineView, ErrorView>(e@),
            },
    {
        let chars = text::chars_of(text);
        let lines = text::lines(chars.as_slice());
        let ghost all = text::line_seq(text@);
        let mut files: Vec<FileEntry> = Vec::new();
        let mut dirs: Vec<Declared> = Vec::new();
        let mut absent: Vec<FsPath> = Vec::new();
        let mut i: usize = 0;
        proof {
            assert(all.take(0) == Seq::<Seq<char>>::empty());
            assert(order::views(files@) =~= Seq::<FileView>::empty());
            assert(order::views(dirs@) =~= Seq::<Seq<u8>>::empty());
            assert(order::views(absent@) =~= Seq::<Seq<u8>>::empty());
        }
        while i < lines.len()
            invariant
                all == text::contents(lines@),
                all == text::line_seq(text@),
                i <= lines@.len(),
                scan(all.take(i as int)) == Ok::<ScanView, ErrorView>(
                    ScanView {
                        files: order::views(files@),
                        dirs: order::views(dirs@),
                        absent: order::views(absent@),
                    },
                ),
            decreases lines.len() - i,
        {
            let ghost f = files@;
            let ghost d = dirs@;
            let ghost a = absent@;
            proof {
                assert(all[i as int] == lines@[i as int]@);
                assert(all.take(i + 1).drop_last() == all.take(i as int));
            }
            match parse_line(lines[i]) {
                Line::Nothing => {},
                Line::File(fe) => {
                    files.push(fe);
                    assert(order::views(files@) =~= order::views(f).push(fe@));
                },
                Line::Dir(p) => {
                    let decl = Declared { path: p };
                    dirs.push(decl);
                    assert(order::views(dirs@) =~= order::views(d).push(decl@));
                },
                Line::Absent(p) => {
                    absent.push(p);
                    assert(order::views(absent@) =~= order::views(a).push(p@));
                },
                Line::Bad(e) => {
                    proof {
                        lemma_scan_error(all, i + 1, e@);
                    }
                    return Err(e);
                },
            }
            i += 1;
        }
        assert(all.take(all.len() as int) == all);
        order::sort(&mut dirs);
        let (files, dirs) = group(files, dirs);
        let b = Baseline { files, dirs, absent };
        proof {
            text::lemma_lines_are_lines(text@);
            let s = scan(all)->Ok_0;
            lemma_scan_plain(all);
            lemma_grouped_plain(s);
            assert(b@ =~= grouped(s));
        }
        Ok(b)
    }
}

/// The hash in a line holds neither a tab nor a line feed.
proof fn lemma_line_plain(raw: Seq<char>)
    requires
        !raw.contains('\n'),
    ensures
        read_line(raw) matches LineView::File(f) ==> super::plain_hash(f.hash),
{
    let line = text::chomped(raw);
    lemma_chomped_one_line(raw);
    let n = text::first_index(line, '\t');
    text::lemma_first_index(line, '\t');
    if n < line.len() {
        let rest = line.skip(n + 1);
        let m = text::first_index(rest, '\t');
        text::lemma_first_index(rest, '\t');
        assert forall|i: int| 0 <= i < m implies #[trigger] rest.take(m)[i] != '\n' && rest.take(
            m,
        )[i] != '\t' by {
            assert(rest[i] == line[i + n + 1]);
        }
    }
}

proof fn lemma_chomped_one_line(line: Seq<char>)
    requires
        !line.contains('\n'),
    ensures
        !text::chomped(line).contains('\n'),
    decreases line.len(),
{
    if line.len() > 0 && (line.last() == '\r' || line.last() == '\n') {
        let init = line.drop_last();
        assert forall|i: int| 0 <= i < init.len() implies init[i] != '\n' by {
            assert(init[i] == line[i]);
        }
        lemma_chomped_one_line(init);
    }
}

/// The hashes in a list of lines hold neither tabs nor line feeds.
proof fn lemma_scan_plain(lines: Seq<Seq<char>>)
    requires
        forall|i: int| 0 <= i < lines.len() ==> !(#[trigger] lines[i]).contains('\n'),
    ensures
        scan(lines) matches Ok(s) ==> forall|i: int|
            0 <= i < s.files.len() ==> super::plain_hash((#[trigger] s.files[i]).hash),
    decreases lines.len(),
{
    if lines.len() > 0 {
        let init = lines.drop_last();
        assert forall|i: int| 0 <= i < init.len() implies !(#[trigger] init[i]).contains('\n') by {
            assert(init[i] == lines[i]);
        }
        lemma_scan_plain(init);
        assert(!lines[lines.len() - 1].contains('\n'));
        lemma_line_plain(lines.last());
        if let Ok(s) = scan(init) {
            if let Ok(t) = scan(lines) {
                assert forall|i: int| 0 <= i < t.files.len() implies super::plain_hash(
                    (#[trigger] t.files[i]).hash,
                ) by {
                    if i < s.files.len() {
                        assert(t.files[i] == s.files[i]);
                    }
                }
            }
        }
    }
}

/// What a directory owns is among the files.
proof fn lemma_owned_among(files: Seq<FileView>, dirs: Seq<Seq<u8>>, i: int, f: FileView)
    requires
        owned(files, dirs, i).contains(f),
    ensures
        files.contains(f),
    decreases files.len(),
{
    if files.len() > 0 {
        let init = files.drop_last();
        let mine = owned(files, dirs, i);
        if f == files.last() {
            assert(files[files.len() - 1] == f);
        } else {
            let k = mine.index_of(f);
            assert(owned(init, dirs, i)[k] == f);
            lemma_owned_among(init, dirs, i, f);
            assert(files[init.index_of(f)] == f);
        }
    }
}

/// Grouping keeps hashes as they are.
proof fn lemma_grouped_plain(s: ScanView)
    requires
        forall|i: int| 0 <= i < s.files.len() ==> super::plain_hash((#[trigger] s.files[i]).hash),
    ensures
        grouped(s).plain(),
{
    let b = grouped(s);
    let dirs = order::sorted::<Declared>(s.dirs);
    assert forall|f: FileView| #[trigger] b.files.contains(f) implies super::plain_hash(f.hash) by {
        lemma_owned_among(s.files, dirs, dirs.len() as int, f);
        assert(s.files[s.files.index_of(f)] == f);
    }
    assert forall|d: DirView, f: FileView|
        #![trigger b.dirs.contains(d), d.files.contains(f)]
        b.dirs.contains(d) && d.files.contains(f) implies super::plain_hash(f.hash) by {
        let i = b.dirs.index_of(d);
        assert(d.files == owned(s.files, dirs, i));
        lemma_owned_among(s.files, dirs, i, f);
        assert(s.files[s.files.index_of(f)] == f);
    }
}

/// An error in the first lines is the error of them all.
proof fn lemma_scan_error(lines: Seq<Seq<char>>, n: int, e: ErrorView)
    requires
        0 <= n <= lines.len(),
        scan(lines.take(n)) == Err::<ScanView, ErrorView>(e),
    ensures
        scan(lines) == Err::<ScanView, ErrorView>(e),
    decreases lines.len() - n,
{
    if n == lines.len() {
        assert(lines.take(n) == lines);
    } else {
        assert(lines.take(n + 1).drop_last() == lines.take(n));
        lemma_scan_error(lines, n + 1, e);
    }
}

proof fn lemma_line_text_push(lines: Seq<Seq<char>>, line: Seq<char>)
    ensures
        line_text(lines.push(line)) == line_text(lines) + line.push('\n'),
{
    assert(lines.push(line).drop_last() == lines);
}

/// Appends the line of a file.
fn push_file_line(out: &mut String, f: &FileEntry)
    ensures
        final(out)@ == old(out)@ + file_line(f@).push('\n'),
{
    out.append("file\t");
    out.append(f.hash.as_str());
    out.append("\t");
    let shown = f.path.display();
    out.append(shown.as_str());
    out.push('\n');
    assert(out@ =~= old(out)@ + file_line(f@).push('\n'));
}

/// Appends the lines of files.
fn push_file_lines(out: &mut String, files: &Vec<FileEntry>, lines: Ghost<Seq<Seq<char>>>)
    requires
        old(out)@ == line_text(lines@),
    ensures
        final(out)@ == line_text(lines@ + file_lines(order::views(files@))),
{
    let ghost all = order::views(files@);
    let mut i: usize = 0;
    assert(lines@ + file_lines(all.take(0)) =~= lines@);
    while i < files.len()
        invariant
            i <= files@.len(),
            all == order::views(files@),
            out@ == line_text(lines@ + file_lines(all.take(i as int))),
        decreases files.len() - i,
    {
        push_file_line(out, &files[i]);
        proof {
            let done = lines@ + file_lines(all.take(i as int));
            lemma_line_text_push(done, file_line(all[i as int]));
            assert(lines@ + file_lines(all.take(i + 1)) =~= done.push(file_line(all[i as int])));
        }
        i += 1;
    }
    assert(all.take(all.len() as int) == all);
}

impl Baseline {
    /// The text form, with one line per entry.
    pub fn serialize(&self, user: &str) -> (r: String)
        ensures
            r@ == line_text(baseline_lines(self@, user@)),
    {
        let mut out = String::new();
        out.append("# envvault config-integrity baseline for user ");
        out.append(user);
        out.push('\n');
        out.append(
            "# fields: <kind>\\t<blake3-hex|->\\t<path> — managed by `envvault baseline set`; do not edit",
        );
        out.push('\n');
        let ghost head = comment_lines(user@);
        proof {
            let none = Seq::<Seq<char>>::empty();
            lemma_line_text_push(none, head[0]);
            lemma_line_text_push(none.push(head[0]), head[1]);
            assert(none.push(head[0]).push(head[1]) =~= head);
            assert(line_text(none) == Seq::<char>::empty());
            assert(out@ =~= line_text(none) + head[0].push('\n') + head[1].push('\n'));
        }
        let ghost gone = order::views(self.absent@);
        let mut i: usize = 0;
        assert(head + absent_lines(gone.take(0)) =~= head);
        while i < self.absent.len()
            invariant
                i <= self.absent@.len(),
                gone == order::views(self.absent@),
                out@ == line_text(head + absent_lines(gone.take(i as int))),
            decreases self.absent.len() - i,
        {
            let ghost before = out@;
            let shown = self.absent[i].display();
            out.append("absent\t-\t");
            out.append(shown.as_str());
            out.push('\n');
            proof {
                let done = head + absent_lines(gone.take(i as int));
                let line = absent_line(gone[i as int]);
                lemma_line_text_push(done, line);
                assert(out@ =~= before + line.push('\n'));
                assert(head + absent_lines(gone.take(i + 1)) =~= done.push(line));
            }
            i += 1;
        }
        assert(gone.take(gone.len() as int) == gone);
        push_file_lines(&mut out, &self.files, Ghost(head + absent_lines(gone)));
        let ghost head = head + absent_lines(gone) + file_lines(order::views(self.files@));
        let ghost trees = order::views(self.dirs@);
        let mut k: usize = 0;
        assert(trees.take(0) == Seq::<DirView>::empty());
        assert(head + dir_lines(trees.take(0)) =~= head);
        while k < self.dirs.len()
            invariant
                k <= self.dirs@.len(),
                trees == order::views(self.dirs@),
                out@ == line_text(head + dir_lines(trees.take(k as int))),
            decreases self.dirs.len() - k,
        {
            let ghost before = out@;
            let shown = self.dirs[k].path.display();
            out.append("dir\t-\t");
            out.append(shown.as_str());
            out.push('\n');
            let ghost done = head + dir_lines(trees.take(k as int));
            let ghost line = dir_line(trees[k as int].path);
            proof {
                lemma_line_text_push(done, line);
                assert(out@ =~= before + line.push('\n'));
            }
            push_file_lines(&mut out, &self.dirs[k].files, Ghost(done.push(line)));
            proof {
                assert(trees.take(k + 1).drop_last() == trees.take(k as int));
                assert(trees.take(k + 1).last() == trees[k as int]);
                assert(head + dir_lines(trees.take(k + 1)) =~= done.push(line) + file_lines(
                    trees[k as int].files,
                ));
            }
            k += 1;
        }
        assert(trees.take(trees.len() as int) == trees);
        out
    }
}

/// Paths that a line gives back: UTF-8, on one line, and not ending in a
/// carriage return.
pub open spec fn writable(p: Seq<u8>) -> bool {
    &&& vstd::utf8::valid_utf8(p)
    &&& path::shown(p).len() > 0
    &&& !path::shown(p).contains('\n')
    &&& path::shown(p).last() != '\r'
}

/// File entries that a line gives back.
pub open spec fn writable_file(f: FileView) -> bool {
    writable(f.path) && super::plain_hash(f.hash)
}

/// Baselines that their text gives back: every path can be written; of the
/// directories, by falling length of their paths, the first that holds a
/// directory's file is that directory; none holds a standalone file; and a
/// directory with files occurs once.
pub open spec fn restorable(b: BaselineView) -> bool {
    let dirs = order::sorted::<Declared>(dir_paths(b.dirs));
    &&& forall|i: int| 0 <= i < b.absent.len() ==> writable(#[trigger] b.absent[i])
    &&& forall|i: int| 0 <= i < b.files.len() ==> writable((#[trigger] b.files[i]).path)
    &&& forall|i: int| 0 <= i < b.dirs.len() ==> writable((#[trigger] b.dirs[i]).path)
    &&& forall|i: int, j: int|
        #![trigger b.dirs[i].files[j]]
        0 <= i < b.dirs.len() && 0 <= j < b.dirs[i].files.len() ==> {
            let o = owner(dirs, b.dirs[i].files[j].path);
            &&& writable(b.dirs[i].files[j].path)
            &&& 0 <= o < dirs.len()
            &&& dirs[o] == b.dirs[i].path
        }
    &&& forall|i: int| 0 <= i < b.files.len() ==> owner(dirs, (#[trigger] b.files[i]).path)
        == dirs.len()
    &&& forall|i: int, k: int|
        #![trigger b.dirs[i], b.dirs[k]]
        0 <= i < b.dirs.len() && 0 <= k < b.dirs.len() && i != k && b.dirs[i].path
            == b.dirs[k].path ==> b.dirs[i].files.len() == 0
}

/// The lines of a text made of lines are those lines.
proof fn lemma_line_text(lines: Seq<Seq<char>>)
    requires
        forall|i: int| 0 <= i < lines.len() ==> !(#[trigger] lines[i]).contains('\n'),
    ensures
        text::line_seq(line_text(lines)) == lines.map_values(
            |l: Seq<char>| text::without_return(l),
        ),
        line_text(lines).len() == 0 || line_text(lines).last() == '\n',
    decreases lines.len(),
{
    let f = |l: Seq<char>| text::without_return(l);
    if lines.len() == 0 {
        assert(lines.map_values(f) =~= Seq::<Seq<char>>::empty());
    } else {
        let init = lines.drop_last();
        assert forall|i: int| 0 <= i < init.len() implies !(#[trigger] init[i]).contains('\n') by {
            assert(init[i] == lines[i]);
        }
        lemma_line_text(init);
        assert(!lines[lines.len() - 1].contains('\n'));
        text::lemma_line_seq_push(line_text(init), lines.last());
        assert(lines.map_values(f) =~= init.map_values(f).push(f(lines.last())));
    }
}

/// A line of three fields is read field by field.
proof fn lemma_fields(kind: Seq<char>, hash: Seq<char>, place: Seq<char>)
    requires
        kind.len() > 0,
        kind[0] != '#',
        !kind.contains('\t'),
        !kind.contains('\n'),
        !hash.contains('\t'),
        !hash.contains('\n'),
        place.len() > 0,
        place.last() != '\r',
        !place.contains('\n'),
    ensures
        ({
            let line = kind + seq!['\t'] + hash + seq!['\t'] + place;
            &&& fields(line) == (kind, hash, place)
            &&& text::chomped(line) == line
            &&& text::without_return(line) == line
            &&& line.len() > 0
            &&& line[0] == kind[0]
            &&& !line.contains('\n')
        }),
{
    let line = kind + seq!['\t'] + hash + seq!['\t'] + place;
    let n = kind.len() as int;
    let m = hash.len() as int;
    assert(line.last() == place.last());
    assert(place[place.len() - 1] != '\n');
    assert forall|i: int| 0 <= i < n implies line[i] != '\t' by {
        assert(line[i] == kind[i]);
    }
    text::lemma_first_index_unique(line, '\t', n);
    let rest = line.skip(n + 1);
    assert(rest =~= hash + seq!['\t'] + place);
    assert forall|i: int| 0 <= i < m implies rest[i] != '\t' by {
        assert(rest[i] == hash[i]);
    }
    text::lemma_first_index_unique(rest, '\t', m);
    assert(line.take(n) =~= kind);
    assert(rest.take(m) =~= hash);
    assert(rest.skip(m + 1) =~= place);
    assert forall|i: int| 0 <= i < line.len() implies line[i] != '\n' by {
        if i < n {
            assert(line[i] == kind[i]);
        } else if i > n && i < n + 1 + m {
            assert(line[i] == hash[i - n - 1]);
        } else if i > n + 1 + m {
            assert(line[i] == place[i - n - m - 2]);
        }
    }
}

proof fn lemma_file_line(f: FileView)
    requires
        writable_file(f),
    ensures
        read_line(text::without_return(file_line(f))) == LineView::File(f),
        !file_line(f).contains('\n'),
{
    let shown = path::shown(f.path);
    reveal_strlit("file\t");
    reveal_strlit("\t");
    reveal_strlit("file");
    assert("file\t"@ =~= "file"@ + seq!['\t']);
    assert("\t"@ =~= seq!['\t']);
    assert(file_line(f) =~= "file"@ + seq!['\t'] + f.hash + seq!['\t'] + shown);
    lemma_fields("file"@, f.hash, shown);
    vstd::utf8::decode_utf8_encode_utf8(f.path);
}

proof fn lemma_dir_line(p: Seq<u8>)
    requires
        writable(p),
    ensures
        read_line(text::without_return(dir_line(p))) == LineView::Dir(p),
        !dir_line(p).contains('\n'),
{
    let shown = path::shown(p);
    reveal_strlit("dir\t-\t");
    reveal_strlit("dir");
    reveal_strlit("file");
    assert("dir\t-\t"@ =~= "dir"@ + seq!['\t'] + seq!['-'] + seq!['\t']);
    assert(dir_line(p) =~= "dir"@ + seq!['\t'] + seq!['-'] + seq!['\t'] + shown);
    assert("dir"@[0] != "file"@[0]);
    lemma_fields("dir"@, seq!['-'], shown);
    vstd::utf8::decode_utf8_encode_utf8(p);
}

proof fn lemma_absent_line(p: Seq<u8>)
    requires
        writable(p),
    ensures
        read_line(text::without_return(absent_line(p))) == LineView::Absent(p),
        !absent_line(p).contains('\n'),
{
    let shown = path::shown(p);
    reveal_strlit("absent\t-\t");
    reveal_strlit("absent");
    reveal_strlit("dir");
    reveal_strlit("file");
    assert("absent\t-\t"@ =~= "absent"@ + seq!['\t'] + seq!['-'] + seq!['\t']);
    assert(absent_line(p) =~= "absent"@ + seq!['\t'] + seq!['-'] + seq!['\t'] + shown);
    assert("absent"@[0] != "file"@[0]);
    assert("absent"@[0] != "dir"@[0]);
    lemma_fields("absent"@, seq!['-'], shown);
    vstd::utf8::decode_utf8_encode_utf8(p);
}

/// Lines as a reader sees them.
pub open spec fn as_read(lines: Seq<Seq<char>>) -> Seq<Seq<char>> {
    lines.map_values(|l: Seq<char>| text::without_return(l))
}

proof fn lemma_scan_push(lines: Seq<Seq<char>>, line: Seq<char>, s: ScanView)
    requires
        scan(as_read(lines)) == Ok::<ScanView, ErrorView>(s),
    ensures
        scan(as_read(lines.push(line))) == with_line(s, read_line(text::without_return(line))),
{
    let all = as_read(lines.push(line));
    assert(all =~= as_read(lines).push(text::without_return(line)));
    assert(all.drop_last() =~= as_read(lines));
}

proof fn lemma_scan_absent(lines: Seq<Seq<char>>, s: ScanView, absent: Seq<Seq<u8>>)
    requires
        scan(as_read(lines)) == Ok::<ScanView, ErrorView>(s),
        forall|i: int| 0 <= i < absent.len() ==> writable(#[trigger] absent[i]),
    ensures
        scan(as_read(lines + absent_lines(absent))) == Ok::<ScanView, ErrorView>(
            ScanView { absent: s.absent + absent, ..s },
        ),
    decreases absent.len(),
{
    if absent.len() == 0 {
        assert(lines + absent_lines(absent) =~= lines);
        assert(s.absent + absent =~= s.absent);
    } else {
        let init = absent.drop_last();
        assert forall|i: int| 0 <= i < init.len() implies writable(#[trigger] init[i]) by {
            assert(init[i] == absent[i]);
        }
        lemma_scan_absent(lines, s, init);
        let p = absent[absent.len() - 1];
        assert(writable(p));
        lemma_absent_line(p);
        let done = lines + absent_lines(init);
        let t = ScanView { absent: s.absent + init, ..s };
        lemma_scan_push(done, absent_line(p), t);
        assert(lines + absent_lines(absent) =~= done.push(absent_line(p)));
        assert((s.absent + init).push(p) =~= s.absent + absent);
    }
}

proof fn lemma_scan_files(lines: Seq<Seq<char>>, s: ScanView, files: Seq<FileView>)
    requires
        scan(as_read(lines)) == Ok::<ScanView, ErrorView>(s),
        forall|i: int| 0 <= i < files.len() ==> writable_file(#[trigger] files[i]),
    ensures
        scan(as_read(lines + file_lines(files))) == Ok::<ScanView, ErrorView>(
            ScanView { files: s.files + files, ..s },
        ),
    decreases files.len(),
{
    if files.len() == 0 {
        assert(lines + file_lines(files) =~= lines);
        assert(s.files + files =~= s.files);
    } else {
        let init = files.drop_last();
        assert forall|i: int| 0 <= i < init.len() implies writable_file(#[trigger] init[i]) by {
            assert(init[i] == files[i]);
        }
        lemma_scan_files(lines, s, init);
        let f = files[files.len() - 1];
        assert(writable_file(f));
        lemma_file_line(f);
        let done = lines + file_lines(init);
        let t = ScanView { files: s.files + init, ..s };
        lemma_scan_push(done, file_line(f), t);
        assert(lines + file_lines(files) =~= done.push(file_line(f)));
        assert((s.files + init).push(f) =~= s.files + files);
    }
}

/// The files of all directories.
pub open spec fn inner_files(dirs: Seq<DirView>) -> Seq<FileView>
    decreases dirs.len(),
{
    if dirs.len() == 0 {
        Seq::empty()
    } else {
        inner_files(dirs.drop_last()) + dirs.last().files
    }
}

/// The paths of directories.
pub open spec fn dir_paths(dirs: Seq<DirView>) -> Seq<Seq<u8>> {
    dirs.map_values(|d: DirView| d.path)
}

proof fn lemma_scan_dirs(lines: Seq<Seq<char>>, s: ScanView, dirs: Seq<DirView>)
    requires
        scan(as_read(lines)) == Ok::<ScanView, ErrorView>(s),
        forall|i: int| 0 <= i < dirs.len() ==> writable((#[trigger] dirs[i]).path),
        forall|i: int, j: int|
            #![trigger dirs[i].files[j]]
            0 <= i < dirs.len() && 0 <= j < dirs[i].files.len() ==> writable_file(dirs[i].files[j]),
    ensures
        scan(as_read(lines + dir_lines(dirs))) == Ok::<ScanView, ErrorView>(
            ScanView {
                files: s.files + inner_files(dirs),
                dirs: s.dirs + dir_paths(dirs),
                ..s
            },
        ),
    decreases dirs.len(),
{
    if dirs.len() == 0 {
        assert(lines + dir_lines(dirs) =~= lines);
        assert(s.files + inner_files(dirs) =~= s.files);
        assert(s.dirs + dir_paths(dirs) =~= s.dirs);
    } else {
        let init = dirs.drop_last();
        let n = dirs.len() - 1;
        let d = dirs[n];
        assert forall|i: int| 0 <= i < init.len() implies writable((#[trigger] init[i]).path) by {
            assert(init[i] == dirs[i]);
        }
        assert forall|i: int, j: int|
            #![trigger init[i].files[j]]
            0 <= i < init.len() && 0 <= j < init[i].files.len() implies writable_file(
            init[i].files[j],
        ) by {
            assert(init[i].files[j] == dirs[i].files[j]);
        }
        lemma_scan_dirs(lines, s, init);
        let t = ScanView {
            files: s.files + inner_files(init),
            dirs: s.dirs + dir_paths(init),
            ..s
        };
        let done = lines + dir_lines(init);
        assert(writable(d.path));
        lemma_dir_line(d.path);
        lemma_scan_push(done, dir_line(d.path), t);
        let u = ScanView { dirs: t.dirs.push(d.path), ..t };
        assert forall|j: int| 0 <= j < d.files.len() implies writable_file(
            #[trigger] d.files[j],
        ) by {
            assert(dirs[n].files[j] == d.files[j]);
        }
        lemma_scan_files(done.push(dir_line(d.path)), u, d.files);
        assert(lines + dir_lines(dirs) =~= done.push(dir_line(d.path)) + file_lines(d.files));
        assert(u.files + d.files =~= s.files + inner_files(dirs));
        assert(u.dirs =~= s.dirs + dir_paths(dirs));
    }
}

/// What the text of a baseline says.
proof fn lemma_scan_baseline(b: BaselineView, user: Seq<char>)
    requires
        restorable(b),
        b.plain(),
        !user.contains('\n'),
    ensures
        scan(text::line_seq(line_text(baseline_lines(b, user)))) == Ok::<ScanView, ErrorView>(
            ScanView {
                files: b.files + inner_files(b.dirs),
                dirs: dir_paths(b.dirs),
                absent: b.absent,
            },
        ),
{
    let all = baseline_lines(b, user);
    let head = comment_lines(user);
    assert forall|i: int| 0 <= i < b.files.len() implies writable_file(#[trigger] b.files[i]) by {
        assert(b.files.contains(b.files[i]));
    }
    assert forall|i: int, j: int|
        #![trigger b.dirs[i].files[j]]
        0 <= i < b.dirs.len() && 0 <= j < b.dirs[i].files.len() implies writable_file(
        b.dirs[i].files[j],
    ) by {
        assert(b.dirs.contains(b.dirs[i]) && b.dirs[i].files.contains(b.dirs[i].files[j]));
    }
    let none = ScanView { files: Seq::empty(), dirs: Seq::empty(), absent: Seq::empty() };
    let first = "# envvault config-integrity baseline for user "@ + user;
    let second =
        "# fields: <kind>\\t<blake3-hex|->\\t<path> — managed by `envvault baseline set`; do not edit"@;
    reveal_strlit("# envvault config-integrity baseline for user ");
    reveal_strlit(
        "# fields: <kind>\\t<blake3-hex|->\\t<path> — managed by `envvault baseline set`; do not edit",
    );
    assert(first[0] == '#');
    assert(!first.contains('\n')) by {
        let w = "# envvault config-integrity baseline for user "@;
        assert forall|i: int| 0 <= i < first.len() implies first[i] != '\n' by {
            if i >= w.len() {
                assert(first[i] == user[i - w.len()]);
            }
        }
    }
    assert(!second.contains('\n'));
    lemma_comment(first);
    lemma_comment(second);
    let nothing = Seq::<Seq<char>>::empty();
    assert(as_read(nothing) =~= nothing);
    lemma_scan_push(nothing, first, none);
    lemma_scan_push(nothing.push(first), second, none);
    assert(head =~= nothing.push(first).push(second));
    lemma_scan_absent(head, none, b.absent);
    let s1 = ScanView { absent: none.absent + b.absent, ..none };
    lemma_scan_files(head + absent_lines(b.absent), s1, b.files);
    let s2 = ScanView { files: s1.files + b.files, ..s1 };
    lemma_scan_dirs(head + absent_lines(b.absent) + file_lines(b.files), s2, b.dirs);
    assert(none.absent + b.absent =~= b.absent);
    assert(s2.files + inner_files(b.dirs) =~= b.files + inner_files(b.dirs));
    assert(s2.dirs + dir_paths(b.dirs) =~= dir_paths(b.dirs));
    assert forall|i: int| 0 <= i < all.len() implies !(#[trigger] all[i]).contains('\n') by {
        let a = b.absent.len() as int;
        let f = b.files.len() as int;
        if i < 2 {
            assert(all[i] == head[i]);
        } else if i < 2 + a {
            assert(writable(b.absent[i - 2]));
            lemma_absent_line(b.absent[i - 2]);
            assert(all[i] == absent_line(b.absent[i - 2]));
        } else if i < 2 + a + f {
            assert(writable_file(b.files[i - 2 - a]));
            lemma_file_line(b.files[i - 2 - a]);
            assert(all[i] == file_line(b.files[i - 2 - a]));
        } else {
            lemma_dir_lines_flat(b.dirs);
            assert(all[i] == dir_lines(b.dirs)[i - 2 - a - f]);
        }
    }
    lemma_line_text(all);
}

proof fn lemma_comment(line: Seq<char>)
    requires
        line.len() > 0,
        line[0] == '#',
    ensures
        read_line(text::without_return(line)) == LineView::Nothing,
{
    let l = text::without_return(line);
    lemma_chomped_start(l);
}

/// Chomping keeps the first character of a comment.
proof fn lemma_chomped_start(line: Seq<char>)
    requires
        line.len() > 0 ==> line[0] == '#',
    ensures
        text::chomped(line).len() > 0 ==> text::chomped(line)[0] == '#',
    decreases line.len(),
{
    if line.len() > 0 && (line.last() == '\r' || line.last() == '\n') {
        lemma_chomped_start(line.drop_last());
    }
}

proof fn lemma_dir_lines_flat(dirs: Seq<DirView>)
    requires
        forall|i: int| 0 <= i < dirs.len() ==> writable((#[trigger] dirs[i]).path),
        forall|i: int, j: int|
            #![trigger dirs[i].files[j]]
            0 <= i < dirs.len() && 0 <= j < dirs[i].files.len() ==> writable_file(dirs[i].files[j]),
    ensures
        forall|i: int|
            0 <= i < dir_lines(dirs).len() ==> !(#[trigger] dir_lines(dirs)[i]).contains('\n'),
    decreases dirs.len(),
{
    if dirs.len() > 0 {
        let init = dirs.drop_last();
        let n = dirs.len() - 1;
        let d = dirs[n];
        assert forall|i: int| 0 <= i < init.len() implies writable((#[trigger] init[i]).path) by {
            assert(init[i] == dirs[i]);
        }
        assert forall|i: int, j: int|
            #![trigger init[i].files[j]]
            0 <= i < init.len() && 0 <= j < init[i].files.len() implies writable_file(
            init[i].files[j],
        ) by {
            assert(init[i].files[j] == dirs[i].files[j]);
        }
        lemma_dir_lines_flat(init);
        assert(writable(d.path));
        lemma_dir_line(d.path);
        let all = dir_lines(dirs);
        let before = dir_lines(init);
        let m = before.len() as int;
        assert forall|i: int| 0 <= i < all.len() implies !(#[trigger] all[i]).contains('\n') by {
            if i < m {
                assert(all[i] == before[i]);
            } else if i == m {
                assert(all[i] == dir_line(d.path));
            } else {
                assert(dirs[n].files[i - m - 1] == d.files[i - m - 1]);
                lemma_file_line(d.files[i - m - 1]);
                assert(all[i] == file_line(d.files[i - m - 1]));
            }
        }
    }
}

proof fn lemma_owned_concat(a: Seq<FileView>, b: Seq<FileView>, dirs: Seq<Seq<u8>>, i: int)
    ensures
        owned(a + b, dirs, i) == owned(a, dirs, i) + owned(b, dirs, i),
    decreases b.len(),
{
    if b.len() == 0 {
        assert(a + b =~= a);
        assert(owned(a, dirs, i) + owned(b, dirs, i) =~= owned(a, dirs, i));
    } else {
        lemma_owned_concat(a, b.drop_last(), dirs, i);
        assert((a + b).drop_last() =~= a + b.drop_last());
        assert((a + b).last() == b.last());
        assert(owned(a + b, dirs, i) =~= owned(a, dirs, i) + owned(b, dirs, i));
    }
}

/// Files that all have one owner are owned by it alone.
proof fn lemma_owned_alike(files: Seq<FileView>, dirs: Seq<Seq<u8>>, o: int, i: int)
    requires
        forall|k: int| 0 <= k < files.len() ==> owner(dirs, (#[trigger] files[k]).path) == o,
    ensures
        owned(files, dirs, i) == (if i == o {
            files
        } else {
            Seq::<FileView>::empty()
        }),
    decreases files.len(),
{
    if files.len() > 0 {
        let init = files.drop_last();
        assert forall|k: int| 0 <= k < init.len() implies owner(dirs, (#[trigger] init[k]).path)
            == o by {
            assert(init[k] == files[k]);
        }
        lemma_owned_alike(init, dirs, o, i);
        assert(owner(dirs, files[files.len() - 1].path) == o);
        assert(init.push(files.last()) =~= files);
    }
}

/// An item at two places of a list is at two places of any list with the same
/// items.
proof fn lemma_twice(a: Seq<Seq<u8>>, b: Seq<Seq<u8>>, i: int, j: int) -> (r: (int, int))
    requires
        a.to_multiset() == b.to_multiset(),
        0 <= i < j < a.len(),
        a[i] == a[j],
    ensures
        0 <= r.0 < b.len(),
        0 <= r.1 < b.len(),
        r.0 != r.1,
        b[r.0] == a[i],
        b[r.1] == a[i],
{
    broadcast use vstd::seq_lib::group_to_multiset_ensures;

    let x = a[i];
    let a1 = a.remove(j);
    assert(a1[i] == x);
    assert(a1.contains(x));
    assert(a1.to_multiset().count(x) > 0);
    assert(a.to_multiset().contains(x)) by {
        assert(a.contains(x));
    }
    assert(a.to_multiset().count(x) >= 2);
    assert(b.contains(x));
    let k = choose|k: int| 0 <= k < b.len() && b[k] == x;
    let b1 = b.remove(k);
    assert(b1.to_multiset().count(x) > 0);
    assert(b1.contains(x));
    let l = choose|l: int| 0 <= l < b1.len() && b1[l] == x;
    if l < k {
        assert(b[l] == x);
        (k, l)
    } else {
        assert(b[l + 1] == x);
        (k, l + 1)
    }
}

/// Each file of a directory is owned by the directory with that path.
proof fn lemma_inner_owner(b: BaselineView, sorted: Seq<Seq<u8>>, k: int, j: int, i: int)
    requires
        restorable(b),
        sorted == order::sorted::<Declared>(dir_paths(b.dirs)),
        0 <= k < b.dirs.len(),
        0 <= j < b.dirs[k].files.len(),
        0 <= i < sorted.len(),
        sorted[i] == b.dirs[k].path,
    ensures
        owner(sorted, b.dirs[k].files[j].path) == i,
{
    let paths = dir_paths(b.dirs);
    let f = b.dirs[k].files[j];
    let o = owner(sorted, f.path);
    order::law_sorted::<Declared>(paths);
    assert(sorted[o] == sorted[i]);
    if o != i {
        let (x, y) = if o < i {
            lemma_twice(sorted, paths, o, i)
        } else {
            lemma_twice(sorted, paths, i, o)
        };
        let other = if x == k {
            y
        } else {
            x
        };
        assert(paths[other] == b.dirs[other].path);
        assert(b.dirs[k].path == b.dirs[other].path);
    }
}

/// What a directory owns of the files of the first `n` directories.
proof fn lemma_inner_owned(b: BaselineView, sorted: Seq<Seq<u8>>, n: int, k: int, i: int)
    requires
        restorable(b),
        sorted == order::sorted::<Declared>(dir_paths(b.dirs)),
        0 <= n <= b.dirs.len(),
        0 <= i <= sorted.len(),
        i < sorted.len() ==> 0 <= k < b.dirs.len() && sorted[i] == b.dirs[k].path,
    ensures
        i == sorted.len() ==> owned(inner_files(b.dirs.take(n)), sorted, i) == Seq::<
            FileView,
        >::empty(),
        i < sorted.len() ==> owned(inner_files(b.dirs.take(n)), sorted, i) == (if k < n {
            b.dirs[k].files
        } else {
            Seq::<FileView>::empty()
        }),
    decreases n,
{
    if n > 0 {
        let t = b.dirs.take(n);
        let d = b.dirs[n - 1];
        assert(t.drop_last() =~= b.dirs.take(n - 1));
        assert(t.last() == d);
        lemma_inner_owned(b, sorted, n - 1, k, i);
        lemma_owned_concat(inner_files(b.dirs.take(n - 1)), d.files, sorted, i);
        let paths = dir_paths(b.dirs);
        assert(paths[n - 1] == d.path);
        assert(paths.contains(d.path));
        super::verifying::lemma_sorted_contains::<Declared>(paths, d.path);
        let o = choose|o: int| 0 <= o < sorted.len() && sorted[o] == d.path;
        assert forall|j: int| 0 <= j < d.files.len() implies owner(
            sorted,
            (#[trigger] d.files[j]).path,
        ) == o by {
            lemma_inner_owner(b, sorted, n - 1, j, o);
        }
        lemma_owned_alike(d.files, sorted, o, i);
        if i < sorted.len() && d.files.len() > 0 {
            if k == n - 1 {
                lemma_inner_owner(b, sorted, n - 1, 0, i);
                lemma_inner_owner(b, sorted, n - 1, 0, o);
            } else if o == i {
                assert(b.dirs[n - 1].path == b.dirs[k].path);
            }
        }
        assert(owned(inner_files(t), sorted, i) =~= (if i < sorted.len() && k < n {
            b.dirs[k].files
        } else {
            Seq::<FileView>::empty()
        }));
    }
}

/// How many files the first `n` directories own.
spec fn owned_total(files: Seq<FileView>, dirs: Seq<Seq<u8>>, n: nat) -> nat
    decreases n,
{
    if n == 0 {
        0
    } else {
        owned_total(files, dirs, (n - 1) as nat) + owned(files, dirs, n - 1).len()
    }
}

proof fn lemma_owned_total_push(files: Seq<FileView>, dirs: Seq<Seq<u8>>, n: nat)
    requires
        files.len() > 0,
    ensures
        ({
            let o = owner(dirs, files.last().path);
            owned_total(files, dirs, n) == owned_total(files.drop_last(), dirs, n) + (if 0 <= o < n {
                1nat
            } else {
                0nat
            })
        }),
    decreases n,
{
    if n > 0 {
        lemma_owned_total_push(files, dirs, (n - 1) as nat);
    }
}

proof fn lemma_owner_range(dirs: Seq<Seq<u8>>, p: Seq<u8>)
    ensures
        0 <= owner(dirs, p) <= dirs.len(),
    decreases dirs.len(),
{
    if dirs.len() > 0 && !path::below(p, dirs[0]) {
        lemma_owner_range(dirs.skip(1), p);
    }
}

/// Every file has one owner.
proof fn lemma_owned_total(files: Seq<FileView>, dirs: Seq<Seq<u8>>)
    ensures
        owned_total(files, dirs, dirs.len() + 1) == files.len(),
    decreases files.len(),
{
    if files.len() > 0 {
        lemma_owned_total(files.drop_last(), dirs);
        lemma_owned_total_push(files, dirs, dirs.len() + 1);
        lemma_owner_range(dirs, files.last().path);
    } else {
        lemma_none_owned(files, dirs, dirs.len() + 1);
    }
}

proof fn lemma_none_owned(files: Seq<FileView>, dirs: Seq<Seq<u8>>, n: nat)
    requires
        files.len() == 0,
    ensures
        owned_total(files, dirs, n) == 0,
    decreases n,
{
    if n > 0 {
        lemma_none_owned(files, dirs, (n - 1) as nat);
    }
}

proof fn lemma_groups_total(groups: Seq<DirView>, files: Seq<FileView>, dirs: Seq<Seq<u8>>)
    requires
        forall|i: int|
            0 <= i < groups.len() ==> (#[trigger] groups[i]).files == owned(files, dirs, i),
    ensures
        super::dir_total(groups) == owned_total(files, dirs, groups.len()),
    decreases groups.len(),
{
    if groups.len() > 0 {
        let init = groups.drop_last();
        assert forall|i: int| 0 <= i < init.len() implies (#[trigger] init[i]).files == owned(
            files,
            dirs,
            i,
        ) by {
            assert(init[i] == groups[i]);
        }
        lemma_groups_total(init, files, dirs);
        assert(groups[groups.len() - 1].files == owned(files, dirs, groups.len() - 1));
    }
}

proof fn lemma_inner_total(dirs: Seq<DirView>)
    ensures
        inner_files(dirs).len() == super::dir_total(dirs),
    decreases dirs.len(),
{
    if dirs.len() > 0 {
        lemma_inner_total(dirs.drop_last());
    }
}

/// Reading loses no entry: a baseline has as many as its file has lines for
/// files and absent paths.
pub proof fn law_every_line_counts(text: Seq<char>)
    requires
        parsed(text) is Ok,
    ensures
        ({
            let s = scan(text::line_seq(text))->Ok_0;
            parsed(text)->Ok_0.total() == s.files.len() + s.absent.len()
        }),
{
    let s = scan(text::line_seq(text))->Ok_0;
    let b = grouped(s);
    let dirs = order::sorted::<Declared>(s.dirs);
    lemma_groups_total(b.dirs, s.files, dirs);
    lemma_owned_total(s.files, dirs);
}

/// A baseline's text gives the baseline back: the same absent paths, the same
/// standalone files, and the same directories with the same files, by falling
/// length of their paths.
pub proof fn law_parse_serialized(b: BaselineView, user: Seq<char>)
    requires
        restorable(b),
        b.plain(),
        !user.contains('\n'),
    ensures
        parsed(line_text(baseline_lines(b, user))) is Ok,
        ({
            let r = parsed(line_text(baseline_lines(b, user)))->Ok_0;
            &&& r.absent == b.absent
            &&& r.files == b.files
            &&& r.total() == b.total()
            &&& dir_paths(r.dirs) == order::sorted::<Declared>(dir_paths(b.dirs))
            &&& forall|i: int, k: int|
                #![trigger r.dirs[i], b.dirs[k]]
                0 <= i < r.dirs.len() && 0 <= k < b.dirs.len() && r.dirs[i].path == b.dirs[k].path
                    ==> r.dirs[i].files == b.dirs[k].files
        }),
{
    lemma_scan_baseline(b, user);
    law_every_line_counts(line_text(baseline_lines(b, user)));
    lemma_inner_total(b.dirs);
    let paths = dir_paths(b.dirs);
    let sorted = order::sorted::<Declared>(paths);
    let inner = inner_files(b.dirs);
    let r = parsed(line_text(baseline_lines(b, user)))->Ok_0;
    order::law_sorted::<Declared>(paths);
    assert(b.dirs.take(b.dirs.len() as int) =~= b.dirs);
    assert forall|i: int| 0 <= i <= sorted.len() implies #[trigger] owned(
        b.files + inner,
        sorted,
        i,
    ) == (if i == sorted.len() {
        b.files
    } else {
        owned(inner, sorted, i)
    }) by {
        lemma_owned_concat(b.files, inner, sorted, i);
        lemma_owned_alike(b.files, sorted, sorted.len() as int, i);
        if i == sorted.len() {
            lemma_inner_owned(b, sorted, b.dirs.len() as int, 0, i);
        }
        assert(owned(b.files + inner, sorted, i) =~= (if i == sorted.len() {
            b.files
        } else {
            owned(inner, sorted, i)
        }));
    }
    assert(r.files == owned(b.files + inner, sorted, sorted.len() as int));
    assert(dir_paths(r.dirs) =~= sorted);
    assert forall|i: int, k: int|
        #![trigger r.dirs[i], b.dirs[k]]
        0 <= i < r.dirs.len() && 0 <= k < b.dirs.len() && r.dirs[i].path
            == b.dirs[k].path implies r.dirs[i].files == b.dirs[k].files by {
        lemma_inner_owned(b, sorted, b.dirs.len() as int, k, i);
        assert(r.dirs[i].files == owned(b.files + inner, sorted, i));
    }
}

/// Whether the tracked places stand apart: no directory holds another or a
/// standalone file, each directory holds its files, and every path can be
/// written.
pub open spec fn separate(b: BaselineView) -> bool {
    &&& forall|i: int| 0 <= i < b.absent.len() ==> writable(#[trigger] b.absent[i])
    &&& forall|i: int| 0 <= i < b.files.len() ==> writable((#[trigger] b.files[i]).path)
    &&& forall|i: int| 0 <= i < b.dirs.len() ==> writable((#[trigger] b.dirs[i]).path)
    &&& forall|i: int, j: int|
        #![trigger b.dirs[i].files[j]]
        0 <= i < b.dirs.len() && 0 <= j < b.dirs[i].files.len() ==> {
            &&& writable(b.dirs[i].files[j].path)
            &&& path::below(b.dirs[i].files[j].path, b.dirs[i].path)
        }
    &&& forall|i: int, k: int|
        #![trigger b.dirs[i], b.dirs[k]]
        0 <= i < b.dirs.len() && 0 <= k < b.dirs.len() && i != k ==> !path::below(
            b.dirs[i].path,
            b.dirs[k].path,
        )
    &&& forall|i: int, k: int|
        #![trigger b.files[i], b.dirs[k]]
        0 <= i < b.files.len() && 0 <= k < b.dirs.len() ==> !path::below(
            b.files[i].path,
            b.dirs[k].path,
        )
}

/// A place below two directories is below one of them that is below the other.
proof fn lemma_below_two(p: Seq<u8>, d: Seq<u8>, e: Seq<u8>)
    requires
        path::below(p, d),
        path::below(p, e),
    ensures
        path::below(d, e) || path::below(e, d),
{
    let s = path::steps(p);
    let a = path::steps(d);
    let b = path::steps(e);
    if a.len() <= b.len() {
        assert(b.take(a.len() as int) =~= s.take(b.len() as int).take(a.len() as int));
        assert(s.take(b.len() as int).take(a.len() as int) =~= s.take(a.len() as int));
    } else {
        assert(a.take(b.len() as int) =~= s.take(a.len() as int).take(b.len() as int));
        assert(s.take(a.len() as int).take(b.len() as int) =~= s.take(b.len() as int));
    }
}

/// The owner holds the file, and no directory before it does.
proof fn lemma_owner_found(dirs: Seq<Seq<u8>>, p: Seq<u8>)
    ensures
        owner(dirs, p) < dirs.len() ==> path::below(p, dirs[owner(dirs, p)]),
        forall|i: int| 0 <= i < owner(dirs, p) && i < dirs.len() ==> !path::below(p, #[trigger] dirs[i]),
    decreases dirs.len(),
{
    if dirs.len() > 0 && !path::below(p, dirs[0]) {
        let rest = dirs.skip(1);
        lemma_owner_found(rest, p);
        lemma_owner_range(rest, p);
        assert forall|i: int| 0 <= i < owner(dirs, p) && i < dirs.len() implies !path::below(
            p,
            #[trigger] dirs[i],
        ) by {
            if i > 0 {
                assert(rest[i - 1] == dirs[i]);
            }
        }
    }
}

/// A baseline of places that stand apart is given back by its text.
pub proof fn law_separate_is_restorable(b: BaselineView)
    requires
        separate(b),
    ensures
        restorable(b),
{
    let paths = dir_paths(b.dirs);
    let dirs = order::sorted::<Declared>(paths);
    order::law_sorted::<Declared>(paths);
    assert forall|o: int| 0 <= o < dirs.len() implies exists|k: int|
        0 <= k < b.dirs.len() && (#[trigger] b.dirs[k]).path == #[trigger] dirs[o] by {
        assert(dirs.contains(dirs[o]));
        super::verifying::lemma_sorted_contains::<Declared>(paths, dirs[o]);
        let k = paths.index_of(dirs[o]);
        assert(b.dirs[k].path == dirs[o]);
    }
    assert forall|i: int, j: int|
        #![trigger b.dirs[i].files[j]]
        0 <= i < b.dirs.len() && 0 <= j < b.dirs[i].files.len() implies {
        let o = owner(dirs, b.dirs[i].files[j].path);
        &&& writable(b.dirs[i].files[j].path)
        &&& 0 <= o < dirs.len()
        &&& dirs[o] == b.dirs[i].path
    } by {
        let p = b.dirs[i].files[j].path;
        assert(paths[i] == b.dirs[i].path);
        assert(paths.contains(b.dirs[i].path));
        super::verifying::lemma_sorted_contains::<Declared>(paths, b.dirs[i].path);
        let n = dirs.index_of(b.dirs[i].path);
        lemma_owner_range(dirs, p);
        lemma_owner_found(dirs, p);
        let o = owner(dirs, p);
        assert(path::below(p, dirs[n]));
        let k = choose|k: int| 0 <= k < b.dirs.len() && (#[trigger] b.dirs[k]).path == dirs[o];
        lemma_below_two(p, b.dirs[i].path, b.dirs[k].path);
        assert(i == k);
    }
    assert forall|i: int| 0 <= i < b.files.len() implies owner(dirs, (#[trigger] b.files[i]).path)
        == dirs.len() by {
        let p = b.files[i].path;
        lemma_owner_range(dirs, p);
        lemma_owner_found(dirs, p);
        let o = owner(dirs, p);
        if o < dirs.len() {
            let k = choose|k: int| 0 <= k < b.dirs.len() && (#[trigger] b.dirs[k]).path == dirs[o];
            assert(!path::below(p, b.dirs[k].path));
        }
    }
    assert forall|i: int, k: int|
        #![trigger b.dirs[i], b.dirs[k]]
        0 <= i < b.dirs.len() && 0 <= k < b.dirs.len() && i != k && b.dirs[i].path
            == b.dirs[k].path implies b.dirs[i].files.len() == 0 by {
        let s = path::steps(b.dirs[i].path);
        assert(s.take(s.len() as int) =~= s);
        assert(path::below(b.dirs[i].path, b.dirs[k].path));
    }
}

/// The path in a line can be written in a line again.
proof fn lemma_line_writable(raw: Seq<char>)
    requires
        !raw.contains('\n'),
    ensures
        match read_line(raw) {
            LineView::File(f) => writable(f.path),
            LineView::Dir(p) => writable(p),
            LineView::Absent(p) => writable(p),
            _ => true,
        },
{
    let line = text::chomped(raw);
    lemma_chomped_one_line(raw);
    lemma_chomped_end(raw);
    let place = fields(line).2;
    text::lemma_first_index(line, '\t');
    if place.len() > 0 {
        let n = text::first_index(line, '\t');
        let rest = line.skip(n + 1);
        let m = text::first_index(rest, '\t');
        text::lemma_first_index(rest, '\t');
        assert(place == rest.skip(m + 1));
        assert forall|i: int| 0 <= i < place.len() implies place[i] != '\n' by {
            assert(place[i] == line[i + n + m + 2]);
        }
        assert(place.last() == line.last());
        vstd::utf8::encode_utf8_valid_utf8(place);
        vstd::utf8::encode_utf8_decode_utf8(place);
    }
}

proof fn lemma_chomped_end(line: Seq<char>)
    ensures
        text::chomped(line).len() > 0 ==> text::chomped(line).last() != '\r',
    decreases line.len(),
{
    if line.len() > 0 && (line.last() == '\r' || line.last() == '\n') {
        lemma_chomped_end(line.drop_last());
    }
}

/// The paths in a list of lines can be written in lines again.
proof fn lemma_scan_writable(lines: Seq<Seq<char>>)
    requires
        forall|i: int| 0 <= i < lines.len() ==> !(#[trigger] lines[i]).contains('\n'),
    ensures
        scan(lines) matches Ok(s) ==> {
            &&& forall|i: int| 0 <= i < s.files.len() ==> writable((#[trigger] s.files[i]).path)
            &&& forall|i: int| 0 <= i < s.dirs.len() ==> writable(#[trigger] s.dirs[i])
            &&& forall|i: int| 0 <= i < s.absent.len() ==> writable(#[trigger] s.absent[i])
        },
    decreases lines.len(),
{
    if lines.len() > 0 {
        let init = lines.drop_last();
        assert forall|i: int| 0 <= i < init.len() implies !(#[trigger] init[i]).contains('\n') by {
            assert(init[i] == lines[i]);
        }
        lemma_scan_writable(init);
        assert(!lines[lines.len() - 1].contains('\n'));
        lemma_line_writable(lines.last());
        if let Ok(s) = scan(init) {
            if let Ok(t) = scan(lines) {
                assert forall|i: int| 0 <= i < t.files.len() implies writable(
                    (#[trigger] t.files[i]).path,
                ) by {
                    if i < s.files.len() {
                        assert(t.files[i] == s.files[i]);
                    }
                }
                assert forall|i: int| 0 <= i < t.dirs.len() implies writable(
                    #[trigger] t.dirs[i],
                ) by {
                    if i < s.dirs.len() {
                        assert(t.dirs[i] == s.dirs[i]);
                    }
                }
                assert forall|i: int| 0 <= i < t.absent.len() implies writable(
                    #[trigger] t.absent[i],
                ) by {
                    if i < s.absent.len() {
                        assert(t.absent[i] == s.absent[i]);
                    }
                }
            }
        }
    }
}

/// What a directory owns has that directory as its owner.
proof fn lemma_owned_owner(files: Seq<FileView>, dirs: Seq<Seq<u8>>, i: int, j: int)
    requires
        0 <= j < owned(files, dirs, i).len(),
    ensures
        owner(dirs, owned(files, dirs, i)[j].path) == i,
    decreases files.len(),
{
    if files.len() > 0 {
        let rest = owned(files.drop_last(), dirs, i);
        if j < rest.len() {
            lemma_owned_owner(files.drop_last(), dirs, i, j);
        }
    }
}

/// A baseline that was read, and names no directory twice, is given back when it
/// is written and read again.
pub proof fn law_read_baseline_is_restorable(text: Seq<char>)
    requires
        parsed(text) is Ok,
        dir_paths(parsed(text)->Ok_0.dirs).no_duplicates(),
    ensures
        restorable(parsed(text)->Ok_0),
        parsed(text)->Ok_0.plain(),
{
    let lines = text::line_seq(text);
    let s = scan(lines)->Ok_0;
    let b = grouped(s);
    let dirs = order::sorted::<Declared>(s.dirs);
    text::lemma_lines_are_lines(text);
    lemma_scan_writable(lines);
    lemma_scan_plain(lines);
    lemma_grouped_plain(s);
    order::law_sorted::<Declared>(s.dirs);
    assert(dir_paths(b.dirs) =~= dirs);
    order::lemma_sorted_id::<Declared>(dirs);
    assert forall|i: int| 0 <= i < b.files.len() implies writable((#[trigger] b.files[i]).path)
        && owner(dirs, b.files[i].path) == dirs.len() by {
        lemma_owned_owner(s.files, dirs, dirs.len() as int, i);
        assert(b.files.contains(b.files[i]));
        lemma_owned_among(s.files, dirs, dirs.len() as int, b.files[i]);
        assert(s.files[s.files.index_of(b.files[i])] == b.files[i]);
    }
    assert forall|i: int| 0 <= i < b.dirs.len() implies writable((#[trigger] b.dirs[i]).path) by {
        assert(dirs.contains(dirs[i]));
        super::verifying::lemma_sorted_contains::<Declared>(s.dirs, dirs[i]);
        assert(s.dirs[s.dirs.index_of(dirs[i])] == dirs[i]);
    }
    assert forall|i: int, j: int|
        #![trigger b.dirs[i].files[j]]
        0 <= i < b.dirs.len() && 0 <= j < b.dirs[i].files.len() implies {
        let o = owner(dirs, b.dirs[i].files[j].path);
        &&& writable(b.dirs[i].files[j].path)
        &&& 0 <= o < dirs.len()
        &&& dirs[o] == b.dirs[i].path
    } by {
        let f = b.dirs[i].files[j];
        lemma_owned_owner(s.files, dirs, i, j);
        assert(b.dirs[i].files.contains(f));
        lemma_owned_among(s.files, dirs, i, f);
        assert(s.files[s.files.index_of(f)] == f);
    }
    assert forall|i: int, k: int|
        #![trigger b.dirs[i], b.dirs[k]]
        0 <= i < b.dirs.len() && 0 <= k < b.dirs.len() && i != k && b.dirs[i].path
            == b.dirs[k].path implies b.dirs[i].files.len() == 0 by {
        assert(dir_paths(b.dirs)[i] == dir_paths(b.dirs)[k]);
    }
}

/// A line is a kind, a hash and a path between tabs, the path being all that is left:
/// it stands for a file with its hash, a directory or an absent path, and any other
/// kind is refused by its name. Line ends behind it do not count.
pub proof fn law_entry_lines_are_read(
    kind: Seq<char>,
    hash: Seq<char>,
    place: Seq<char>,
    ending: Seq<char>,
)
    requires
        kind.len() > 0,
        kind[0] != '#',
        !kind.contains('\t'),
        !kind.contains('\n'),
        !hash.contains('\t'),
        !hash.contains('\n'),
        place.len() > 0,
        place.last() != '\r',
        !place.contains('\n'),
        forall|i: int| 0 <= i < ending.len() ==> #[trigger] ending[i] == '\r' || ending[i] == '\n',
    ensures
        ({
            let p = vstd::utf8::encode_utf8(place);
            let r = read_line(kind + seq!['\t'] + hash + seq!['\t'] + place + ending);
            let is_file = kind == seq!['f', 'i', 'l', 'e'];
            let is_dir = kind == seq!['d', 'i', 'r'];
            let is_absent = kind == seq!['a', 'b', 's', 'e', 'n', 't'];
            &&& is_file ==> r == LineView::File(FileView { path: p, hash })
            &&& is_dir ==> r == LineView::Dir(p)
            &&& is_absent ==> r == LineView::Absent(p)
            &&& !is_file && !is_dir && !is_absent ==> r == LineView::Bad(
                ErrorView::UnknownKind(kind),
            )
        }),
{
    let line = kind + seq!['\t'] + hash + seq!['\t'] + place;
    lemma_fields(kind, hash, place);
    assert(line.last() == place.last());
    assert(place[place.len() - 1] != '\n');
    text::law_chomping(line, ending);
    reveal_strlit("file");
    reveal_strlit("dir");
    reveal_strlit("absent");
    assert("file"@ =~= seq!['f', 'i', 'l', 'e']);
    assert("dir"@ =~= seq!['d', 'i', 'r']);
    assert("absent"@ =~= seq!['a', 'b', 's', 'e', 'n', 't']);
    assert("file"@.len() == 4 && "dir"@.len() == 3 && "absent"@.len() == 6);
}

/// Empty lines and comments say nothing, and a line without two tabs, or with nothing
/// behind the second, is malformed.
pub proof fn law_other_lines_are_told_apart(
    line: Seq<char>,
    hash: Seq<char>,
    ending: Seq<char>,
)
    requires
        line.len() > 0 ==> line.last() != '\r' && line.last() != '\n',
        !line.contains('\t'),
        !hash.contains('\t'),
        hash.len() > 0 ==> hash.last() != '\r' && hash.last() != '\n',
        forall|i: int| 0 <= i < ending.len() ==> #[trigger] ending[i] == '\r' || ending[i] == '\n',
    ensures
        ({
            let one = line + seq!['\t'] + hash;
            let two = one + seq!['\t'];
            &&& line.len() == 0 || line[0] == '#' ==> read_line(line + ending) is Nothing
            &&& line.len() > 0 && line[0] == '#' ==> read_line(one + ending) is Nothing
            &&& line.len() > 0 && line[0] != '#' ==> read_line(line + ending) == LineView::Bad(
                ErrorView::Malformed(line),
            )
            &&& line.len() > 0 && line[0] != '#' ==> read_line(one + ending) == LineView::Bad(
                ErrorView::Malformed(one),
            )
            &&& line.len() > 0 && line[0] != '#' ==> read_line(two + ending) == LineView::Bad(
                ErrorView::Malformed(two),
            )
        }),
{
    let one = line + seq!['\t'] + hash;
    let two = one + seq!['\t'];
    let n = line.len() as int;
    text::law_chomping(line, ending);
    assert(one.last() != '\r' && one.last() != '\n') by {
        if hash.len() > 0 {
            assert(one.last() == hash.last());
        } else {
            assert(one.last() == '\t');
        }
    }
    text::law_chomping(one, ending);
    assert(two.last() == '\t');
    text::law_chomping(two, ending);
    text::lemma_first_index(line, '\t');
    if text::first_index(line, '\t') < line.len() {
        assert(line[text::first_index(line, '\t')] == '\t');
    }
    assert forall|i: int| 0 <= i < n implies one[i] != '\t' && two[i] != '\t' by {
        assert(one[i] == line[i] && two[i] == line[i]);
    }
    text::lemma_first_index_unique(one, '\t', n);
    text::lemma_first_index_unique(two, '\t', n);
    assert(one.skip(n + 1) =~= hash);
    assert(two.skip(n + 1) =~= hash + seq!['\t']);
    text::lemma_first_index(hash, '\t');
    if text::first_index(hash, '\t') < hash.len() {
        assert(hash[text::first_index(hash, '\t')] == '\t');
    }
    let rest = hash + seq!['\t'];
    assert forall|i: int| 0 <= i < hash.len() implies rest[i] != '\t' by {
        assert(rest[i] == hash[i]);
    }
    text::lemma_first_index_unique(rest, '\t', hash.len() as int);
    assert(rest.skip(hash.len() + 1int) =~= Seq::<char>::empty());
    if line.len() > 0 {
        assert(one[0] == line[0] && two[0] == line[0]);
    }
}

/// A file of two parts says what each says, in order, and the first line that is
/// refused is the one that is told.
pub proof fn law_lines_say_it_in_order(a: Seq<Seq<char>>, b: Seq<Seq<char>>, line: Seq<char>)
    ensures
        scan(a) matches Err(e) ==> scan(a + b) == Err::<ScanView, ErrorView>(e),
        scan(a) is Ok ==> (scan(b) matches Err(e) ==> scan(a + b) == Err::<ScanView, ErrorView>(e)),
        scan(a) matches Ok(x) ==> (scan(b) matches Ok(y) ==> scan(a + b) == Ok::<
            ScanView,
            ErrorView,
        >(
            ScanView {
                files: x.files + y.files,
                dirs: x.dirs + y.dirs,
                absent: x.absent + y.absent,
            },
        )),
        ({
            let none = ScanView { files: Seq::empty(), dirs: Seq::empty(), absent: Seq::empty() };
            match read_line(line) {
                LineView::Bad(e) => scan(seq![line]) == Err::<ScanView, ErrorView>(e),
                LineView::Nothing => scan(seq![line]) == Ok::<ScanView, ErrorView>(none),
                LineView::File(f) => scan(seq![line]) == Ok::<ScanView, ErrorView>(
                    (ScanView { files: seq![f], ..none }),
                ),
                LineView::Dir(d) => scan(seq![line]) == Ok::<ScanView, ErrorView>(
                    (ScanView { dirs: seq![d], ..none }),
                ),
                LineView::Absent(p) => scan(seq![line]) == Ok::<ScanView, ErrorView>(
                    (ScanView { absent: seq![p], ..none }),
                ),
            }
        }),
    decreases b.len(),
{
    let none = ScanView { files: Seq::empty(), dirs: Seq::empty(), absent: Seq::empty() };
    assert(seq![line].drop_last() =~= Seq::<Seq<char>>::empty());
    assert(scan(Seq::<Seq<char>>::empty()) == Ok::<ScanView, ErrorView>(none));
    assert(scan(seq![line]) == with_line(none, read_line(line)));
    match read_line(line) {
        LineView::File(f) => {
            assert(none.files.push(f) =~= seq![f]);
        },
        LineView::Dir(d) => {
            assert(none.dirs.push(d) =~= seq![d]);
        },
        LineView::Absent(p) => {
            assert(none.absent.push(p) =~= seq![p]);
        },
        _ => {},
    }
    if b.len() == 0 {
        assert(a + b =~= a);
        if let Ok(x) = scan(a) {
            assert(x.files + none.files =~= x.files);
            assert(x.dirs + none.dirs =~= x.dirs);
            assert(x.absent + none.absent =~= x.absent);
        }
    } else {
        let init = b.drop_last();
        law_lines_say_it_in_order(a, init, line);
        assert((a + b).drop_last() =~= a + init);
        assert((a + b).last() == b.last());
        if let Ok(x) = scan(a) {
            if let Ok(m) = scan(init) {
                if let Ok(y) = scan(b) {
                    assert(scan(a + b)->Ok_0 =~= ScanView {
                        files: x.files + y.files,
                        dirs: x.dirs + y.dirs,
                        absent: x.absent + y.absent,
                    });
                }
            }
        }
    }
}

proof fn lemma_owned_filter(
    files: Seq<FileView>,
    dirs: Seq<Seq<u8>>,
    i: int,
    keep: spec_fn(FileView) -> bool,
)
    requires
        forall|f: FileView| #[trigger] keep(f) == (owner(dirs, f.path) == i),
    ensures
        owned(files, dirs, i) == files.filter(keep),
    decreases files.len(),
{
    reveal(Seq::filter);
    if files.len() > 0 {
        lemma_owned_filter(files.drop_last(), dirs, i, keep);
        assert(keep(files.last()) == (owner(dirs, files.last().path) == i));
    } else {
        assert(files.filter(keep) =~= Seq::empty());
    }
}

proof fn lemma_owned_has(files: Seq<FileView>, dirs: Seq<Seq<u8>>, f: FileView)
    requires
        files.contains(f),
    ensures
        owned(files, dirs, owner(dirs, f.path)).contains(f),
    decreases files.len(),
{
    let i = owner(dirs, f.path);
    let init = files.drop_last();
    let rest = owned(init, dirs, i);
    let all = owned(files, dirs, i);
    if files.last() == f {
        assert(all[all.len() - 1] == f);
    } else {
        let k = files.index_of(f);
        assert(init[k] == f);
        lemma_owned_has(init, dirs, f);
        assert(all[rest.index_of(f)] == f);
    }
}

/// Each file goes to the directory with the longest path of those that it lies in, if
/// it lies in any, and stands alone otherwise; files keep their order, and directories
/// and absent paths are those that the lines named.
pub proof fn law_files_go_to_their_directory(s: ScanView)
    ensures
        ({
            let b = grouped(s);
            let lone = |f: FileView|
                forall|i: int| 0 <= i < s.dirs.len() ==> !path::below(f.path, #[trigger] s.dirs[i]);
            &&& b.absent == s.absent
            &&& b.files == s.files.filter(lone)
            &&& b.dirs.len() == s.dirs.len()
            &&& forall|k: int| 0 <= k < b.dirs.len() ==> s.dirs.contains((#[trigger] b.dirs[k]).path)
            &&& forall|d: Seq<u8>|
                s.dirs.contains(d) ==> exists|k: int|
                    0 <= k < b.dirs.len() && (#[trigger] b.dirs[k]).path == d
            &&& forall|k: int, l: int|
                0 <= k < l < b.dirs.len() ==> (#[trigger] b.dirs[k]).path.len() >= (
                #[trigger] b.dirs[l]).path.len()
            &&& forall|k: int, f: FileView, d: Seq<u8>|
                #![trigger b.dirs[k].files.contains(f), s.dirs.contains(d)]
                0 <= k < b.dirs.len() && b.dirs[k].files.contains(f) && s.dirs.contains(d)
                    && path::below(f.path, d) ==> path::below(f.path, b.dirs[k].path) && d.len()
                    <= b.dirs[k].path.len()
            &&& forall|k: int, f: FileView|
                0 <= k < b.dirs.len() && #[trigger] b.dirs[k].files.contains(f)
                    ==> s.files.contains(f) && path::below(f.path, b.dirs[k].path)
            &&& forall|f: FileView| #[trigger]
                s.files.contains(f) && !lone(f) ==> exists|k: int|
                    0 <= k < b.dirs.len() && #[trigger] b.dirs[k].files.contains(f)
        }),
{
    let b = grouped(s);
    let dirs = order::sorted::<Declared>(s.dirs);
    let lone = |f: FileView|
        forall|i: int| 0 <= i < s.dirs.len() ==> !path::below(f.path, #[trigger] s.dirs[i]);
    order::law_sorted::<Declared>(s.dirs);
    assert forall|d: Seq<u8>| #[trigger] dirs.contains(d) <==> s.dirs.contains(d) by {
        super::verifying::lemma_sorted_contains::<Declared>(s.dirs, d);
    }
    assert forall|f: FileView| #[trigger] lone(f) == (owner(dirs, f.path) == dirs.len()) by {
        lemma_owner_range(dirs, f.path);
        lemma_owner_found(dirs, f.path);
        let o = owner(dirs, f.path);
        if lone(f) && o < dirs.len() {
            assert(dirs.contains(dirs[o]));
            let i = s.dirs.index_of(dirs[o]);
            assert(!path::below(f.path, s.dirs[i]));
        }
        if o == dirs.len() {
            assert forall|i: int| 0 <= i < s.dirs.len() implies !path::below(
                f.path,
                #[trigger] s.dirs[i],
            ) by {
                assert(dirs.contains(s.dirs[i]));
                let k = dirs.index_of(s.dirs[i]);
                assert(!path::below(f.path, dirs[k]));
            }
        }
    }
    lemma_owned_filter(s.files, dirs, dirs.len() as int, lone);
    assert forall|k: int| 0 <= k < b.dirs.len() implies s.dirs.contains(
        (#[trigger] b.dirs[k]).path,
    ) by {
        assert(dirs.contains(dirs[k]));
    }
    assert forall|d: Seq<u8>| s.dirs.contains(d) implies exists|k: int|
        0 <= k < b.dirs.len() && (#[trigger] b.dirs[k]).path == d by {
        assert(dirs.contains(d));
        assert(b.dirs[dirs.index_of(d)].path == d);
    }
    assert forall|k: int, l: int| 0 <= k < l < b.dirs.len() implies (#[trigger] b.dirs[k]).path.len()
        >= (#[trigger] b.dirs[l]).path.len() by {
        assert(!<Declared as order::Ranked>::precedes(dirs[l], dirs[k]));
    }
    assert forall|k: int, f: FileView|
        0 <= k < b.dirs.len() && #[trigger] b.dirs[k].files.contains(f) implies s.files.contains(f)
        && path::below(f.path, b.dirs[k].path) && owner(dirs, f.path) == k by {
        lemma_owned_among(s.files, dirs, k, f);
        let j = owned(s.files, dirs, k).index_of(f);
        lemma_owned_owner(s.files, dirs, k, j);
        lemma_owner_found(dirs, f.path);
    }
    assert forall|k: int, f: FileView, d: Seq<u8>|
        #![trigger b.dirs[k].files.contains(f), s.dirs.contains(d)]
        0 <= k < b.dirs.len() && b.dirs[k].files.contains(f) && s.dirs.contains(d) && path::below(
            f.path,
            d,
        ) implies path::below(f.path, b.dirs[k].path) && d.len() <= b.dirs[k].path.len() by {
        lemma_owner_found(dirs, f.path);
        assert(owner(dirs, f.path) == k);
        assert(dirs.contains(d));
        let l = dirs.index_of(d);
        if l < k {
            assert(!path::below(f.path, dirs[l]));
        }
        assert(b.dirs[l].path == d);
    }
    assert forall|f: FileView| #[trigger] s.files.contains(f) && !lone(f) implies exists|k: int|
        0 <= k < b.dirs.len() && #[trigger] b.dirs[k].files.contains(f) by {
        lemma_owner_range(dirs, f.path);
        lemma_owned_has(s.files, dirs, f);
        let k = owner(dirs, f.path);
        assert(lone(f) == (k == dirs.len()));
        assert(b.dirs[k].files.contains(f));
    }
}

/// A baseline's text has two comment lines, the first of which names the user, and a
/// line for each directory and each entry.
pub proof fn law_baseline_has_a_line_each(b: BaselineView, user: Seq<char>)
    ensures
        ({
            let lines = baseline_lines(b, user);
            &&& lines.len() == 2 + b.dirs.len() + b.total()
            &&& lines[0].len() > 0 && lines[0][0] == '#' && lines[1].len() > 0 && lines[1][0] == '#'
            &&& lines[0].skip(lines[0].len() - user.len()) == user
        }),
{
    lemma_dir_line_count(b.dirs);
    let lines = baseline_lines(b, user);
    let first = "# envvault config-integrity baseline for user "@;
    reveal_strlit("# envvault config-integrity baseline for user ");
    reveal_strlit("# fields: <kind>\\t<blake3-hex|->\\t<path> — managed by `envvault baseline set`; do not edit");
    assert(lines[0] == first + user);
    assert(lines[0].skip(lines[0].len() - user.len()) =~= user);
}

proof fn lemma_dir_line_count(dirs: Seq<DirView>)
    ensures
        dir_lines(dirs).len() == dirs.len() + super::dir_total(dirs),
    decreases dirs.len(),
{
    if dirs.len() > 0 {
        lemma_dir_line_count(dirs.drop_last());
    }
}

/// Each line ends with a line feed, and lines stand in order.
pub proof fn law_lines_end_with_line_feeds(lines: Seq<Seq<char>>, line: Seq<char>)
    ensures
        line_text(Seq::empty()) == Seq::<char>::empty(),
        line_text(lines + seq![line]) == line_text(lines) + line + seq!['\n'],
{
    assert((lines + seq![line]).drop_last() =~= lines);
    assert(line_text(lines) + line.push('\n') =~= line_text(lines) + line + seq!['\n']);
}

} // verus!
