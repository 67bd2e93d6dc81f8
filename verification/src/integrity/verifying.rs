//! Whether tracked files still hold what was blessed.
use super::Baseline;
use super::BaselineView;
use super::DirGroup;
use super::DirView;
use super::FileEntry;
use super::FileView;
use super::SightView;
use crate::order;
use crate::path;
use crate::path::FsPath;
use crate::primitives;
use crate::secret::SecretBytes;
use crate::text;
use crate::tree::LiveFile;
use crate::tree::LiveView;
use vstd::prelude::*;

verus! {

/// A verified file of a directory, relative to it.
pub struct FrozenFile {
    pub path: FsPath,
    pub bytes: SecretBytes,
}

#[verifier::ext_equal]
pub struct FrozenFileView {
    pub steps: Seq<path::Step>,
    pub bytes: Seq<u8>,
}

impl View for FrozenFile {
    type V = FrozenFileView;

    open spec fn view(&self) -> FrozenFileView {
        FrozenFileView { steps: path::steps(self.path@), bytes: self.bytes@ }
    }
}

/// A verified entry, to be reproduced in the session.
pub enum FrozenItem {
    /// A file: these very bytes are to be bound over the path.
    File { path: FsPath, bytes: SecretBytes },
    /// A directory: these files are to be laid out afresh over the path.
    Dir { path: FsPath, files: Vec<FrozenFile> },
    /// A path that was absent: to be neutralized if it exists.
    Absent { path: FsPath },
}

#[verifier::ext_equal]
pub enum FrozenView {
    File { path: Seq<u8>, bytes: Seq<u8> },
    Dir { path: Seq<u8>, files: Seq<FrozenFileView> },
    Absent { path: Seq<u8> },
}

impl View for FrozenItem {
    type V = FrozenView;

    open spec fn view(&self) -> FrozenView {
        match self {
            FrozenItem::File { path, bytes } => FrozenView::File { path: path@, bytes: bytes@ },
            FrozenItem::Dir { path, files } => FrozenView::Dir {
                path: path@,
                files: order::views(files@),
            },
            FrozenItem::Absent { path } => FrozenView::Absent { path: path@ },
        }
    }
}

impl FrozenView {
    pub open spec fn place(self) -> Seq<u8> {
        match self {
            FrozenView::File { path, .. } => path,
            FrozenView::Dir { path, .. } => path,
            FrozenView::Absent { path } => path,
        }
    }
}

impl FrozenItem {
    /// The path that this item governs.
    pub fn path(&self) -> (r: &FsPath)
        ensures
            r@ == self@.place(),
    {
        match self {
            FrozenItem::File { path, .. } => path,
            FrozenItem::Dir { path, .. } => path,
            FrozenItem::Absent { path } => path,
        }
    }
}

/// What a directory holds now, or why it cannot be read.
pub enum DirSight {
    Files(Vec<LiveFile>),
    Failed(String),
}

pub enum DirSightView {
    Files(Seq<LiveView>),
    Failed(Seq<char>),
}

impl View for DirSight {
    type V = DirSightView;

    open spec fn view(&self) -> DirSightView {
        match self {
            DirSight::Files(files) => DirSightView::Files(order::views(files@)),
            DirSight::Failed(why) => DirSightView::Failed(why@),
        }
    }
}

/// What a file holds now, if it can be read and is not too large.
pub struct FileSight {
    pub bytes: Option<SecretBytes>,
}

impl View for FileSight {
    type V = Option<Seq<u8>>;

    open spec fn view(&self) -> Option<Seq<u8>> {
        match self.bytes {
            Some(b) => Some(b@),
            None => None,
        }
    }
}

/// The content of the last of `live` at a path.
pub open spec fn last_live(live: Seq<LiveView>, p: Seq<u8>) -> Option<Seq<u8>>
    decreases live.len(),
{
    if live.len() == 0 {
        None
    } else if path::same(live.last().path, p) {
        Some(live.last().bytes)
    } else {
        last_live(live.drop_last(), p)
    }
}

/// Whether an entry of `g` stands for `p`.
pub open spec fn expected(g: DirView, p: Seq<u8>) -> bool {
    exists|i: int| 0 <= i < g.files.len() && path::same((#[trigger] g.files[i]).path, p)
}

/// Whether the entry's file is there with the content that was blessed.
pub open spec fn unchanged(live: Seq<LiveView>, f: FileView) -> bool {
    match last_live(live, f.path) {
        Some(b) => primitives::blake3_hex(b) == f.hash,
        None => false,
    }
}

/// A message about a directory.
pub open spec fn message(what: Seq<char>, dir: Seq<u8>, rest: Seq<char>) -> Seq<char> {
    what + path::shown(dir) + ": "@ + rest
}

/// A message about a file of a directory.
pub open spec fn dir_message(what: Seq<char>, dir: Seq<u8>, file: Seq<u8>) -> Seq<char> {
    message(what, dir, path::shown(file))
}

/// What is wrong with one entry of a directory.
pub open spec fn entry_problem(g: DirView, live: Seq<LiveView>, f: FileView) -> Option<Seq<char>> {
    if unchanged(live, f) {
        None
    } else if last_live(live, f.path) is Some {
        Some(dir_message("content changed in "@, g.path, f.path))
    } else {
        Some(dir_message("missing from "@, g.path, f.path))
    }
}

/// What is wrong with the entries of a directory.
pub open spec fn entry_problems(g: DirView, live: Seq<LiveView>, files: Seq<FileView>) -> Seq<
    Seq<char>,
>
    decreases files.len(),
{
    if files.len() == 0 {
        Seq::empty()
    } else {
        let rest = entry_problems(g, live, files.drop_last());
        match entry_problem(g, live, files.last()) {
            Some(m) => rest.push(m),
            None => rest,
        }
    }
}

/// Messages about files that no entry stands for.
pub open spec fn extra_problems(g: DirView, live: Seq<LiveView>) -> Seq<Seq<char>>
    decreases live.len(),
{
    if live.len() == 0 {
        Seq::empty()
    } else {
        let rest = extra_problems(g, live.drop_last());
        if expected(g, live.last().path) {
            rest
        } else {
            rest.push(dir_message("unexpected file in "@, g.path, live.last().path))
        }
    }
}

/// What is wrong with a directory: changed and missing files, then files that
/// should not be there.
pub open spec fn dir_problems(g: DirView, live: Seq<LiveView>) -> Seq<Seq<char>> {
    entry_problems(g, live, g.files) + extra_problems(g, live)
}

/// The steps of an entry's path as seen from its directory.
pub open spec fn steps_inside(dir: Seq<u8>, p: Seq<u8>) -> Seq<path::Step> {
    if path::below(p, dir) {
        path::steps(p).skip(path::steps(dir).len() as int)
    } else {
        path::steps(p)
    }
}

/// The verified files of a directory.
pub open spec fn frozen_files(g: DirView, live: Seq<LiveView>, files: Seq<FileView>) -> Seq<
    FrozenFileView,
>
    decreases files.len(),
{
    if files.len() == 0 {
        Seq::empty()
    } else {
        let rest = frozen_files(g, live, files.drop_last());
        let f = files.last();
        if unchanged(live, f) {
            rest.push(
                FrozenFileView {
                    steps: steps_inside(g.path, f.path),
                    bytes: last_live(live, f.path)->0,
                },
            )
        } else {
            rest
        }
    }
}

/// The index of the last of `live` at a path.
fn find_live(live: &Vec<LiveFile>, p: &FsPath) -> (r: Option<usize>)
    ensures
        match r {
            Some(i) => i < live@.len() && last_live(order::views(live@), p@) == Some(
                live@[i as int].bytes@,
            ),
            None => last_live(order::views(live@), p@) is None,
        },
{
    let ghost all = order::views(live@);
    let mut n: usize = live.len();
    assert(all.take(n as int) == all);
    while n > 0
        invariant
            n <= live@.len(),
            all == order::views(live@),
            last_live(all, p@) == last_live(all.take(n as int), p@),
        decreases n,
    {
        proof {
            assert(all.take(n as int).last() == live@[n - 1]@);
            assert(all.take(n as int).drop_last() == all.take(n - 1));
        }
        if live[n - 1].path.is_same(p) {
            return Some(n - 1);
        }
        n -= 1;
    }
    None
}

/// Whether an entry stands for `p`.
fn is_expected(files: &Vec<FileEntry>, p: &FsPath, g: Ghost<DirView>) -> (r: bool)
    requires
        g@.files == order::views(files@),
    ensures
        r == expected(g@, p@),
{
    let mut i: usize = 0;
    while i < files.len()
        invariant
            i <= files@.len(),
            g@.files == order::views(files@),
            forall|j: int| 0 <= j < i ==> !path::same((#[trigger] g@.files[j]).path, p@),
        decreases files.len() - i,
    {
        assert(g@.files[i as int] == files@[i as int]@);
        if files[i].path.is_same(p) {
            return true;
        }
        i += 1;
    }
    false
}

/// Writes a message about a file of a directory.
fn tell(what: &str, dir: &FsPath, file: &FsPath) -> (r: String)
    ensures
        r@ == dir_message(what@, dir@, file@),
{
    let mut r = String::new();
    r.append(what);
    r.append(dir.display().as_str());
    r.append(": ");
    r.append(file.display().as_str());
    assert(r@ =~= dir_message(what@, dir@, file@));
    r
}

/// Verifies one tracked directory: the files in it must be exactly those that
/// were blessed, with the same contents. Returns them relative to the directory,
/// or what is wrong.
pub fn verify_dir(g: &DirGroup, live: &Vec<LiveFile>) -> (r: Result<
    Vec<FrozenFile>,
    Vec<String>,
>)
    ensures
        ({
            let found = order::views(live@);
            match r {
                Ok(files) => {
                    &&& dir_problems(g@, found).len() == 0
                    &&& order::views(files@) == frozen_files(g@, found, g@.files)
                },
                Err(problems) => {
                    &&& problems@.len() > 0
                    &&& order::views(problems@) == dir_problems(g@, found)
                },
            }
        }),
{
    let ghost found = order::views(live@);
    let ghost all = g@.files;
    let mut problems: Vec<String> = Vec::new();
    let mut frozen: Vec<FrozenFile> = Vec::new();
    let mut i: usize = 0;
    proof {
        assert(all.take(0) == Seq::<FileView>::empty());
        assert(order::views(problems@) =~= Seq::<Seq<char>>::empty());
        assert(order::views(frozen@) =~= Seq::<FrozenFileView>::empty());
    }
    while i < g.files.len()
        invariant
            i <= g.files@.len(),
            found == order::views(live@),
            all == order::views(g.files@),
            order::views(problems@) == entry_problems(g@, found, all.take(i as int)),
            order::views(frozen@) == frozen_files(g@, found, all.take(i as int)),
        decreases g.files.len() - i,
    {
        let ghost p0 = problems@;
        let ghost f0 = frozen@;
        let fe = &g.files[i];
        proof {
            assert(all.take(i + 1).drop_last() == all.take(i as int));
            assert(all.take(i + 1).last() == fe@);
        }
        match find_live(live, &fe.path) {
            Some(k) => {
                let bytes = live[k].bytes.as_slice();
                if primitives::blake3_digest(bytes) == fe.hash {
                    let rel = match fe.path.relative_to(&g.path) {
                        Some(rel) => rel,
                        None => fe.path.clone(),
                    };
                    let f = FrozenFile {
                        path: rel,
                        bytes: SecretBytes::new(vstd::slice::slice_to_vec(bytes)),
                    };
                    frozen.push(f);
                    assert(order::views(frozen@) =~= order::views(f0).push(f@));
                } else {
                    let m = tell("content changed in ", &g.path, &fe.path);
                    problems.push(m);
                    assert(order::views(problems@) =~= order::views(p0).push(m@));
                }
            },
            None => {
                let m = tell("missing from ", &g.path, &fe.path);
                problems.push(m);
                assert(order::views(problems@) =~= order::views(p0).push(m@));
            },
        }
        i += 1;
    }
    assert(all.take(all.len() as int) == all);
    let ghost changed = entry_problems(g@, found, all);
    let mut k: usize = 0;
    assert(found.take(0) == Seq::<LiveView>::empty());
    assert(changed + extra_problems(g@, found.take(0)) =~= changed);
    while k < live.len()
        invariant
            k <= live@.len(),
            found == order::views(live@),
            order::views(problems@) == changed + extra_problems(g@, found.take(k as int)),
        decreases live.len() - k,
    {
        let ghost p0 = problems@;
        proof {
            assert(found.take(k + 1).drop_last() == found.take(k as int));
            assert(found.take(k + 1).last() == live@[k as int]@);
        }
        if !is_expected(&g.files, &live[k].path, Ghost(g@)) {
            let m = tell("unexpected file in ", &g.path, &live[k].path);
            problems.push(m);
            assert(order::views(problems@) =~= order::views(p0).push(m@));
            assert(order::views(problems@) =~= changed + extra_problems(
                g@,
                found.take(k as int),
            ).push(m@));
        }
        k += 1;
    }
    assert(found.take(found.len() as int) == found);
    assert(order::views(problems@).len() == problems@.len());
    if problems.len() == 0 {
        Ok(frozen)
    } else {
        Err(problems)
    }
}

/// What a verification gives: what to freeze, and what is wrong.
#[verifier::ext_equal]
pub struct VerdictView {
    pub items: Seq<FrozenView>,
    pub problems: Seq<Seq<char>>,
}

impl VerdictView {
    /// The verdict with one standalone file more.
    pub open spec fn with_file(self, f: FileView, seen: Option<Seq<u8>>) -> VerdictView {
        match seen {
            Some(b) => if primitives::blake3_hex(b) == f.hash {
                VerdictView {
                    items: self.items.push(FrozenView::File { path: f.path, bytes: b }),
                    ..self
                }
            } else {
                VerdictView {
                    problems: self.problems.push(
                        "content changed: "@ + path::shown(f.path),
                    ),
                    ..self
                }
            },
            None => VerdictView {
                problems: self.problems.push("missing or unreadable: "@ + path::shown(f.path)),
                ..self
            },
        }
    }

    /// The verdict with one directory more.
    pub open spec fn with_dir(self, g: DirView, seen: DirSightView) -> VerdictView {
        match seen {
            DirSightView::Failed(why) => VerdictView {
                problems: self.problems.push(
                    message("cannot read tracked directory "@, g.path, why),
                ),
                ..self
            },
            DirSightView::Files(live) => if dir_problems(g, live).len() == 0 {
                VerdictView {
                    items: self.items.push(
                        FrozenView::Dir { path: g.path, files: frozen_files(g, live, g.files) },
                    ),
                    ..self
                }
            } else {
                VerdictView { problems: self.problems + dir_problems(g, live), ..self }
            },
        }
    }

    /// The verdict with absent paths more, which are never wrong.
    pub open spec fn with_absent(self, absent: Seq<Seq<u8>>) -> VerdictView {
        VerdictView {
            items: self.items + absent.map_values(|p: Seq<u8>| FrozenView::Absent { path: p }),
            ..self
        }
    }

    pub open spec fn with_files(self, files: Seq<FileView>, seen: Seq<Option<Seq<u8>>>) -> Self
        decreases files.len(),
    {
        if files.len() == 0 {
            self
        } else {
            self.with_files(files.drop_last(), seen).with_file(files.last(), seen[files.len() - 1])
        }
    }

    pub open spec fn with_dirs(self, dirs: Seq<DirView>, seen: Seq<DirSightView>) -> Self
        decreases dirs.len(),
    {
        if dirs.len() == 0 {
            self
        } else {
            self.with_dirs(dirs.drop_last(), seen).with_dir(dirs.last(), seen[dirs.len() - 1])
        }
    }
}

/// The verdict on a baseline, from what was found at each of its files and
/// directories.
pub open spec fn verdict(
    b: BaselineView,
    files: Seq<Option<Seq<u8>>>,
    dirs: Seq<DirSightView>,
) -> VerdictView {
    (VerdictView { items: Seq::empty(), problems: Seq::empty() }).with_files(
        b.files,
        files,
    ).with_absent(b.absent).with_dirs(b.dirs, dirs)
}

/// What was found at the files and directories of a baseline, in its order.
pub struct Survey {
    pub files: Vec<FileSight>,
    pub dirs: Vec<DirSight>,
}

impl Survey {
    /// Whether there is one finding for each file and directory.
    pub open spec fn fits(self, b: BaselineView) -> bool {
        self.files@.len() == b.files.len() && self.dirs@.len() == b.dirs.len()
    }

    pub open spec fn verdict(self, b: BaselineView) -> VerdictView {
        verdict(b, order::views(self.files@), order::views(self.dirs@))
    }
}

/// Verifies every entry against what was found. Files and directories must
/// match exactly; absent paths are reproduced and are never wrong.
fn verify_entries(b: &Baseline, seen: &Survey) -> (r: (Vec<FrozenItem>, Vec<String>))
    requires
        seen.fits(b@),
    ensures
        order::views(r.0@) == seen.verdict(b@).items,
        order::views(r.1@) == seen.verdict(b@).problems,
{
    let ghost start = VerdictView { items: Seq::empty(), problems: Seq::empty() };
    let ghost files = order::views(b.files@);
    let ghost found = order::views(seen.files@);
    let mut items: Vec<FrozenItem> = Vec::new();
    let mut problems: Vec<String> = Vec::new();
    let mut i: usize = 0;
    proof {
        assert(files.take(0) == Seq::<FileView>::empty());
        assert(order::views(items@) =~= start.items);
        assert(order::views(problems@) =~= start.problems);
    }
    while i < b.files.len()
        invariant
            i <= b.files@.len(),
            b.files@.len() == seen.files@.len(),
            files == order::views(b.files@),
            found == order::views(seen.files@),
            start.with_files(files.take(i as int), found) == (VerdictView {
                items: order::views(items@),
                problems: order::views(problems@),
            }),
        decreases b.files.len() - i,
    {
        let ghost i0 = items@;
        let ghost p0 = problems@;
        let fe = &b.files[i];
        proof {
            assert(files.take(i + 1).drop_last() == files.take(i as int));
            assert(files.take(i + 1).last() == fe@);
            assert(found[i as int] == seen.files@[i as int]@);
        }
        match &seen.files[i].bytes {
            Some(bytes) => {
                if primitives::blake3_digest(bytes.as_slice()) == fe.hash {
                    let item = FrozenItem::File {
                        path: fe.path.clone(),
                        bytes: SecretBytes::new(vstd::slice::slice_to_vec(bytes.as_slice())),
                    };
                    items.push(item);
                    assert(order::views(items@) =~= order::views(i0).push(item@));
                } else {
                    let mut m = String::new();
                    m.append("content changed: ");
                    m.append(fe.path.display().as_str());
                    problems.push(m);
                    assert(m@ =~= "content changed: "@ + path::shown(fe@.path));
                    assert(order::views(problems@) =~= order::views(p0).push(m@));
                }
            },
            None => {
                let mut m = String::new();
                m.append("missing or unreadable: ");
                m.append(fe.path.display().as_str());
                problems.push(m);
                assert(m@ =~= "missing or unreadable: "@ + path::shown(fe@.path));
                assert(order::views(problems@) =~= order::views(p0).push(m@));
            },
        }
        i += 1;
    }
    assert(files.take(files.len() as int) == files);
    let ghost mid = start.with_files(files, found);
    let ghost gone = order::views(b.absent@);
    let mut k: usize = 0;
    assert(mid.with_absent(gone.take(0)) =~= mid);
    while k < b.absent.len()
        invariant
            k <= b.absent@.len(),
            gone == order::views(b.absent@),
            mid.with_absent(gone.take(k as int)) == (VerdictView {
                items: order::views(items@),
                problems: order::views(problems@),
            }),
        decreases b.absent.len() - k,
    {
        let ghost i0 = items@;
        let item = FrozenItem::Absent { path: b.absent[k].clone() };
        items.push(item);
        proof {
            assert(order::views(items@) =~= order::views(i0).push(item@));
            assert(mid.with_absent(gone.take(k + 1)).items =~= mid.with_absent(
                gone.take(k as int),
            ).items.push(item@));
        }
        k += 1;
    }
    assert(gone.take(gone.len() as int) == gone);
    let ghost mid = mid.with_absent(gone);
    let ghost trees = order::views(b.dirs@);
    let ghost views = order::views(seen.dirs@);
    let mut d: usize = 0;
    assert(trees.take(0) == Seq::<DirView>::empty());
    while d < b.dirs.len()
        invariant
            d <= b.dirs@.len(),
            b.dirs@.len() == seen.dirs@.len(),
            trees == order::views(b.dirs@),
            views == order::views(seen.dirs@),
            mid.with_dirs(trees.take(d as int), views) == (VerdictView {
                items: order::views(items@),
                problems: order::views(problems@),
            }),
        decreases b.dirs.len() - d,
    {
        let ghost i0 = items@;
        let ghost p0 = problems@;
        let g = &b.dirs[d];
        proof {
            assert(trees.take(d + 1).drop_last() == trees.take(d as int));
            assert(trees.take(d + 1).last() == g@);
            assert(views[d as int] == seen.dirs@[d as int]@);
        }
        match &seen.dirs[d] {
            DirSight::Failed(why) => {
                let mut m = String::new();
                m.append("cannot read tracked directory ");
                m.append(g.path.display().as_str());
                m.append(": ");
                m.append(why.as_str());
                problems.push(m);
                assert(m@ =~= message("cannot read tracked directory "@, g@.path, why@));
                assert(order::views(problems@) =~= order::views(p0).push(m@));
            },
            DirSight::Files(live) => match verify_dir(g, live) {
                Ok(files) => {
                    let item = FrozenItem::Dir { path: g.path.clone(), files };
                    items.push(item);
                    assert(order::views(items@) =~= order::views(i0).push(item@));
                },
                Err(wrong) => {
                    let mut wrong = wrong;
                    let ghost w = wrong@;
                    problems.append(&mut wrong);
                    assert(order::views(problems@) =~= order::views(p0) + order::views(w));
                },
            },
        }
        d += 1;
    }
    assert(trees.take(trees.len() as int) == trees);
    (items, problems)
}

/// The message of a refused run.
pub open spec fn refusal(problems: Seq<Seq<char>>) -> Seq<char> {
    "config integrity check failed — refusing to run:\n  "@ + text::joined_with(problems, "\n  "@)
        + "\nIf these changes are intended, re-bless with `sudo envvault baseline set`."@
}

/// Verifies every entry and returns what to freeze, or refuses with a message
/// on any mismatch.
pub fn verify_and_collect(b: &Baseline, seen: &Survey) -> (r: Result<Vec<FrozenItem>, String>)
    requires
        seen.fits(b@),
    ensures
        match r {
            Ok(items) => {
                &&& seen.verdict(b@).problems.len() == 0
                &&& order::views(items@) == seen.verdict(b@).items
            },
            Err(m) => {
                &&& seen.verdict(b@).problems.len() > 0
                &&& m@ == refusal(seen.verdict(b@).problems)
            },
        },
{
    let (items, problems) = verify_entries(b, seen);
    assert(order::views(problems@).len() == problems@.len());
    if problems.len() == 0 {
        return Ok(items);
    }
    let mut m = String::new();
    m.append("config integrity check failed — refusing to run:\n  ");
    m.append(text::join(&problems, "\n  ").as_str());
    m.append("\nIf these changes are intended, re-bless with `sudo envvault baseline set`.");
    assert(m@ =~= refusal(seen.verdict(b@).problems));
    Err(m)
}

/// What differs from the baseline. Nothing means that everything matches.
pub fn check(b: &Baseline, seen: &Survey) -> (r: Vec<String>)
    requires
        seen.fits(b@),
    ensures
        order::views(r@) == seen.verdict(b@).problems,
{
    verify_entries(b, seen).1
}

proof fn lemma_entry_problems(g: DirView, live: Seq<LiveView>, files: Seq<FileView>)
    ensures
        entry_problems(g, live, files).len() == 0 <==> forall|i: int|
            0 <= i < files.len() ==> unchanged(live, #[trigger] files[i]),
    decreases files.len(),
{
    if files.len() > 0 {
        let init = files.drop_last();
        lemma_entry_problems(g, live, init);
        if entry_problems(g, live, files).len() == 0 {
            assert forall|i: int| 0 <= i < files.len() implies unchanged(
                live,
                #[trigger] files[i],
            ) by {
                if i < init.len() {
                    assert(init[i] == files[i]);
                }
            }
        } else if forall|i: int| 0 <= i < files.len() ==> unchanged(live, #[trigger] files[i]) {
            assert(unchanged(live, files[files.len() - 1]));
            assert forall|i: int| 0 <= i < init.len() implies unchanged(
                live,
                #[trigger] init[i],
            ) by {
                assert(init[i] == files[i]);
            }
        }
    }
}

proof fn lemma_extra_problems(g: DirView, live: Seq<LiveView>)
    ensures
        extra_problems(g, live).len() == 0 <==> forall|i: int|
            0 <= i < live.len() ==> expected(g, (#[trigger] live[i]).path),
    decreases live.len(),
{
    if live.len() > 0 {
        let init = live.drop_last();
        lemma_extra_problems(g, init);
        if extra_problems(g, live).len() == 0 {
            assert forall|i: int| 0 <= i < live.len() implies expected(
                g,
                (#[trigger] live[i]).path,
            ) by {
                if i < init.len() {
                    assert(init[i] == live[i]);
                }
            }
        } else if forall|i: int| 0 <= i < live.len() ==> expected(g, (#[trigger] live[i]).path) {
            assert(expected(g, live[live.len() - 1].path));
            assert forall|i: int| 0 <= i < init.len() implies expected(
                g,
                (#[trigger] init[i]).path,
            ) by {
                assert(init[i] == live[i]);
            }
        }
    }
}

/// A directory is in order exactly if every blessed file is there with its
/// content and nothing else is: an added, a removed and a changed file are each
/// found.
pub proof fn law_dir_matches_exactly(g: DirView, live: Seq<LiveView>)
    ensures
        dir_problems(g, live).len() == 0 <==> {
            &&& forall|i: int| 0 <= i < g.files.len() ==> unchanged(live, #[trigger] g.files[i])
            &&& forall|i: int| 0 <= i < live.len() ==> expected(g, (#[trigger] live[i]).path)
        },
{
    lemma_entry_problems(g, live, g.files);
    lemma_extra_problems(g, live);
}

/// Whether a file was found with the content that was blessed.
pub open spec fn file_matches(f: FileView, seen: Option<Seq<u8>>) -> bool {
    seen matches Some(b) && primitives::blake3_hex(b) == f.hash
}

/// Whether a directory was found with exactly what was blessed.
pub open spec fn dir_matches(g: DirView, seen: DirSightView) -> bool {
    seen matches DirSightView::Files(live) && dir_problems(g, live).len() == 0
}

proof fn lemma_files_verdict(v: VerdictView, files: Seq<FileView>, seen: Seq<Option<Seq<u8>>>)
    ensures
        v.with_files(files, seen).problems.len() == 0 <==> {
            &&& v.problems.len() == 0
            &&& forall|i: int| 0 <= i < files.len() ==> file_matches(#[trigger] files[i], seen[i])
        },
    decreases files.len(),
{
    if files.len() > 0 {
        let init = files.drop_last();
        let n = files.len() - 1;
        lemma_files_verdict(v, init, seen);
        if v.with_files(files, seen).problems.len() == 0 {
            assert forall|i: int| 0 <= i < files.len() implies file_matches(
                #[trigger] files[i],
                seen[i],
            ) by {
                if i < n {
                    assert(init[i] == files[i]);
                }
            }
        } else if v.problems.len() == 0 && forall|i: int|
            0 <= i < files.len() ==> file_matches(#[trigger] files[i], seen[i]) {
            assert(file_matches(files[n], seen[n]));
            assert forall|i: int| 0 <= i < n implies file_matches(#[trigger] init[i], seen[i]) by {
                assert(init[i] == files[i]);
            }
        }
    }
}

proof fn lemma_dirs_verdict(v: VerdictView, dirs: Seq<DirView>, seen: Seq<DirSightView>)
    ensures
        v.with_dirs(dirs, seen).problems.len() == 0 <==> {
            &&& v.problems.len() == 0
            &&& forall|i: int| 0 <= i < dirs.len() ==> dir_matches(#[trigger] dirs[i], seen[i])
        },
    decreases dirs.len(),
{
    if dirs.len() > 0 {
        let init = dirs.drop_last();
        let n = dirs.len() - 1;
        lemma_dirs_verdict(v, init, seen);
        if v.with_dirs(dirs, seen).problems.len() == 0 {
            assert forall|i: int| 0 <= i < dirs.len() implies dir_matches(
                #[trigger] dirs[i],
                seen[i],
            ) by {
                if i < n {
                    assert(init[i] == dirs[i]);
                }
            }
        } else if v.problems.len() == 0 && forall|i: int|
            0 <= i < dirs.len() ==> dir_matches(#[trigger] dirs[i], seen[i]) {
            assert(dir_matches(dirs[n], seen[n]));
            assert forall|i: int| 0 <= i < n implies dir_matches(#[trigger] init[i], seen[i]) by {
                assert(init[i] == dirs[i]);
            }
        }
    }
}

/// A verification finds nothing wrong exactly if every file and every directory
/// matches; it fails closed on any divergence, whatever absent paths do.
pub proof fn law_any_divergence_is_found(
    b: BaselineView,
    files: Seq<Option<Seq<u8>>>,
    dirs: Seq<DirSightView>,
)
    ensures
        verdict(b, files, dirs).problems.len() == 0 <==> {
            &&& forall|i: int|
                0 <= i < b.files.len() ==> file_matches(#[trigger] b.files[i], files[i])
            &&& forall|i: int| 0 <= i < b.dirs.len() ==> dir_matches(#[trigger] b.dirs[i], dirs[i])
        },
{
    let start = VerdictView { items: Seq::empty(), problems: Seq::empty() };
    lemma_files_verdict(start, b.files, files);
    lemma_dirs_verdict(start.with_files(b.files, files).with_absent(b.absent), b.dirs, dirs);
}

/// No path occurs twice.
pub open spec fn distinct_paths(live: Seq<LiveView>) -> bool {
    forall|i: int, j: int|
        0 <= i < j < live.len() ==> !path::same(
            (#[trigger] live[i]).path,
            (#[trigger] live[j]).path,
        )
}

proof fn lemma_last_live(live: Seq<LiveView>, k: int)
    requires
        0 <= k < live.len(),
        distinct_paths(live),
    ensures
        last_live(live, live[k].path) == Some(live[k].bytes),
    decreases live.len(),
{
    if k < live.len() - 1 {
        assert(!path::same(live[k].path, live[live.len() - 1].path));
        let init = live.drop_last();
        assert forall|i: int, j: int| 0 <= i < j < init.len() implies !path::same(
            (#[trigger] init[i]).path,
            (#[trigger] init[j]).path,
        ) by {
            assert(init[i] == live[i] && init[j] == live[j]);
        }
        assert(init[k] == live[k]);
        lemma_last_live(init, k);
    }
}

/// Sorting keeps what is in a list.
pub proof fn lemma_sorted_contains<T: order::Ranked>(s: Seq<T::V>, x: T::V)
    ensures
        order::sorted::<T>(s).contains(x) <==> s.contains(x),
{
    broadcast use vstd::seq_lib::group_to_multiset_ensures;

    order::law_sorted::<T>(s);
    assert(order::sorted::<T>(s).to_multiset().contains(x) <==> s.to_multiset().contains(x));
}

/// A directory verifies against what it held when it was blessed.
pub proof fn law_blessed_dir_verifies(p: Seq<u8>, live: Seq<LiveView>)
    requires
        distinct_paths(live),
    ensures
        dir_problems(
            DirView { path: p, files: order::sorted::<FileEntry>(super::all_blessed(live)) },
            live,
        ).len() == 0,
{
    let all = super::all_blessed(live);
    let g = DirView { path: p, files: order::sorted::<FileEntry>(all) };
    assert forall|i: int| 0 <= i < g.files.len() implies unchanged(live, #[trigger] g.files[i]) by {
        let f = g.files[i];
        assert(g.files.contains(f));
        lemma_sorted_contains::<FileEntry>(all, f);
        let k = choose|k: int| 0 <= k < all.len() && all[k] == f;
        assert(all[k] == super::blessed(live[k]));
        lemma_last_live(live, k);
    }
    assert forall|i: int| 0 <= i < live.len() implies expected(g, (#[trigger] live[i]).path) by {
        let f = super::blessed(live[i]);
        assert(all[i] == f);
        assert(all.contains(f));
        lemma_sorted_contains::<FileEntry>(all, f);
        let k = choose|k: int| 0 <= k < g.files.len() && g.files[k] == f;
        assert(path::same(g.files[k].path, live[i].path));
    }
    law_dir_matches_exactly(g, live);
}

/// Whether the `i`-th path was found to be the file that `f` blesses.
pub open spec fn file_from(
    paths: Seq<Seq<u8>>,
    seen: Seq<SightView>,
    i: int,
    f: FileView,
) -> bool {
    &&& 0 <= i < paths.len()
    &&& seen[i] matches SightView::File(bytes)
    &&& f == super::blessed(LiveView { path: paths[i], bytes })
}

/// Whether the `i`-th path was found to be the directory that `g` blesses.
pub open spec fn dir_from(
    paths: Seq<Seq<u8>>,
    seen: Seq<SightView>,
    i: int,
    g: DirView,
) -> bool {
    &&& 0 <= i < paths.len()
    &&& seen[i] matches SightView::Dir(live)
    &&& g == (DirView {
        path: paths[i],
        files: order::sorted::<FileEntry>(super::all_blessed(live)),
    })
}

proof fn lemma_gathered(paths: Seq<Seq<u8>>, seen: Seq<SightView>)
    requires
        paths.len() == seen.len(),
    ensures
        forall|f: FileView| #[trigger]
            super::gathered(paths, seen).files.contains(f) ==> exists|i: int|
                file_from(paths, seen, i, f),
        forall|g: DirView| #[trigger]
            super::gathered(paths, seen).dirs.contains(g) ==> exists|i: int|
                dir_from(paths, seen, i, g),
    decreases paths.len(),
{
    if paths.len() > 0 {
        let p = paths.drop_last();
        let s = seen.drop_last();
        let n = paths.len() - 1;
        lemma_gathered(p, s);
        let before = super::gathered(p, s);
        let all = super::gathered(paths, seen);
        assert forall|f: FileView| #[trigger] all.files.contains(f) implies exists|i: int|
            file_from(paths, seen, i, f) by {
            let k = choose|k: int| 0 <= k < all.files.len() && all.files[k] == f;
            if k < before.files.len() {
                assert(before.files[k] == f);
                assert(before.files.contains(f));
                let i = choose|i: int| file_from(p, s, i, f);
                assert(p[i] == paths[i] && s[i] == seen[i]);
                assert(file_from(paths, seen, i, f));
            } else {
                assert(file_from(paths, seen, n, f));
            }
        }
        assert forall|g: DirView| #[trigger] all.dirs.contains(g) implies exists|i: int|
            dir_from(paths, seen, i, g) by {
            let k = choose|k: int| 0 <= k < all.dirs.len() && all.dirs[k] == g;
            if k < before.dirs.len() {
                assert(before.dirs[k] == g);
                assert(before.dirs.contains(g));
                let i = choose|i: int| dir_from(p, s, i, g);
                assert(p[i] == paths[i] && s[i] == seen[i]);
                assert(dir_from(paths, seen, i, g));
            } else {
                assert(dir_from(paths, seen, n, g));
            }
        }
    }
}

/// A baseline that was just computed verifies as long as every file and
/// directory is found as it was.
pub proof fn law_fresh_baseline_verifies(
    paths: Seq<Seq<u8>>,
    seen: Seq<SightView>,
    files: Seq<Option<Seq<u8>>>,
    dirs: Seq<DirSightView>,
)
    requires
        paths.len() == seen.len(),
        forall|i: int| 0 <= i < seen.len() ==> match #[trigger] seen[i] {
            SightView::Dir(live) => distinct_paths(live),
            _ => true,
        },
        ({
            let b = super::gathered(paths, seen).in_order();
            &&& forall|i: int, k: int| #[trigger]
                file_from(paths, seen, i, b.files[k]) && 0 <= k < b.files.len() ==> files[k]
                    == Some(seen[i]->File_0)
            &&& forall|i: int, k: int| #[trigger]
                dir_from(paths, seen, i, b.dirs[k]) && 0 <= k < b.dirs.len() ==> dirs[k]
                    == DirSightView::Files(seen[i]->Dir_0)
        }),
    ensures
        verdict(super::gathered(paths, seen).in_order(), files, dirs).problems.len() == 0,
{
    let raw = super::gathered(paths, seen);
    let b = raw.in_order();
    lemma_gathered(paths, seen);
    assert forall|k: int| 0 <= k < b.files.len() implies file_matches(
        #[trigger] b.files[k],
        files[k],
    ) by {
        let f = b.files[k];
        assert(b.files.contains(f));
        lemma_sorted_contains::<FileEntry>(raw.files, f);
        let i = choose|i: int| file_from(paths, seen, i, f);
        assert(file_from(paths, seen, i, b.files[k]));
    }
    assert forall|k: int| 0 <= k < b.dirs.len() implies dir_matches(
        #[trigger] b.dirs[k],
        dirs[k],
    ) by {
        let g = b.dirs[k];
        assert(b.dirs.contains(g));
        lemma_sorted_contains::<DirGroup>(raw.dirs, g);
        let i = choose|i: int| dir_from(paths, seen, i, g);
        assert(dir_from(paths, seen, i, b.dirs[k]));
        law_blessed_dir_verifies(paths[i], seen[i]->Dir_0);
    }
    law_any_divergence_is_found(b, files, dirs);
}

/// The content at a path is that of the last file that was found there.
pub proof fn law_last_content_counts(live: Seq<LiveView>, p: Seq<u8>)
    ensures
        match last_live(live, p) {
            Some(b) => exists|k: int|
                0 <= k < live.len() && path::steps((#[trigger] live[k]).path) == path::steps(p)
                    && live[k].bytes == b && forall|j: int|
                    k < j < live.len() ==> path::steps((#[trigger] live[j]).path) != path::steps(p),
            None => forall|j: int|
                0 <= j < live.len() ==> path::steps((#[trigger] live[j]).path) != path::steps(p),
        },
    decreases live.len(),
{
    if live.len() > 0 {
        let n = live.len() - 1;
        let init = live.drop_last();
        if path::same(live.last().path, p) {
            assert(path::steps(live[n].path) == path::steps(p) && live[n].bytes
                == live.last().bytes);
        } else {
            law_last_content_counts(init, p);
            assert(path::steps(live[n].path) != path::steps(p));
            match last_live(live, p) {
                Some(b) => {
                    let k = choose|k: int|
                        0 <= k < init.len() && path::steps((#[trigger] init[k]).path)
                            == path::steps(p) && init[k].bytes == b && forall|j: int|
                            k < j < init.len() ==> path::steps((#[trigger] init[j]).path)
                                != path::steps(p);
                    assert(live[k] == init[k]);
                    assert forall|j: int| k < j < live.len() implies path::steps(
                        (#[trigger] live[j]).path,
                    ) != path::steps(p) by {
                        if j < n {
                            assert(init[j] == live[j]);
                        }
                    }
                },
                None => {
                    assert forall|j: int| 0 <= j < live.len() implies path::steps(
                        (#[trigger] live[j]).path,
                    ) != path::steps(p) by {
                        if j < n {
                            assert(init[j] == live[j]);
                        }
                    }
                },
            }
        }
    }
}

/// Whether the `i`-th file was found with a content that hashes to what was
/// blessed.
pub open spec fn is_verified_file(
    b: BaselineView,
    files: Seq<Option<Seq<u8>>>,
    i: int,
    p: Seq<u8>,
    bytes: Seq<u8>,
) -> bool {
    &&& 0 <= i < b.files.len()
    &&& b.files[i].path == p
    &&& files[i] == Some(bytes)
    &&& primitives::blake3_hex(bytes) == b.files[i].hash
}

proof fn lemma_with_files_items(
    v: VerdictView,
    files: Seq<FileView>,
    seen: Seq<Option<Seq<u8>>>,
    x: FrozenView,
)
    ensures
        v.with_files(files, seen).items.contains(x) <==> v.items.contains(x) || (
        x matches FrozenView::File { path, bytes } && exists|i: int|
            0 <= i < files.len() && (#[trigger] files[i]).path == path && seen[i] == Some(bytes)
                && primitives::blake3_hex(bytes) == files[i].hash),
        v.with_files(files, seen).items.len() <= v.items.len() + files.len(),
        v.with_files(files, seen).items.len() + v.with_files(files, seen).problems.len()
            == v.items.len() + v.problems.len() + files.len(),
    decreases files.len(),
{
    if files.len() > 0 {
        let init = files.drop_last();
        let n = files.len() - 1;
        let before = v.with_files(init, seen);
        let after = v.with_files(files, seen);
        lemma_with_files_items(v, init, seen, x);
        if before.items.contains(x) {
            assert(after.items[before.items.index_of(x)] == x);
        }
        if after.items.contains(x) && !before.items.contains(x) {
            let k = after.items.index_of(x);
            if k < before.items.len() {
                assert(before.items[k] == x);
            }
            assert(files[n].path == x->File_path);
        }
        if let FrozenView::File { path, bytes } = x {
            if exists|i: int|
                0 <= i < init.len() && (#[trigger] init[i]).path == path && seen[i] == Some(bytes)
                    && primitives::blake3_hex(bytes) == init[i].hash {
                let i = choose|i: int|
                    0 <= i < init.len() && (#[trigger] init[i]).path == path && seen[i] == Some(
                        bytes,
                    ) && primitives::blake3_hex(bytes) == init[i].hash;
                assert(files[i] == init[i]);
            }
            if exists|i: int|
                0 <= i < files.len() && (#[trigger] files[i]).path == path && seen[i] == Some(bytes)
                    && primitives::blake3_hex(bytes) == files[i].hash {
                let i = choose|i: int|
                    0 <= i < files.len() && (#[trigger] files[i]).path == path && seen[i] == Some(
                        bytes,
                    ) && primitives::blake3_hex(bytes) == files[i].hash;
                if i < n {
                    assert(init[i] == files[i]);
                } else {
                    assert(after.items[after.items.len() - 1] == x);
                }
            }
        }
    }
}

/// Whether the files of a frozen directory are those that were blessed, each with
/// a content that was found at its path and hashes to what was blessed.
pub open spec fn is_verified_dir(
    g: DirView,
    live: Seq<LiveView>,
    files: Seq<FrozenFileView>,
) -> bool {
    &&& files.len() == g.files.len()
    &&& forall|k: int|
        0 <= k < files.len() ==> primitives::blake3_hex((#[trigger] files[k]).bytes)
            == g.files[k].hash && is_found(live, g.files[k].path, files[k].bytes)
    &&& forall|k: int|
        0 <= k < files.len() ==> {
            let inside = path::steps(g.files[k].path);
            let dir = path::steps(g.path);
            (#[trigger] files[k]).steps == (if exists|rest: Seq<path::Step>| inside == dir + rest {
                inside.skip(dir.len() as int)
            } else {
                inside
            })
        }
}

/// Whether a content was found at a path.
pub open spec fn is_found(live: Seq<LiveView>, p: Seq<u8>, bytes: Seq<u8>) -> bool {
    exists|j: int|
        0 <= j < live.len() && path::steps((#[trigger] live[j]).path) == path::steps(p)
            && live[j].bytes == bytes
}

proof fn lemma_frozen_files(g: DirView, live: Seq<LiveView>, files: Seq<FileView>)
    requires
        forall|i: int| 0 <= i < files.len() ==> unchanged(live, #[trigger] files[i]),
    ensures
        frozen_files(g, live, files).len() == files.len(),
        forall|k: int|
            0 <= k < files.len() ==> (#[trigger] frozen_files(g, live, files)[k]) == (
            FrozenFileView {
                steps: steps_inside(g.path, files[k].path),
                bytes: last_live(live, files[k].path)->0,
            }),
    decreases files.len(),
{
    if files.len() > 0 {
        let init = files.drop_last();
        assert forall|i: int| 0 <= i < init.len() implies unchanged(live, #[trigger] init[i]) by {
            assert(init[i] == files[i]);
        }
        lemma_frozen_files(g, live, init);
        assert(unchanged(live, files[files.len() - 1]));
        assert forall|k: int| 0 <= k < files.len() implies (#[trigger] frozen_files(
            g,
            live,
            files,
        )[k]) == (FrozenFileView {
            steps: steps_inside(g.path, files[k].path),
            bytes: last_live(live, files[k].path)->0,
        }) by {
            if k < init.len() {
                assert(frozen_files(g, live, files)[k] == frozen_files(g, live, init)[k]);
                assert(init[k] == files[k]);
            }
        }
    }
}

/// A directory that matches is frozen with exactly the files that were blessed,
/// each with the content that was found and verified.
pub proof fn law_verified_directory_is_frozen(g: DirView, live: Seq<LiveView>)
    requires
        dir_problems(g, live).len() == 0,
    ensures
        is_verified_dir(g, live, frozen_files(g, live, g.files)),
{
    law_dir_matches_exactly(g, live);
    lemma_frozen_files(g, live, g.files);
    let files = frozen_files(g, live, g.files);
    assert forall|k: int| 0 <= k < files.len() implies primitives::blake3_hex(
        (#[trigger] files[k]).bytes,
    ) == g.files[k].hash && is_found(live, g.files[k].path, files[k].bytes) by {
        assert(unchanged(live, g.files[k]));
        law_last_content_counts(live, g.files[k].path);
    }
    assert forall|k: int| 0 <= k < files.len() implies {
        let inside = path::steps(g.files[k].path);
        let dir = path::steps(g.path);
        (#[trigger] files[k]).steps == (if exists|rest: Seq<path::Step>| inside == dir + rest {
            inside.skip(dir.len() as int)
        } else {
            inside
        })
    } by {
        let inside = path::steps(g.files[k].path);
        let dir = path::steps(g.path);
        if path::below(g.files[k].path, g.path) {
            assert(inside =~= dir + inside.skip(dir.len() as int));
        } else if exists|rest: Seq<path::Step>| inside == dir + rest {
            let rest = choose|rest: Seq<path::Step>| inside == dir + rest;
            assert(inside.take(dir.len() as int) =~= dir);
        }
    }
}

/// Whether a frozen directory comes from the `i`-th directory, which matched.
pub open spec fn is_from_dir(
    dirs: Seq<DirView>,
    seen: Seq<DirSightView>,
    i: int,
    p: Seq<u8>,
    files: Seq<FrozenFileView>,
) -> bool {
    &&& 0 <= i < dirs.len()
    &&& dirs[i].path == p
    &&& seen[i] matches DirSightView::Files(live)
    &&& dir_problems(dirs[i], live).len() == 0
    &&& files == frozen_files(dirs[i], live, dirs[i].files)
}

proof fn lemma_with_dirs_items(
    v: VerdictView,
    dirs: Seq<DirView>,
    seen: Seq<DirSightView>,
    x: FrozenView,
)
    ensures
        v.with_dirs(dirs, seen).items.contains(x) <==> v.items.contains(x) || (
        x matches FrozenView::Dir { path, files } && exists|i: int|
            #[trigger] is_from_dir(dirs, seen, i, path, files)),
        v.with_dirs(dirs, seen).items.len() <= v.items.len() + dirs.len(),
        v.with_dirs(dirs, seen).problems.len() == 0 ==> v.with_dirs(dirs, seen).items.len()
            == v.items.len() + dirs.len(),
        v.with_dirs(dirs, seen).problems.len() >= v.problems.len(),
    decreases dirs.len(),
{
    if dirs.len() > 0 {
        let init = dirs.drop_last();
        let n = dirs.len() - 1;
        let before = v.with_dirs(init, seen);
        let after = v.with_dirs(dirs, seen);
        lemma_with_dirs_items(v, init, seen, x);
        if before.items.contains(x) {
            assert(after.items[before.items.index_of(x)] == x);
        }
        if let FrozenView::Dir { path, files } = x {
            if after.items.contains(x) && !before.items.contains(x) {
                let k = after.items.index_of(x);
                if k < before.items.len() {
                    assert(before.items[k] == x);
                }
                assert(is_from_dir(dirs, seen, n, path, files));
            }
            if exists|i: int| #[trigger] is_from_dir(init, seen, i, path, files) {
                let i = choose|i: int| #[trigger] is_from_dir(init, seen, i, path, files);
                assert(dirs[i] == init[i]);
                assert(is_from_dir(dirs, seen, i, path, files));
            }
            if exists|i: int| #[trigger] is_from_dir(dirs, seen, i, path, files) {
                let i = choose|i: int| #[trigger] is_from_dir(dirs, seen, i, path, files);
                if i < n {
                    assert(init[i] == dirs[i]);
                    assert(is_from_dir(init, seen, i, path, files));
                } else {
                    assert(after.items[after.items.len() - 1] == x);
                }
            }
        } else if after.items.contains(x) && !before.items.contains(x) {
            let k = after.items.index_of(x);
            if k < before.items.len() {
                assert(before.items[k] == x);
            }
        }
    }
}

/// What is frozen is what was verified: a file exactly if it was found with a
/// content that hashes to what was blessed for its path, with that very content; a
/// path as absent exactly if it was absent; and a directory only with the files
/// that were blessed, each with a content that was found and hashes to what was
/// blessed. Nothing that was verified is left out.
pub proof fn law_verified_bytes_are_frozen(
    b: BaselineView,
    files: Seq<Option<Seq<u8>>>,
    dirs: Seq<DirSightView>,
    x: FrozenView,
)
    ensures
        ({
            let items = verdict(b, files, dirs).items;
            match x {
                FrozenView::File { path, bytes } => items.contains(x) <==> exists|i: int|
                    is_verified_file(b, files, i, path, bytes),
                FrozenView::Absent { path } => items.contains(x) <==> b.absent.contains(path),
                FrozenView::Dir { path, files: laid } => items.contains(x) ==> exists|i: int|
                    0 <= i < b.dirs.len() && (#[trigger] b.dirs[i]).path == path
                        && dirs[i] is Files && is_verified_dir(b.dirs[i], dirs[i]->Files_0, laid),
            }
        }),
        verdict(b, files, dirs).problems.len() == 0 ==> verdict(b, files, dirs).items.len()
            == b.files.len() + b.absent.len() + b.dirs.len(),
{
    let start = VerdictView { items: Seq::empty(), problems: Seq::empty() };
    let one = start.with_files(b.files, files);
    let two = one.with_absent(b.absent);
    lemma_with_files_items(start, b.files, files, x);
    lemma_with_dirs_items(two, b.dirs, dirs, x);
    let gone = b.absent.map_values(|p: Seq<u8>| FrozenView::Absent { path: p });
    assert(two.items.contains(x) <==> one.items.contains(x) || gone.contains(x)) by {
        if one.items.contains(x) {
            assert(two.items[one.items.index_of(x)] == x);
        }
        if gone.contains(x) {
            assert(two.items[one.items.len() + gone.index_of(x)] == x);
        }
        if two.items.contains(x) {
            let k = two.items.index_of(x);
            if k < one.items.len() {
                assert(one.items[k] == x);
            } else {
                assert(gone[k - one.items.len()] == x);
            }
        }
    }
    match x {
        FrozenView::File { path, bytes } => {
            if exists|i: int| is_verified_file(b, files, i, path, bytes) {
                let i = choose|i: int| is_verified_file(b, files, i, path, bytes);
                assert(b.files[i].path == path);
            }
            if one.items.contains(x) {
                let i = choose|i: int|
                    0 <= i < b.files.len() && (#[trigger] b.files[i]).path == path && files[i]
                        == Some(bytes) && primitives::blake3_hex(bytes) == b.files[i].hash;
                assert(is_verified_file(b, files, i, path, bytes));
            }
            if gone.contains(x) {
                let k = gone.index_of(x);
                assert(gone[k] == FrozenView::Absent { path: b.absent[k] });
            }
        },
        FrozenView::Absent { path } => {
            if gone.contains(x) {
                let k = gone.index_of(x);
                assert(b.absent[k] == path);
            }
            if b.absent.contains(path) {
                let k = b.absent.index_of(path);
                assert(gone[k] == x);
            }
        },
        FrozenView::Dir { path, files: laid } => {
            if gone.contains(x) {
                let k = gone.index_of(x);
                assert(gone[k] == FrozenView::Absent { path: b.absent[k] });
            }
            if verdict(b, files, dirs).items.contains(x) {
                let i = choose|i: int| #[trigger] is_from_dir(b.dirs, dirs, i, path, laid);
                law_verified_directory_is_frozen(b.dirs[i], dirs[i]->Files_0);
                assert(b.dirs[i].path == path);
            }
        },
    }
}

/// A directory is in order exactly if every blessed file is found last at its path
/// with a content that hashes to what was blessed, and every file that is found
/// has the path of a blessed one.
pub proof fn law_directory_is_held_to_its_hashes(g: DirView, live: Seq<LiveView>)
    requires
        distinct_paths(live),
    ensures
        dir_problems(g, live).len() == 0 <==> {
            &&& forall|i: int|
                0 <= i < g.files.len() ==> exists|k: int|
                    0 <= k < live.len() && path::steps((#[trigger] live[k]).path) == path::steps(
                        (#[trigger] g.files[i]).path,
                    ) && primitives::blake3_hex(live[k].bytes) == g.files[i].hash
            &&& forall|k: int|
                0 <= k < live.len() ==> exists|i: int|
                    0 <= i < g.files.len() && path::steps((#[trigger] g.files[i]).path)
                        == path::steps((#[trigger] live[k]).path)
        },
{
    law_dir_matches_exactly(g, live);
    assert forall|i: int| 0 <= i < g.files.len() implies (unchanged(live, #[trigger] g.files[i])
        <==> exists|k: int|
        0 <= k < live.len() && path::steps((#[trigger] live[k]).path) == path::steps(
            g.files[i].path,
        ) && primitives::blake3_hex(live[k].bytes) == g.files[i].hash) by {
        let f = g.files[i];
        law_last_content_counts(live, f.path);
        if exists|k: int|
            0 <= k < live.len() && path::steps((#[trigger] live[k]).path) == path::steps(f.path)
                && primitives::blake3_hex(live[k].bytes) == f.hash {
            let k = choose|k: int|
                0 <= k < live.len() && path::steps((#[trigger] live[k]).path) == path::steps(f.path)
                    && primitives::blake3_hex(live[k].bytes) == f.hash;
            lemma_last_live(live, k);
            lemma_last_live_same(live, live[k].path, f.path);
        }
    }
    assert forall|k: int| 0 <= k < live.len() implies (expected(g, (#[trigger] live[k]).path)
        <==> exists|i: int|
        0 <= i < g.files.len() && path::steps((#[trigger] g.files[i]).path) == path::steps(
            live[k].path,
        )) by {
        if expected(g, live[k].path) {
            let i = choose|i: int|
                0 <= i < g.files.len() && path::same((#[trigger] g.files[i]).path, live[k].path);
            assert(path::steps(g.files[i].path) == path::steps(live[k].path));
        }
        if exists|i: int|
            0 <= i < g.files.len() && path::steps((#[trigger] g.files[i]).path) == path::steps(
                live[k].path,
            ) {
            let i = choose|i: int|
                0 <= i < g.files.len() && path::steps((#[trigger] g.files[i]).path) == path::steps(
                    live[k].path,
                );
            assert(path::same(g.files[i].path, live[k].path));
        }
    }
}

proof fn lemma_last_live_same(live: Seq<LiveView>, p: Seq<u8>, q: Seq<u8>)
    requires
        path::steps(p) == path::steps(q),
    ensures
        last_live(live, p) == last_live(live, q),
    decreases live.len(),
{
    if live.len() > 0 {
        lemma_last_live_same(live.drop_last(), p, q);
    }
}

proof fn lemma_entry_told(g: DirView, live: Seq<LiveView>, files: Seq<FileView>, i: int)
    requires
        0 <= i < files.len(),
        entry_problem(g, live, files[i]) is Some,
    ensures
        entry_problems(g, live, files).contains(entry_problem(g, live, files[i])->0),
    decreases files.len(),
{
    let all = entry_problems(g, live, files);
    let init = files.drop_last();
    let rest = entry_problems(g, live, init);
    if i == files.len() - 1 {
        assert(all[all.len() - 1] == entry_problem(g, live, files[i])->0);
    } else {
        assert(init[i] == files[i]);
        lemma_entry_told(g, live, init, i);
        let m = entry_problem(g, live, files[i])->0;
        assert(all[rest.index_of(m)] == m);
    }
}

proof fn lemma_extra_told(g: DirView, live: Seq<LiveView>, i: int)
    requires
        0 <= i < live.len(),
        !expected(g, live[i].path),
    ensures
        extra_problems(g, live).contains(
            "unexpected file in "@ + path::shown(g.path) + ": "@ + path::shown(live[i].path),
        ),
    decreases live.len(),
{
    let all = extra_problems(g, live);
    let init = live.drop_last();
    let rest = extra_problems(g, init);
    let m = "unexpected file in "@ + path::shown(g.path) + ": "@ + path::shown(live[i].path);
    if i == live.len() - 1 {
        assert(all[all.len() - 1] == m);
    } else {
        assert(init[i] == live[i]);
        lemma_extra_told(g, init, i);
        assert(all[rest.index_of(m)] == m);
    }
}

/// Each divergence in a directory is told by its kind, the directory and the file.
pub proof fn law_directory_divergence_is_told(g: DirView, live: Seq<LiveView>)
    ensures
        forall|i: int|
            0 <= i < g.files.len() && (forall|k: int|
                0 <= k < live.len() ==> path::steps((#[trigger] live[k]).path) != path::steps(
                    g.files[i].path,
                )) ==> dir_problems(g, live).contains(
                "missing from "@ + path::shown(g.path) + ": "@ + path::shown(
                    (#[trigger] g.files[i]).path,
                ),
            ),
        forall|i: int|
            0 <= i < g.files.len() && (last_live(live, g.files[i].path) matches Some(b)
                && primitives::blake3_hex(b) != g.files[i].hash) ==> dir_problems(g, live).contains(
                "content changed in "@ + path::shown(g.path) + ": "@ + path::shown(
                    (#[trigger] g.files[i]).path,
                ),
            ),
        forall|k: int|
            0 <= k < live.len() && (forall|i: int|
                0 <= i < g.files.len() ==> path::steps((#[trigger] g.files[i]).path)
                    != path::steps(live[k].path)) ==> dir_problems(g, live).contains(
                "unexpected file in "@ + path::shown(g.path) + ": "@ + path::shown(
                    (#[trigger] live[k]).path,
                ),
            ),
{
    let all = dir_problems(g, live);
    let one = entry_problems(g, live, g.files);
    let two = extra_problems(g, live);
    assert forall|m: Seq<char>| one.contains(m) || two.contains(m) implies #[trigger] all.contains(
        m,
    ) by {
        if one.contains(m) {
            assert(all[one.index_of(m)] == m);
        } else {
            assert(all[one.len() + two.index_of(m)] == m);
        }
    }
    assert forall|i: int|
        0 <= i < g.files.len() && (forall|k: int|
            0 <= k < live.len() ==> path::steps((#[trigger] live[k]).path) != path::steps(
                g.files[i].path,
            )) implies all.contains(
        "missing from "@ + path::shown(g.path) + ": "@ + path::shown((#[trigger] g.files[i]).path),
    ) by {
        law_last_content_counts(live, g.files[i].path);
        lemma_entry_told(g, live, g.files, i);
    }
    assert forall|i: int|
        0 <= i < g.files.len() && (last_live(live, g.files[i].path) matches Some(b)
            && primitives::blake3_hex(b) != g.files[i].hash) implies all.contains(
        "content changed in "@ + path::shown(g.path) + ": "@ + path::shown(
            (#[trigger] g.files[i]).path,
        ),
    ) by {
        lemma_entry_told(g, live, g.files, i);
    }
    assert forall|k: int|
        0 <= k < live.len() && (forall|i: int|
            0 <= i < g.files.len() ==> path::steps((#[trigger] g.files[i]).path) != path::steps(
                live[k].path,
            )) implies all.contains(
        "unexpected file in "@ + path::shown(g.path) + ": "@ + path::shown(
            (#[trigger] live[k]).path,
        ),
    ) by {
        assert(!expected(g, live[k].path)) by {
            if expected(g, live[k].path) {
                let i = choose|i: int|
                    0 <= i < g.files.len() && path::same(
                        (#[trigger] g.files[i]).path,
                        live[k].path,
                    );
                assert(path::steps(g.files[i].path) == path::steps(live[k].path));
            }
        }
        lemma_extra_told(g, live, k);
    }
}

/// A directory that was found as it was blessed is frozen under its path.
pub proof fn law_matching_directory_is_frozen(
    b: BaselineView,
    files: Seq<Option<Seq<u8>>>,
    dirs: Seq<DirSightView>,
    i: int,
)
    requires
        0 <= i < b.dirs.len(),
        dirs[i] is Files,
        dir_problems(b.dirs[i], dirs[i]->Files_0).len() == 0,
    ensures
        exists|laid: Seq<FrozenFileView>| #[trigger]
            verdict(b, files, dirs).items.contains(
                FrozenView::Dir { path: b.dirs[i].path, files: laid },
            ) && is_verified_dir(b.dirs[i], dirs[i]->Files_0, laid),
{
    let laid = frozen_files(b.dirs[i], dirs[i]->Files_0, b.dirs[i].files);
    let x = FrozenView::Dir { path: b.dirs[i].path, files: laid };
    let start = VerdictView { items: Seq::empty(), problems: Seq::empty() };
    let two = start.with_files(b.files, files).with_absent(b.absent);
    lemma_with_dirs_items(two, b.dirs, dirs, x);
    match x {
        FrozenView::Dir { path, files: l } => {
            assert(is_from_dir(b.dirs, dirs, i, path, l));
        },
        _ => {},
    }
    law_verified_directory_is_frozen(b.dirs[i], dirs[i]->Files_0);
    assert(verdict(b, files, dirs).items.contains(x));
}

proof fn lemma_with_files_told(
    v: VerdictView,
    files: Seq<FileView>,
    seen: Seq<Option<Seq<u8>>>,
    i: int,
)
    requires
        0 <= i < files.len(),
    ensures
        seen[i] is None ==> v.with_files(files, seen).problems.contains(
            "missing or unreadable: "@ + path::shown(files[i].path),
        ),
        seen[i] is Some && primitives::blake3_hex(seen[i]->0) != files[i].hash ==> v.with_files(
            files,
            seen,
        ).problems.contains("content changed: "@ + path::shown(files[i].path)),
    decreases files.len(),
{
    let init = files.drop_last();
    let before = v.with_files(init, seen).problems;
    let after = v.with_files(files, seen).problems;
    if i == files.len() - 1 {
        if after.len() > before.len() {
            assert(after[after.len() - 1] == after.last());
        }
    } else {
        assert(init[i] == files[i]);
        lemma_with_files_told(v, init, seen, i);
        assert forall|m: Seq<char>| before.contains(m) implies #[trigger] after.contains(m) by {
            assert(after[before.index_of(m)] == m);
        }
    }
}

proof fn lemma_with_dirs_told(
    v: VerdictView,
    dirs: Seq<DirView>,
    seen: Seq<DirSightView>,
    m: Seq<char>,
)
    ensures
        v.problems.contains(m) ==> v.with_dirs(dirs, seen).problems.contains(m),
        forall|i: int|
            0 <= i < dirs.len() && ((seen[i] matches DirSightView::Files(live) && dir_problems(
                #[trigger] dirs[i],
                live,
            ).contains(m)) || (seen[i] matches DirSightView::Failed(why) && m
                == "cannot read tracked directory "@ + path::shown(dirs[i].path) + ": "@ + why))
                ==> v.with_dirs(dirs, seen).problems.contains(m),
    decreases dirs.len(),
{
    if dirs.len() > 0 {
        let init = dirs.drop_last();
        let n = dirs.len() - 1;
        let before = v.with_dirs(init, seen).problems;
        let after = v.with_dirs(dirs, seen).problems;
        lemma_with_dirs_told(v, init, seen, m);
        if before.contains(m) {
            assert(after[before.index_of(m)] == m);
        }
        assert forall|i: int|
            0 <= i < dirs.len() && ((seen[i] matches DirSightView::Files(live) && dir_problems(
                #[trigger] dirs[i],
                live,
            ).contains(m)) || (seen[i] matches DirSightView::Failed(why) && m
                == "cannot read tracked directory "@ + path::shown(dirs[i].path) + ": "@
                + why)) implies after.contains(m) by {
            if i < n {
                assert(init[i] == dirs[i]);
            } else {
                match seen[i] {
                    DirSightView::Files(live) => {
                        let k = dir_problems(dirs[i], live).index_of(m);
                        assert(after[before.len() + k] == m);
                    },
                    DirSightView::Failed(why) => {
                        assert(after[after.len() - 1] == m);
                    },
                }
            }
        }
    }
}

/// Each divergence is told: a file that is gone or changed, a directory that
/// cannot be read, and everything that is wrong in a directory.
pub proof fn law_every_divergence_is_told(
    b: BaselineView,
    files: Seq<Option<Seq<u8>>>,
    dirs: Seq<DirSightView>,
)
    ensures
        ({
            let told = verdict(b, files, dirs).problems;
            &&& forall|i: int|
                0 <= i < b.files.len() && files[i] is None ==> told.contains(
                    "missing or unreadable: "@ + path::shown((#[trigger] b.files[i]).path),
                )
            &&& forall|i: int|
                0 <= i < b.files.len() && files[i] is Some && primitives::blake3_hex(files[i]->0)
                    != b.files[i].hash ==> told.contains(
                    "content changed: "@ + path::shown((#[trigger] b.files[i]).path),
                )
            &&& forall|i: int|
                0 <= i < b.dirs.len() && dirs[i] is Failed ==> told.contains(
                    "cannot read tracked directory "@ + path::shown((#[trigger] b.dirs[i]).path)
                        + ": "@ + dirs[i]->Failed_0,
                )
            &&& forall|i: int, m: Seq<char>|
                #![trigger b.dirs[i], told.contains(m)]
                0 <= i < b.dirs.len() && dirs[i] is Files && dir_problems(
                    b.dirs[i],
                    dirs[i]->Files_0,
                ).contains(m) ==> told.contains(m)
        }),
{
    let told = verdict(b, files, dirs).problems;
    let start = VerdictView { items: Seq::empty(), problems: Seq::empty() };
    let two = start.with_files(b.files, files).with_absent(b.absent);
    assert forall|i: int| 0 <= i < b.files.len() && files[i] is None implies told.contains(
        "missing or unreadable: "@ + path::shown((#[trigger] b.files[i]).path),
    ) by {
        lemma_with_files_told(start, b.files, files, i);
        lemma_with_dirs_told(
            two,
            b.dirs,
            dirs,
            "missing or unreadable: "@ + path::shown(b.files[i].path),
        );
    }
    assert forall|i: int|
        0 <= i < b.files.len() && files[i] is Some && primitives::blake3_hex(files[i]->0)
            != b.files[i].hash implies told.contains(
        "content changed: "@ + path::shown((#[trigger] b.files[i]).path),
    ) by {
        lemma_with_files_told(start, b.files, files, i);
        lemma_with_dirs_told(
            two,
            b.dirs,
            dirs,
            "content changed: "@ + path::shown(b.files[i].path),
        );
    }
    assert forall|i: int| 0 <= i < b.dirs.len() && dirs[i] is Failed implies told.contains(
        "cannot read tracked directory "@ + path::shown((#[trigger] b.dirs[i]).path) + ": "@
            + dirs[i]->Failed_0,
    ) by {
        lemma_with_dirs_told(
            two,
            b.dirs,
            dirs,
            "cannot read tracked directory "@ + path::shown(b.dirs[i].path) + ": "@
                + dirs[i]->Failed_0,
        );
    }
    assert forall|i: int, m: Seq<char>|
        #![trigger b.dirs[i], told.contains(m)]
        0 <= i < b.dirs.len() && dirs[i] is Files && dir_problems(
            b.dirs[i],
            dirs[i]->Files_0,
        ).contains(m) implies told.contains(m) by {
        lemma_with_dirs_told(two, b.dirs, dirs, m);
    }
}

/// A refusal tells every problem in full.
pub proof fn law_refusal_tells_every_problem(problems: Seq<Seq<char>>, i: int)
    requires
        0 <= i < problems.len(),
    ensures
        exists|k: int|
            0 <= k && k + problems[i].len() <= refusal(problems).len() && #[trigger] refusal(
                problems,
            ).subrange(k, k + problems[i].len()) == problems[i],
{
    let head = "config integrity check failed — refusing to run:\n  "@;
    let tail = "\nIf these changes are intended, re-bless with `sudo envvault baseline set`."@;
    let body = text::joined_with(problems, "\n  "@);
    let k = text::lemma_joined_holds(problems, "\n  "@, i);
    let m = problems[i].len() as int;
    let at = head.len() + k;
    assert(refusal(problems) =~= head + body + tail);
    assert(refusal(problems).subrange(at, at + m) =~= body.subrange(k, k + m));
}

} // verus!
