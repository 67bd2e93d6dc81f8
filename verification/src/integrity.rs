//! Integrity baselines: which files a user relies on, what they held when they
//! were blessed, and whether they still hold it.
use crate::order;
use crate::order::Ranked;
use crate::path;
use crate::path::FsPath;
use crate::primitives;
use crate::secret::SecretBytes;
use crate::tree::LiveFile;
use crate::tree::LiveView;
use vstd::prelude::*;

pub mod text_form;
pub mod verifying;

pub use crate::store::baseline_path;
pub use crate::store::valid_user;
pub use crate::store::BASELINE_DIR;
pub use text_form::BaselineError;
pub use verifying::check;
pub use verifying::verify_and_collect;
pub use verifying::verify_dir;
pub use verifying::FrozenItem;

verus! {

/// Files above this size are not tracked: 64 MiB.
pub const MAX_TRACKED_FILE: u64 = 67108864;

/// A tracked file and the hash of its content.
pub struct FileEntry {
    pub path: FsPath,
    pub hash: String,
}

#[verifier::ext_equal]
pub struct FileView {
    pub path: Seq<u8>,
    pub hash: Seq<char>,
}

impl View for FileEntry {
    type V = FileView;

    open spec fn view(&self) -> FileView {
        FileView { path: self.path@, hash: self.hash@ }
    }
}

/// A tracked directory and every file that it held when it was blessed.
pub struct DirGroup {
    pub path: FsPath,
    pub files: Vec<FileEntry>,
}

#[verifier::ext_equal]
pub struct DirView {
    pub path: Seq<u8>,
    pub files: Seq<FileView>,
}

impl View for DirGroup {
    type V = DirView;

    open spec fn view(&self) -> DirView {
        DirView { path: self.path@, files: order::views(self.files@) }
    }
}

/// Standalone files, directory trees, and paths that were absent.
pub struct Baseline {
    files: Vec<FileEntry>,
    dirs: Vec<DirGroup>,
    absent: Vec<FsPath>,
}

#[verifier::ext_equal]
pub struct BaselineView {
    pub files: Seq<FileView>,
    pub dirs: Seq<DirView>,
    pub absent: Seq<Seq<u8>>,
}

impl View for Baseline {
    type V = BaselineView;

    closed spec fn view(&self) -> BaselineView {
        BaselineView {
            files: order::views(self.files@),
            dirs: order::views(self.dirs@),
            absent: order::views(self.absent@),
        }
    }
}

/// Files are ordered by their paths.
impl Ranked for FileEntry {
    open spec fn precedes(a: FileView, b: FileView) -> bool {
        path::before(a.path, b.path)
    }

    proof fn one_way(a: FileView, b: FileView) {
        path::lemma_before_one_way(a.path, b.path);
    }

    proof fn chained(a: FileView, b: FileView, c: FileView) {
        path::lemma_before_chained(a.path, b.path, c.path);
    }

    fn is_ahead_of(&self, other: &Self) -> (r: bool) {
        self.path.is_before(&other.path)
    }
}

/// Directories are ordered by their paths.
impl Ranked for DirGroup {
    open spec fn precedes(a: DirView, b: DirView) -> bool {
        path::before(a.path, b.path)
    }

    proof fn one_way(a: DirView, b: DirView) {
        path::lemma_before_one_way(a.path, b.path);
    }

    proof fn chained(a: DirView, b: DirView, c: DirView) {
        path::lemma_before_chained(a.path, b.path, c.path);
    }

    fn is_ahead_of(&self, other: &Self) -> (r: bool) {
        self.path.is_before(&other.path)
    }
}

/// A directory named by a baseline file; longer paths come first.
pub struct Declared {
    pub path: FsPath,
}

impl View for Declared {
    type V = Seq<u8>;

    open spec fn view(&self) -> Seq<u8> {
        self.path@
    }
}

impl Ranked for Declared {
    open spec fn precedes(a: Seq<u8>, b: Seq<u8>) -> bool {
        a.len() > b.len()
    }

    proof fn one_way(a: Seq<u8>, b: Seq<u8>) {
    }

    proof fn chained(a: Seq<u8>, b: Seq<u8>, c: Seq<u8>) {
    }

    fn is_ahead_of(&self, other: &Self) -> (r: bool) {
        self.path.as_bytes().len() > other.path.as_bytes().len()
    }
}

/// Whether a hash holds neither a tab nor a line feed.
pub open spec fn plain_hash(hash: Seq<char>) -> bool {
    !hash.contains('\t') && !hash.contains('\n')
}

/// How many entries a list of directories has.
pub open spec fn dir_total(dirs: Seq<DirView>) -> nat
    decreases dirs.len(),
{
    if dirs.len() == 0 {
        0
    } else {
        dir_total(dirs.drop_last()) + dirs.last().files.len()
    }
}

impl BaselineView {
    /// How many entries there are: files, files in directories and absences.
    pub open spec fn total(self) -> nat {
        self.files.len() + self.absent.len() + dir_total(self.dirs)
    }

    /// Whether every hash can stand in a field of a line.
    pub open spec fn plain(self) -> bool {
        &&& forall|f: FileView| #[trigger] self.files.contains(f) ==> plain_hash(f.hash)
        &&& forall|d: DirView, f: FileView|
            #![trigger self.dirs.contains(d), d.files.contains(f)]
            self.dirs.contains(d) && d.files.contains(f) ==> plain_hash(f.hash)
    }

    /// Whether `p` is tracked by an entry of its own.
    pub open spec fn has_entry(self, p: Seq<u8>) -> bool {
        ||| exists|i: int| 0 <= i < self.dirs.len() && path::same((#[trigger] self.dirs[i]).path, p)
        ||| exists|i: int|
            0 <= i < self.files.len() && path::same((#[trigger] self.files[i]).path, p)
        ||| exists|i: int| 0 <= i < self.absent.len() && path::same(#[trigger] self.absent[i], p)
    }
}

/// A number, or the largest `usize` if it is larger.
pub open spec fn capped(n: nat) -> nat {
    if n <= usize::MAX {
        n
    } else {
        usize::MAX as nat
    }
}

fn add_capped(a: usize, b: usize) -> (r: usize)
    ensures
        r == capped((a + b) as nat),
{
    if b > usize::MAX - a {
        usize::MAX
    } else {
        a + b
    }
}

/// Whether directory `d` holds `p` and is not `p`.
pub open spec fn inside(p: Seq<u8>, d: Seq<u8>) -> bool {
    !path::same(p, d) && path::below(p, d)
}

/// The first directory that holds `p` and is not `p`.
pub open spec fn first_cover(dirs: Seq<DirView>, p: Seq<u8>) -> Option<Seq<u8>>
    decreases dirs.len(),
{
    if dirs.len() == 0 {
        None
    } else {
        match first_cover(dirs.drop_last(), p) {
            Some(d) => Some(d),
            None => if inside(p, dirs.last().path) {
                Some(dirs.last().path)
            } else {
                None
            },
        }
    }
}

proof fn lemma_first_cover(dirs: Seq<DirView>, n: int, p: Seq<u8>)
    requires
        0 <= n <= dirs.len(),
        first_cover(dirs.take(n), p) is Some,
    ensures
        first_cover(dirs, p) == first_cover(dirs.take(n), p),
    decreases dirs.len() - n,
{
    if n == dirs.len() {
        assert(dirs.take(n) == dirs);
    } else {
        assert(dirs.take(n + 1).drop_last() == dirs.take(n));
        lemma_first_cover(dirs, n + 1, p);
    }
}

/// Whether directory `d` holds `p` and is not `p`.
fn covers(d: &FsPath, p: &FsPath) -> (r: bool)
    ensures
        r == inside(p@, d@),
{
    !p.is_same(d) && p.starts_with(d)
}

impl Baseline {
    /// The standalone files.
    pub fn files(&self) -> (r: &[FileEntry])
        ensures
            order::views(r@) == self@.files,
    {
        self.files.as_slice()
    }

    /// The directories.
    pub fn dirs(&self) -> (r: &[DirGroup])
        ensures
            order::views(r@) == self@.dirs,
    {
        self.dirs.as_slice()
    }

    /// The absent paths.
    pub fn absent(&self) -> (r: &[FsPath])
        ensures
            order::views(r@) == self@.absent,
    {
        self.absent.as_slice()
    }

    /// How many entries there are, for messages.
    pub fn len(&self) -> (r: usize)
        ensures
            r == capped(self@.total()),
    {
        let ghost trees = order::views(self.dirs@);
        let mut n: usize = 0;
        let mut i: usize = 0;
        assert(trees.take(0) == Seq::<DirView>::empty());
        while i < self.dirs.len()
            invariant
                i <= self.dirs@.len(),
                trees == order::views(self.dirs@),
                n == capped(dir_total(trees.take(i as int))),
            decreases self.dirs.len() - i,
        {
            assert(trees.take(i + 1).drop_last() == trees.take(i as int));
            n = add_capped(n, self.dirs[i].files.len());
            i += 1;
        }
        assert(trees.take(trees.len() as int) == trees);
        add_capped(add_capped(n, self.files.len()), self.absent.len())
    }

    /// Whether there are no entries.
    pub fn is_empty(&self) -> (r: bool)
        ensures
            r == (self@.total() == 0),
    {
        if self.files.len() > 0 || self.absent.len() > 0 {
            return false;
        }
        let ghost trees = order::views(self.dirs@);
        let mut i: usize = 0;
        assert(trees.take(0) == Seq::<DirView>::empty());
        while i < self.dirs.len()
            invariant
                i <= self.dirs@.len(),
                trees == order::views(self.dirs@),
                trees == self@.dirs,
                dir_total(trees.take(i as int)) == 0,
            decreases self.dirs.len() - i,
        {
            proof {
                assert(trees.take(i + 1).drop_last() == trees.take(i as int));
                lemma_dir_total_grows(trees, i + 1);
            }
            if self.dirs[i].files.len() > 0 {
                return false;
            }
            i += 1;
        }
        assert(trees.take(trees.len() as int) == trees);
        true
    }

    /// Whether `p` is tracked by an entry of its own.
    pub fn tracks(&self, p: &FsPath) -> (r: bool)
        ensures
            r == self@.has_entry(p@),
    {
        let mut i: usize = 0;
        while i < self.dirs.len()
            invariant
                i <= self.dirs@.len(),
                forall|j: int| 0 <= j < i ==> !path::same((#[trigger] self@.dirs[j]).path, p@),
            decreases self.dirs.len() - i,
        {
            assert(self@.dirs[i as int].path == self.dirs@[i as int].path@);
            if self.dirs[i].path.is_same(p) {
                return true;
            }
            i += 1;
        }
        let mut i: usize = 0;
        while i < self.files.len()
            invariant
                i <= self.files@.len(),
                forall|j: int| 0 <= j < i ==> !path::same((#[trigger] self@.files[j]).path, p@),
            decreases self.files.len() - i,
        {
            assert(self@.files[i as int].path == self.files@[i as int].path@);
            if self.files[i].path.is_same(p) {
                return true;
            }
            i += 1;
        }
        let mut i: usize = 0;
        while i < self.absent.len()
            invariant
                i <= self.absent@.len(),
                forall|j: int| 0 <= j < i ==> !path::same(#[trigger] self@.absent[j], p@),
            decreases self.absent.len() - i,
        {
            assert(self@.absent[i as int] == self.absent@[i as int]@);
            if self.absent[i].is_same(p) {
                return true;
            }
            i += 1;
        }
        false
    }

    /// The first tracked directory that holds `p` and is not `p`.
    pub fn covered_by_dir(&self, p: &FsPath) -> (r: Option<FsPath>)
        ensures
            match r {
                Some(d) => first_cover(self@.dirs, p@) == Some(d@),
                None => first_cover(self@.dirs, p@) is None,
            },
    {
        let ghost trees = self@.dirs;
        let mut i: usize = 0;
        assert(trees.take(0) == Seq::<DirView>::empty());
        while i < self.dirs.len()
            invariant
                i <= self.dirs@.len(),
                trees == order::views(self.dirs@),
                trees == self@.dirs,
                first_cover(trees.take(i as int), p@) is None,
            decreases self.dirs.len() - i,
        {
            proof {
                assert(trees[i as int].path == self.dirs@[i as int].path@);
                assert(trees.take(i + 1).drop_last() == trees.take(i as int));
                assert(trees.take(i + 1).last() == trees[i as int]);
            }
            if covers(&self.dirs[i].path, p) {
                proof {
                    lemma_first_cover(trees, i + 1, p@);
                }
                return Some(self.dirs[i].path.clone());
            }
            i += 1;
        }
        assert(trees.take(trees.len() as int) == trees);
        None
    }
}

proof fn lemma_dir_total_grows(dirs: Seq<DirView>, n: int)
    requires
        0 <= n <= dirs.len(),
    ensures
        dir_total(dirs.take(n)) <= dir_total(dirs),
    decreases dirs.len() - n,
{
    if n == dirs.len() {
        assert(dirs.take(n) == dirs);
    } else {
        assert(dirs.take(n + 1).drop_last() == dirs.take(n));
        lemma_dir_total_grows(dirs, n + 1);
    }
}

/// Entries that stand for a path.
pub trait Located: View + Sized {
    spec fn place(v: Self::V) -> Seq<u8>;

    fn location(&self) -> (r: &FsPath)
        ensures
            r@ == Self::place(self@),
    ;
}

impl Located for FileEntry {
    open spec fn place(v: FileView) -> Seq<u8> {
        v.path
    }

    fn location(&self) -> (r: &FsPath) {
        &self.path
    }
}

impl Located for DirGroup {
    open spec fn place(v: DirView) -> Seq<u8> {
        v.path
    }

    fn location(&self) -> (r: &FsPath) {
        &self.path
    }
}

impl Located for FsPath {
    open spec fn place(v: Seq<u8>) -> Seq<u8> {
        v
    }

    fn location(&self) -> (r: &FsPath) {
        self
    }
}

/// The entries that stand for another path than `p`.
pub open spec fn elsewhere<T: Located>(s: Seq<T::V>, p: Seq<u8>) -> Seq<T::V>
    decreases s.len(),
{
    if s.len() == 0 {
        s
    } else {
        let rest = elsewhere::<T>(s.drop_last(), p);
        if path::same(T::place(s.last()), p) {
            rest
        } else {
            rest.push(s.last())
        }
    }
}

/// Whether an entry stands for `p`.
pub open spec fn stands_for<T: Located>(s: Seq<T::V>, p: Seq<u8>) -> bool {
    exists|i: int| 0 <= i < s.len() && path::same(T::place(#[trigger] s[i]), p)
}

/// The entries that stand for another path are those that were, and all of them.
pub proof fn lemma_elsewhere<T: Located>(s: Seq<T::V>, p: Seq<u8>)
    ensures
        elsewhere::<T>(s, p).len() <= s.len(),
        stands_for::<T>(s, p) <==> elsewhere::<T>(s, p).len() < s.len(),
        !stands_for::<T>(elsewhere::<T>(s, p), p),
        forall|x: T::V|
            #[trigger] elsewhere::<T>(s, p).contains(x) <==> s.contains(x) && !path::same(
                T::place(x),
                p,
            ),
    decreases s.len(),
{
    let r = elsewhere::<T>(s, p);
    if s.len() > 0 {
        let init = s.drop_last();
        let last = s.last();
        let rest = elsewhere::<T>(init, p);
        lemma_elsewhere::<T>(init, p);
        if path::same(T::place(last), p) {
            assert(path::same(T::place(s[s.len() - 1]), p));
        } else {
            if stands_for::<T>(s, p) {
                let i = choose|i: int| 0 <= i < s.len() && path::same(T::place(#[trigger] s[i]), p);
                assert(init[i] == s[i]);
            }
            if stands_for::<T>(init, p) {
                let i = choose|i: int|
                    0 <= i < init.len() && path::same(T::place(#[trigger] init[i]), p);
                assert(s[i] == init[i]);
            }
            if stands_for::<T>(r, p) {
                let i = choose|i: int| 0 <= i < r.len() && path::same(T::place(#[trigger] r[i]), p);
                assert(rest[i] == r[i]);
            }
        }
        assert forall|x: T::V| #[trigger] r.contains(x) <==> s.contains(x) && !path::same(
            T::place(x),
            p,
        ) by {
            assert(s.contains(x) <==> init.contains(x) || x == last) by {
                assert(s =~= init.push(last));
                if init.contains(x) {
                    let i = init.index_of(x);
                    assert(s[i] == x);
                }
                assert(s[s.len() - 1] == last);
                if s.contains(x) && x != last {
                    let i = s.index_of(x);
                    assert(init[i] == x);
                }
            }
            if !path::same(T::place(last), p) {
                assert(r.contains(x) <==> rest.contains(x) || x == last) by {
                    if rest.contains(x) {
                        let i = rest.index_of(x);
                        assert(r[i] == x);
                    }
                    assert(r[r.len() - 1] == last);
                    if r.contains(x) && x != last {
                        let i = r.index_of(x);
                        assert(rest[i] == x);
                    }
                }
            }
            assert(rest.contains(x) <==> init.contains(x) && !path::same(T::place(x), p));
        }
    }
}

/// Drops the entries that stand for `p` and says whether there were any.
fn drop_entries<T: Located>(v: &mut Vec<T>, p: &FsPath) -> (hit: bool)
    ensures
        order::views(final(v)@) == elsewhere::<T>(order::views(old(v)@), p@),
        hit == stands_for::<T>(order::views(old(v)@), p@),
{
    let ghost all = order::views(v@);
    let n = v.len();
    let mut i: usize = 0;
    let ghost mut seen: int = 0;
    assert(all.take(0) == Seq::<T::V>::empty());
    assert(all =~= elsewhere::<T>(all.take(0), p@) + all.skip(0));
    while i < v.len()
        invariant
            0 <= seen <= all.len(),
            i <= v@.len(),
            i == elsewhere::<T>(all.take(seen), p@).len(),
            v@.len() - i == all.len() - seen,
            order::views(v@) == elsewhere::<T>(all.take(seen), p@) + all.skip(seen),
        decreases v@.len() - i,
    {
        let ghost kept = elsewhere::<T>(all.take(seen), p@);
        let ghost items = v@;
        proof {
            assert(order::views(v@)[i as int] == all[seen]);
            assert(all.take(seen + 1).drop_last() == all.take(seen));
            assert(all.take(seen + 1).last() == all[seen]);
        }
        if v[i].location().is_same(p) {
            v.remove(i);
            proof {
                assert(v@ == items.remove(i as int));
                assert forall|k: int| 0 <= k < v@.len() implies order::views(v@)[k] == (kept
                    + all.skip(seen + 1))[k] by {
                    if k < i {
                        assert(v@[k] == items[k]);
                        assert(order::views(items)[k] == kept[k]);
                    } else {
                        assert(v@[k] == items[k + 1]);
                        assert(order::views(items)[k + 1] == all.skip(seen)[k + 1 - i]);
                    }
                }
                assert(order::views(v@) =~= kept + all.skip(seen + 1));
            }
        } else {
            i += 1;
            assert(kept + all.skip(seen) =~= kept.push(all[seen]) + all.skip(seen + 1));
        }
        proof {
            seen = seen + 1;
        }
    }
    proof {
        assert(all.take(all.len() as int) == all);
        assert(order::views(v@) =~= elsewhere::<T>(all, p@));
        lemma_elsewhere::<T>(all, p@);
    }
    v.len() != n
}

impl BaselineView {
    /// The baseline without the entries that stand for `p`.
    pub open spec fn without(self, p: Seq<u8>) -> BaselineView {
        BaselineView {
            files: elsewhere::<FileEntry>(self.files, p),
            dirs: elsewhere::<DirGroup>(self.dirs, p),
            absent: elsewhere::<FsPath>(self.absent, p),
        }
    }

    /// The baseline without the entries that stand for any of `paths`.
    pub open spec fn without_all(self, paths: Seq<Seq<u8>>) -> BaselineView
        decreases paths.len(),
    {
        if paths.len() == 0 {
            self
        } else {
            self.without_all(paths.drop_last()).without(paths.last())
        }
    }

    /// Those of `paths` that still had an entry when their turn came.
    pub open spec fn taken_out(self, paths: Seq<Seq<u8>>) -> Seq<Seq<u8>>
        decreases paths.len(),
    {
        if paths.len() == 0 {
            Seq::empty()
        } else {
            let rest = self.taken_out(paths.drop_last());
            if self.without_all(paths.drop_last()).has_entry(paths.last()) {
                rest.push(paths.last())
            } else {
                rest
            }
        }
    }

    /// The entries of both, this baseline's first.
    pub open spec fn with(self, other: BaselineView) -> BaselineView {
        BaselineView {
            files: self.files + other.files,
            dirs: self.dirs + other.dirs,
            absent: self.absent + other.absent,
        }
    }

    /// The same entries by path.
    pub open spec fn in_order(self) -> BaselineView {
        BaselineView {
            files: order::sorted::<FileEntry>(self.files),
            dirs: order::sorted::<DirGroup>(self.dirs),
            absent: order::sorted::<FsPath>(self.absent),
        }
    }
}

proof fn lemma_has_entry(b: BaselineView, p: Seq<u8>)
    ensures
        b.has_entry(p) <==> stands_for::<DirGroup>(b.dirs, p) || stands_for::<FileEntry>(b.files, p)
            || stands_for::<FsPath>(b.absent, p),
{
    if stands_for::<DirGroup>(b.dirs, p) {
        let i = choose|i: int|
            0 <= i < b.dirs.len() && path::same(DirGroup::place(#[trigger] b.dirs[i]), p);
        assert(path::same(b.dirs[i].path, p));
    }
    if stands_for::<FileEntry>(b.files, p) {
        let i = choose|i: int|
            0 <= i < b.files.len() && path::same(FileEntry::place(#[trigger] b.files[i]), p);
        assert(path::same(b.files[i].path, p));
    }
    if stands_for::<FsPath>(b.absent, p) {
        let i = choose|i: int|
            0 <= i < b.absent.len() && path::same(FsPath::place(#[trigger] b.absent[i]), p);
        assert(path::same(b.absent[i], p));
    }
    if b.has_entry(p) {
        if exists|i: int| 0 <= i < b.dirs.len() && path::same((#[trigger] b.dirs[i]).path, p) {
            let i = choose|i: int|
                0 <= i < b.dirs.len() && path::same((#[trigger] b.dirs[i]).path, p);
            assert(path::same(DirGroup::place(b.dirs[i]), p));
        } else if exists|i: int|
            0 <= i < b.files.len() && path::same((#[trigger] b.files[i]).path, p) {
            let i = choose|i: int|
                0 <= i < b.files.len() && path::same((#[trigger] b.files[i]).path, p);
            assert(path::same(FileEntry::place(b.files[i]), p));
        } else {
            let i = choose|i: int| 0 <= i < b.absent.len() && path::same(#[trigger] b.absent[i], p);
            assert(path::same(FsPath::place(b.absent[i]), p));
        }
    }
}

impl Baseline {
    /// Drops the entries for `paths`; a directory's go with its files. Returns
    /// the paths that had an entry.
    pub fn remove_top_level(&mut self, paths: &[FsPath]) -> (r: Vec<FsPath>)
        ensures
            old(self)@.plain() ==> final(self)@.plain(),
            final(self)@ == old(self)@.without_all(order::views(paths@)),
            order::views(r@) == old(self)@.taken_out(order::views(paths@)),
    {
        let ghost all = order::views(paths@);
        let mut r: Vec<FsPath> = Vec::new();
        let mut i: usize = 0;
        assert(all.take(0) == Seq::<Seq<u8>>::empty());
        assert(order::views(r@) =~= Seq::<Seq<u8>>::empty());
        while i < paths.len()
            invariant
                i <= paths@.len(),
                all == order::views(paths@),
                self@ == old(self)@.without_all(all.take(i as int)),
                order::views(r@) == old(self)@.taken_out(all.take(i as int)),
            decreases paths.len() - i,
        {
            let ghost now = self@;
            let ghost done = r@;
            let p = &paths[i];
            let in_dirs = drop_entries(&mut self.dirs, p);
            let in_files = drop_entries(&mut self.files, p);
            let in_absent = drop_entries(&mut self.absent, p);
            proof {
                lemma_has_entry(now, p@);
                assert(all.take(i + 1).drop_last() == all.take(i as int));
                assert(all.take(i + 1).last() == p@);
                assert(self@ =~= now.without(p@));
            }
            if in_dirs || in_files || in_absent {
                let copy = p.clone();
                r.push(copy);
                assert(order::views(r@) =~= order::views(done).push(copy@));
            }
            i += 1;
        }
        assert(all.take(all.len() as int) == all);
        proof {
            law_dropping_keeps_others(old(self)@, all);
            if old(self)@.plain() {
                let now = self@;
                assert forall|d: DirView, f: FileView|
                    #![trigger now.dirs.contains(d), d.files.contains(f)]
                    now.dirs.contains(d) && d.files.contains(f) implies plain_hash(f.hash) by {
                    assert(old(self)@.dirs.contains(d));
                }
            }
        }
        r
    }

    /// Adds the entries of another baseline.
    fn merge(&mut self, other: Baseline)
        ensures
            old(self)@.plain() && other@.plain() ==> final(self)@.plain(),
            final(self)@ == old(self)@.with(other@),
    {
        let mut other = other;
        let ghost theirs = other@;
        let ghost a = (self.files@, self.dirs@, self.absent@);
        let ghost b = (other.files@, other.dirs@, other.absent@);
        self.files.append(&mut other.files);
        self.dirs.append(&mut other.dirs);
        self.absent.append(&mut other.absent);
        proof {
            assert(order::views(a.0 + b.0) =~= order::views(a.0) + order::views(b.0));
            assert(order::views(a.1 + b.1) =~= order::views(a.1) + order::views(b.1));
            assert(order::views(a.2 + b.2) =~= order::views(a.2) + order::views(b.2));
            assert(self@ =~= old(self)@.with(theirs));
            if old(self)@.plain() && theirs.plain() {
                let now = self@;
                let before = old(self)@;
                assert forall|f: FileView| #[trigger] now.files.contains(f) implies plain_hash(
                    f.hash,
                ) by {
                    lemma_either(before.files, theirs.files, f);
                }
                assert forall|d: DirView, f: FileView|
                    #![trigger now.dirs.contains(d), d.files.contains(f)]
                    now.dirs.contains(d) && d.files.contains(f) implies plain_hash(f.hash) by {
                    lemma_either(before.dirs, theirs.dirs, d);
                }
            }
        }
    }

    /// Sorts the entries by path.
    fn sort(&mut self)
        ensures
            final(self)@ == old(self)@.in_order(),
            old(self)@.plain() ==> final(self)@.plain(),
    {
        order::sort(&mut self.files);
        order::sort(&mut self.dirs);
        order::sort(&mut self.absent);
        proof {
            let before = old(self)@;
            let now = self@;
            if before.plain() {
                assert forall|f: FileView| #[trigger] now.files.contains(f) implies plain_hash(
                    f.hash,
                ) by {
                    verifying::lemma_sorted_contains::<FileEntry>(before.files, f);
                }
                assert forall|d: DirView, f: FileView|
                    #![trigger now.dirs.contains(d), d.files.contains(f)]
                    now.dirs.contains(d) && d.files.contains(f) implies plain_hash(f.hash) by {
                    verifying::lemma_sorted_contains::<DirGroup>(before.dirs, d);
                }
            }
        }
    }
}

/// What was found at a path that is to be tracked.
pub enum Sight {
    /// There is nothing.
    Missing,
    /// A directory, with the files in it.
    Dir(Vec<LiveFile>),
    /// A regular file, or a link to one.
    File(SecretBytes),
    /// A socket, a pipe or a device.
    Special,
    /// It could not be read, or is too large.
    Unreadable,
}

pub enum SightView {
    Missing,
    Dir(Seq<LiveView>),
    File(Seq<u8>),
    Special,
    Unreadable,
}

impl View for Sight {
    type V = SightView;

    open spec fn view(&self) -> SightView {
        match self {
            Sight::Missing => SightView::Missing,
            Sight::Dir(files) => SightView::Dir(order::views(files@)),
            Sight::File(bytes) => SightView::File(bytes@),
            Sight::Special => SightView::Special,
            Sight::Unreadable => SightView::Unreadable,
        }
    }
}

/// The entry of a file that was found.
pub open spec fn blessed(f: LiveView) -> FileView {
    FileView { path: f.path, hash: primitives::blake3_hex(f.bytes) }
}

/// The entries of files that were found.
pub open spec fn all_blessed(files: Seq<LiveView>) -> Seq<FileView> {
    files.map_values(|f: LiveView| blessed(f))
}

impl BaselineView {
    /// The baseline with what was found at `p`. Special files are skipped.
    pub open spec fn with_sight(self, p: Seq<u8>, s: SightView) -> BaselineView {
        match s {
            SightView::Missing => BaselineView { absent: self.absent.push(p), ..self },
            SightView::Dir(files) => BaselineView {
                dirs: self.dirs.push(
                    DirView { path: p, files: order::sorted::<FileEntry>(all_blessed(files)) },
                ),
                ..self
            },
            SightView::File(bytes) => BaselineView {
                files: self.files.push(blessed(LiveView { path: p, bytes })),
                ..self
            },
            _ => self,
        }
    }
}

/// What was found at each path, in the order of the paths.
pub open spec fn gathered(tracks: Seq<Seq<u8>>, seen: Seq<SightView>) -> BaselineView
    decreases tracks.len(),
{
    if tracks.len() == 0 || seen.len() == 0 {
        BaselineView { files: Seq::empty(), dirs: Seq::empty(), absent: Seq::empty() }
    } else {
        gathered(tracks.drop_last(), seen.drop_last()).with_sight(tracks.last(), seen.last())
    }
}

/// Whether a file of so many bytes can be tracked.
pub fn is_trackable(len: u64) -> (r: bool)
    ensures
        r == (len <= MAX_TRACKED_FILE),
        r == (len <= 64 * 1024 * 1024),
{
    len <= MAX_TRACKED_FILE
}

/// A fresh baseline over `paths` from what was found at each of them, sorted by
/// path. The error is the index of the first path that could not be read.
pub fn compute(paths: &[FsPath], seen: &[Sight]) -> (r: Result<Baseline, usize>)
    requires
        paths@.len() == seen@.len(),
    ensures
        match r {
            Ok(b) => {
                &&& forall|i: int| 0 <= i < seen@.len() ==> !((#[trigger] seen@[i]) is Unreadable)
                &&& b@ == gathered(order::views(paths@), order::views(seen@)).in_order()
                &&& b@.plain()
            },
            Err(n) => {
                &&& n < seen@.len()
                &&& seen@[n as int] is Unreadable
                &&& forall|i: int| 0 <= i < n ==> !((#[trigger] seen@[i]) is Unreadable)
            },
        },
{
    let ghost p = order::views(paths@);
    let ghost s = order::views(seen@);
    let mut b = Baseline { files: Vec::new(), dirs: Vec::new(), absent: Vec::new() };
    let mut i: usize = 0;
    proof {
        assert(p.take(0) == Seq::<Seq<u8>>::empty());
        assert(b@ =~= gathered(p.take(0), s.take(0)));
    }
    while i < paths.len()
        invariant
            paths@.len() == seen@.len(),
            i <= paths@.len(),
            p == order::views(paths@),
            s == order::views(seen@),
            b@ == gathered(p.take(i as int), s.take(i as int)),
            b@.plain(),
            forall|j: int| 0 <= j < i ==> !((#[trigger] seen@[j]) is Unreadable),
        decreases paths.len() - i,
    {
        let ghost now = b@;
        let ghost items = (b.files@, b.dirs@, b.absent@);
        let place = paths[i].clone();
        proof {
            assert(p.take(i + 1).drop_last() == p.take(i as int));
            assert(s.take(i + 1).drop_last() == s.take(i as int));
            assert(p.take(i + 1).last() == place@);
            assert(s.take(i + 1).last() == seen@[i as int]@);
        }
        match &seen[i] {
            Sight::Missing => {
                b.absent.push(place);
                assert(order::views(b.absent@) =~= order::views(items.2).push(place@));
            },
            Sight::Dir(files) => {
                let mut entries = bless_all(files);
                let ghost found = order::views(entries@);
                order::sort(&mut entries);
                let g = DirGroup { path: place, files: entries };
                b.dirs.push(g);
                proof {
                    assert(order::views(b.dirs@) =~= order::views(items.1).push(g@));
                    assert forall|d: DirView, f: FileView|
                        #![trigger b@.dirs.contains(d), d.files.contains(f)]
                        b@.dirs.contains(d) && d.files.contains(f) implies plain_hash(f.hash) by {
                        lemma_either(now.dirs, seq![g@], d);
                        assert(now.dirs + seq![g@] =~= b@.dirs);
                        if !now.dirs.contains(d) {
                            verifying::lemma_sorted_contains::<FileEntry>(found, f);
                        }
                    }
                }
            },
            Sight::File(bytes) => {
                let f = FileEntry { path: place, hash: primitives::blake3_digest(bytes.as_slice()) };
                b.files.push(f);
                proof {
                    assert(order::views(b.files@) =~= order::views(items.0).push(f@));
                    lemma_hex_is_plain(f.hash@);
                    assert forall|e: FileView| #[trigger] b@.files.contains(e) implies plain_hash(
                        e.hash,
                    ) by {
                        lemma_either(now.files, seq![f@], e);
                        assert(now.files + seq![f@] =~= b@.files);
                    }
                }
            },
            Sight::Special => {},
            Sight::Unreadable => {
                return Err(i);
            },
        }
        assert(b@ =~= now.with_sight(place@, seen@[i as int]@));
        i += 1;
    }
    assert(p.take(p.len() as int) == p);
    assert(s.take(s.len() as int) == s);
    b.sort();
    Ok(b)
}

/// Hexadecimal digits can stand in a field of a line.
proof fn lemma_hex_is_plain(hash: Seq<char>)
    requires
        forall|i: int| 0 <= i < hash.len() ==> primitives::is_hex(#[trigger] hash[i]),
    ensures
        plain_hash(hash),
{
}

/// The entries of files that were found.
fn bless_all(files: &Vec<LiveFile>) -> (r: Vec<FileEntry>)
    ensures
        order::views(r@) == all_blessed(order::views(files@)),
        forall|f: FileView| #[trigger] order::views(r@).contains(f) ==> plain_hash(f.hash),
{
    let mut r: Vec<FileEntry> = Vec::new();
    let mut i: usize = 0;
    while i < files.len()
        invariant
            i <= files@.len(),
            r@.len() == i,
            forall|j: int|
                0 <= j < i ==> (#[trigger] r@[j])@ == blessed(files@[j]@) && plain_hash(
                    r@[j].hash@,
                ),
        decreases files.len() - i,
    {
        let f = &files[i];
        let hash = primitives::blake3_digest(f.bytes.as_slice());
        proof {
            lemma_hex_is_plain(hash@);
        }
        r.push(FileEntry { path: f.path.clone(), hash });
        i += 1;
    }
    proof {
        assert(order::views(r@) =~= all_blessed(order::views(files@)));
        assert forall|f: FileView| #[trigger] order::views(r@).contains(f) implies plain_hash(
            f.hash,
        ) by {
            let j = order::views(r@).index_of(f);
            assert(r@[j]@ == f);
        }
    }
    r
}

/// What an edit changed.
pub struct EditReport {
    /// Paths that are tracked now and were not before.
    pub added: Vec<FsPath>,
    /// Paths that were tracked and whose entries were made anew.
    pub repinned: Vec<FsPath>,
    /// Paths left out because a tracked directory holds them, with it.
    pub skipped_covered: Vec<(FsPath, FsPath)>,
    /// Paths that are not tracked any more.
    pub removed: Vec<FsPath>,
    /// Paths that were to be removed and had no entry.
    pub not_found: Vec<FsPath>,
}

#[verifier::ext_equal]
pub struct ReportView {
    pub added: Seq<Seq<u8>>,
    pub repinned: Seq<Seq<u8>>,
    pub skipped_covered: Seq<(Seq<u8>, Seq<u8>)>,
    pub removed: Seq<Seq<u8>>,
    pub not_found: Seq<Seq<u8>>,
}

impl View for EditReport {
    type V = ReportView;

    open spec fn view(&self) -> ReportView {
        ReportView {
            added: order::views(self.added@),
            repinned: order::views(self.repinned@),
            skipped_covered: self.skipped_covered@.map_values(|p: (FsPath, FsPath)| (p.0@, p.1@)),
            removed: order::views(self.removed@),
            not_found: order::views(self.not_found@),
        }
    }
}

/// The report of no edit.
pub open spec fn empty_report() -> ReportView {
    ReportView {
        added: Seq::empty(),
        repinned: Seq::empty(),
        skipped_covered: Seq::empty(),
        removed: Seq::empty(),
        not_found: Seq::empty(),
    }
}

impl Default for EditReport {
    fn default() -> (r: Self)
        ensures
            r@ == empty_report(),
    {
        let r = EditReport {
            added: Vec::new(),
            repinned: Vec::new(),
            skipped_covered: Vec::new(),
            removed: Vec::new(),
            not_found: Vec::new(),
        };
        assert(r@ =~= empty_report());
        r
    }
}

impl BaselineView {
    /// What pinning `add` reports, and the paths that it blesses anew.
    pub open spec fn pin_plan(self, add: Seq<Seq<u8>>) -> (ReportView, Seq<Seq<u8>>)
        decreases add.len(),
    {
        if add.len() == 0 {
            (empty_report(), Seq::empty())
        } else {
            let (rep, targets) = self.pin_plan(add.drop_last());
            let p = add.last();
            match first_cover(self.dirs, p) {
                Some(d) => (
                    ReportView { skipped_covered: rep.skipped_covered.push((p, d)), ..rep },
                    targets,
                ),
                None => if self.has_entry(p) {
                    (ReportView { repinned: rep.repinned.push(p), ..rep }, targets.push(p))
                } else {
                    (ReportView { added: rep.added.push(p), ..rep }, targets.push(p))
                },
            }
        }
    }

    /// The baseline with `targets` blessed anew from what was found at them.
    pub open spec fn pinned(self, targets: Seq<Seq<u8>>, seen: Seq<SightView>) -> BaselineView {
        if targets.len() == 0 {
            self
        } else {
            self.without_all(targets).with(gathered(targets, seen).in_order()).in_order()
        }
    }

    /// Those of `paths` that are reported removed, or not found.
    pub open spec fn unpin_report(self, paths: Seq<Seq<u8>>, gone: Seq<Seq<u8>>) -> ReportView
        decreases paths.len(),
    {
        if paths.len() == 0 {
            empty_report()
        } else {
            let rep = self.unpin_report(paths.drop_last(), gone);
            let p = paths.last();
            if exists|i: int| 0 <= i < gone.len() && path::same(#[trigger] gone[i], p) {
                ReportView { removed: rep.removed.push(p), ..rep }
            } else {
                ReportView { not_found: rep.not_found.push(p), ..rep }
            }
        }
    }
}

/// Decides for each path of `add` whether it is added, pinned again or left out
/// because a tracked directory holds it. Returns the report and the paths to be
/// looked at for [`pin`].
pub fn plan_pin(base: &Baseline, add: &[FsPath]) -> (r: (EditReport, Vec<FsPath>))
    ensures
        (r.0@, order::views(r.1@)) == base@.pin_plan(order::views(add@)),
{
    let ghost all = order::views(add@);
    let mut rep = EditReport::default();
    let mut targets: Vec<FsPath> = Vec::new();
    let mut i: usize = 0;
    assert(all.take(0) == Seq::<Seq<u8>>::empty());
    assert(order::views(targets@) =~= Seq::<Seq<u8>>::empty());
    while i < add.len()
        invariant
            i <= add@.len(),
            all == order::views(add@),
            (rep@, order::views(targets@)) == base@.pin_plan(all.take(i as int)),
        decreases add.len() - i,
    {
        let ghost now = rep@;
        let ghost done = targets@;
        let p = &add[i];
        proof {
            assert(all.take(i + 1).drop_last() == all.take(i as int));
            assert(all.take(i + 1).last() == p@);
        }
        match base.covered_by_dir(p) {
            Some(dir) => {
                rep.skipped_covered.push((p.clone(), dir));
                assert(rep@.skipped_covered =~= now.skipped_covered.push((p@, dir@)));
                assert(rep@ =~= ReportView {
                    skipped_covered: now.skipped_covered.push((p@, dir@)),
                    ..now
                });
            },
            None => {
                if base.tracks(p) {
                    rep.repinned.push(p.clone());
                    assert(rep@.repinned =~= now.repinned.push(p@));
                    assert(rep@ =~= ReportView { repinned: now.repinned.push(p@), ..now });
                } else {
                    rep.added.push(p.clone());
                    assert(rep@.added =~= now.added.push(p@));
                    assert(rep@ =~= ReportView { added: now.added.push(p@), ..now });
                }
                targets.push(p.clone());
                assert(order::views(targets@) =~= order::views(done).push(p@));
            },
        }
        i += 1;
    }
    assert(all.take(all.len() as int) == all);
    (rep, targets)
}

/// Pins `add` into `base`: paths that no tracked directory holds are blessed
/// anew from what was found at them (`seen`, one per path that [`plan_pin`]
/// returns), in place of entries for the same path. All other entries keep
/// their hashes. The error is the index of a target that could not be read.
pub fn pin(base: Baseline, add: &[FsPath], seen: &[Sight]) -> (r: Result<
    (Baseline, EditReport),
    usize,
>)
    requires
        seen@.len() == base@.pin_plan(order::views(add@)).1.len(),
    ensures
        match r {
            Ok(p) => {
                let (rep, targets) = base@.pin_plan(order::views(add@));
                &&& forall|i: int| 0 <= i < seen@.len() ==> !((#[trigger] seen@[i]) is Unreadable)
                &&& p.1@ == rep
                &&& p.0@ == base@.pinned(targets, order::views(seen@))
                &&& base@.plain() ==> p.0@.plain()
            },
            Err(n) => {
                &&& n < seen@.len()
                &&& seen@[n as int] is Unreadable
                &&& forall|i: int| 0 <= i < n ==> !((#[trigger] seen@[i]) is Unreadable)
            },
        },
{
    let mut base = base;
    let (rep, targets) = plan_pin(&base, add);
    if targets.len() == 0 {
        return Ok((base, rep));
    }
    match compute(targets.as_slice(), seen) {
        Err(n) => Err(n),
        Ok(sub) => {
            base.remove_top_level(targets.as_slice());
            base.merge(sub);
            base.sort();
            Ok((base, rep))
        },
    }
}

/// Whether a path is among others.
fn is_among(p: &FsPath, others: &Vec<FsPath>) -> (r: bool)
    ensures
        r == exists|i: int|
            0 <= i < others@.len() && path::same(#[trigger] order::views(others@)[i], p@),
{
    let mut i: usize = 0;
    while i < others.len()
        invariant
            i <= others@.len(),
            forall|j: int| 0 <= j < i ==> !path::same(#[trigger] order::views(others@)[j], p@),
        decreases others.len() - i,
    {
        assert(order::views(others@)[i as int] == others@[i as int]@);
        if others[i].is_same(p) {
            return true;
        }
        i += 1;
    }
    false
}

/// Drops the entries for `remove` from `base`; a directory's go with its files.
/// Paths without an entry are reported.
pub fn unpin(base: Baseline, remove: &[FsPath]) -> (r: (Baseline, EditReport))
    ensures
        ({
            let paths = order::views(remove@);
            &&& r.0@ == base@.without_all(paths).in_order()
            &&& base@.plain() ==> r.0@.plain()
            &&& r.1@ == base@.unpin_report(paths, base@.taken_out(paths))
        }),
{
    let ghost all = order::views(remove@);
    let ghost start = base@;
    let mut base = base;
    let mut rep = EditReport::default();
    let removed = base.remove_top_level(remove);
    let ghost gone = order::views(removed@);
    let mut i: usize = 0;
    assert(all.take(0) == Seq::<Seq<u8>>::empty());
    while i < remove.len()
        invariant
            i <= remove@.len(),
            all == order::views(remove@),
            gone == order::views(removed@),
            start.plain() ==> base@.plain(),
            rep@ == start.unpin_report(all.take(i as int), gone),
        decreases remove.len() - i,
    {
        let ghost now = rep@;
        let p = &remove[i];
        proof {
            assert(all.take(i + 1).drop_last() == all.take(i as int));
            assert(all.take(i + 1).last() == p@);
        }
        if is_among(p, &removed) {
            rep.removed.push(p.clone());
            assert(rep@.removed =~= now.removed.push(p@));
            assert(rep@ =~= ReportView { removed: now.removed.push(p@), ..now });
        } else {
            rep.not_found.push(p.clone());
            assert(rep@.not_found =~= now.not_found.push(p@));
            assert(rep@ =~= ReportView { not_found: now.not_found.push(p@), ..now });
        }
        i += 1;
    }
    assert(all.take(all.len() as int) == all);
    base.sort();
    (base, rep)
}

/// Whether `p` is another path than each of `paths`.
pub open spec fn apart(p: Seq<u8>, paths: Seq<Seq<u8>>) -> bool {
    forall|i: int| 0 <= i < paths.len() ==> !path::same(p, #[trigger] paths[i])
}

/// Dropping the entries of some paths keeps exactly the entries of others.
pub proof fn law_dropping_keeps_others(b: BaselineView, paths: Seq<Seq<u8>>)
    ensures
        forall|f: FileView| #[trigger]
            b.without_all(paths).files.contains(f) <==> b.files.contains(f) && apart(f.path, paths),
        forall|d: DirView| #[trigger]
            b.without_all(paths).dirs.contains(d) <==> b.dirs.contains(d) && apart(d.path, paths),
        forall|p: Seq<u8>| #[trigger]
            b.without_all(paths).absent.contains(p) <==> b.absent.contains(p) && apart(p, paths),
    decreases paths.len(),
{
    if paths.len() > 0 {
        let init = paths.drop_last();
        let last = paths.last();
        law_dropping_keeps_others(b, init);
        let before = b.without_all(init);
        lemma_elsewhere::<FileEntry>(before.files, last);
        lemma_elsewhere::<DirGroup>(before.dirs, last);
        lemma_elsewhere::<FsPath>(before.absent, last);
        assert forall|p: Seq<u8>| apart(p, paths) <==> apart(p, init) && !path::same(p, last) by {
            if apart(p, paths) {
                assert(!path::same(p, paths[paths.len() - 1]));
                assert forall|i: int| 0 <= i < init.len() implies !path::same(
                    p,
                    #[trigger] init[i],
                ) by {
                    assert(init[i] == paths[i]);
                }
            } else if apart(p, init) && !path::same(p, last) {
                assert forall|i: int| 0 <= i < paths.len() implies !path::same(
                    p,
                    #[trigger] paths[i],
                ) by {
                    if i < init.len() {
                        assert(init[i] == paths[i]);
                    }
                }
            }
        }
        let after = b.without_all(paths);
        assert forall|f: FileView| #[trigger] after.files.contains(f) <==> b.files.contains(f)
            && apart(f.path, paths) by {
            assert(elsewhere::<FileEntry>(before.files, last).contains(f)
                <==> before.files.contains(f) && !path::same(FileEntry::place(f), last));
            assert(before.files.contains(f) <==> b.files.contains(f) && apart(f.path, init));
        }
        assert forall|d: DirView| #[trigger] after.dirs.contains(d) <==> b.dirs.contains(d)
            && apart(d.path, paths) by {
            assert(elsewhere::<DirGroup>(before.dirs, last).contains(d) <==> before.dirs.contains(d)
                && !path::same(DirGroup::place(d), last));
            assert(before.dirs.contains(d) <==> b.dirs.contains(d) && apart(d.path, init));
        }
        assert forall|p: Seq<u8>| #[trigger] after.absent.contains(p) <==> b.absent.contains(p)
            && apart(p, paths) by {
            assert(elsewhere::<FsPath>(before.absent, last).contains(p) <==> before.absent.contains(
                p,
            ) && !path::same(FsPath::place(p), last));
            assert(before.absent.contains(p) <==> b.absent.contains(p) && apart(p, init));
        }
    }
}

/// Unpinned paths have no entry any more; every other entry stays as it is.
pub proof fn law_unpin_drops_only_these(b: BaselineView, paths: Seq<Seq<u8>>)
    ensures
        ({
            let after = b.without_all(paths).in_order();
            &&& forall|i: int| 0 <= i < paths.len() ==> !after.has_entry(#[trigger] paths[i])
            &&& forall|f: FileView|
                b.files.contains(f) && apart(f.path, paths) ==> #[trigger] after.files.contains(f)
            &&& forall|d: DirView|
                b.dirs.contains(d) && apart(d.path, paths) ==> #[trigger] after.dirs.contains(d)
            &&& forall|p: Seq<u8>|
                b.absent.contains(p) && apart(p, paths) ==> #[trigger] after.absent.contains(p)
        }),
{
    let mid = b.without_all(paths);
    let after = mid.in_order();
    law_dropping_keeps_others(b, paths);
    assert forall|f: FileView| #[trigger] after.files.contains(f) <==> mid.files.contains(f) by {
        verifying::lemma_sorted_contains::<FileEntry>(mid.files, f);
    }
    assert forall|d: DirView| #[trigger] after.dirs.contains(d) <==> mid.dirs.contains(d) by {
        verifying::lemma_sorted_contains::<DirGroup>(mid.dirs, d);
    }
    assert forall|p: Seq<u8>| #[trigger] after.absent.contains(p) <==> mid.absent.contains(p) by {
        verifying::lemma_sorted_contains::<FsPath>(mid.absent, p);
    }
    assert forall|i: int| 0 <= i < paths.len() implies !after.has_entry(#[trigger] paths[i]) by {
        let p = paths[i];
        if after.has_entry(p) {
            lemma_has_entry(after, p);
            if stands_for::<DirGroup>(after.dirs, p) {
                let k = choose|k: int|
                    0 <= k < after.dirs.len() && path::same(
                        DirGroup::place(#[trigger] after.dirs[k]),
                        p,
                    );
                assert(after.dirs.contains(after.dirs[k]));
                assert(mid.dirs.contains(after.dirs[k]));
                assert(apart(after.dirs[k].path, paths));
            } else if stands_for::<FileEntry>(after.files, p) {
                let k = choose|k: int|
                    0 <= k < after.files.len() && path::same(
                        FileEntry::place(#[trigger] after.files[k]),
                        p,
                    );
                assert(after.files.contains(after.files[k]));
                assert(mid.files.contains(after.files[k]));
                assert(apart(after.files[k].path, paths));
            } else {
                let k = choose|k: int|
                    0 <= k < after.absent.len() && path::same(
                        FsPath::place(#[trigger] after.absent[k]),
                        p,
                    );
                assert(after.absent.contains(after.absent[k]));
                assert(mid.absent.contains(after.absent[k]));
                assert(apart(after.absent[k], paths));
            }
        }
    }
}

/// Pinning some paths blesses no other: every entry for another path keeps its
/// hash.
pub proof fn law_pin_keeps_other_hashes(
    b: BaselineView,
    targets: Seq<Seq<u8>>,
    seen: Seq<SightView>,
)
    ensures
        ({
            let after = b.pinned(targets, seen);
            &&& forall|f: FileView|
                b.files.contains(f) && apart(f.path, targets) ==> #[trigger] after.files.contains(f)
            &&& forall|d: DirView|
                b.dirs.contains(d) && apart(d.path, targets) ==> #[trigger] after.dirs.contains(d)
            &&& forall|p: Seq<u8>|
                b.absent.contains(p) && apart(p, targets) ==> #[trigger] after.absent.contains(p)
        }),
{
    if targets.len() > 0 {
        let kept = b.without_all(targets);
        let fresh = gathered(targets, seen).in_order();
        let mid = kept.with(fresh);
        let after = mid.in_order();
        law_dropping_keeps_others(b, targets);
        assert forall|f: FileView|
            b.files.contains(f) && apart(f.path, targets) implies #[trigger] after.files.contains(
            f,
        ) by {
            assert(kept.files.contains(f));
            let k = kept.files.index_of(f);
            assert(mid.files[k] == f);
            verifying::lemma_sorted_contains::<FileEntry>(mid.files, f);
        }
        assert forall|d: DirView|
            b.dirs.contains(d) && apart(d.path, targets) implies #[trigger] after.dirs.contains(
            d,
        ) by {
            assert(kept.dirs.contains(d));
            let k = kept.dirs.index_of(d);
            assert(mid.dirs[k] == d);
            verifying::lemma_sorted_contains::<DirGroup>(mid.dirs, d);
        }
        assert forall|p: Seq<u8>|
            b.absent.contains(p) && apart(p, targets) implies #[trigger] after.absent.contains(
            p,
        ) by {
            assert(kept.absent.contains(p));
            let k = kept.absent.index_of(p);
            assert(mid.absent[k] == p);
            verifying::lemma_sorted_contains::<FsPath>(mid.absent, p);
        }
    }
}

/// Whether a baseline has the entry that blesses what was found at `p`.
pub open spec fn has_blessed(b: BaselineView, p: Seq<u8>, s: SightView) -> bool {
    match s {
        SightView::Missing => b.absent.contains(p),
        SightView::Dir(files) => b.dirs.contains(
            DirView { path: p, files: order::sorted::<FileEntry>(all_blessed(files)) },
        ),
        SightView::File(bytes) => b.files.contains(blessed(LiveView { path: p, bytes })),
        _ => true,
    }
}

proof fn lemma_gathered_has(paths: Seq<Seq<u8>>, seen: Seq<SightView>, i: int)
    requires
        0 <= i < paths.len(),
        paths.len() == seen.len(),
    ensures
        has_blessed(gathered(paths, seen), paths[i], seen[i]),
    decreases paths.len(),
{
    let p = paths.drop_last();
    let s = seen.drop_last();
    let before = gathered(p, s);
    let all = gathered(paths, seen);
    if i == paths.len() - 1 {
        match seen[i] {
            SightView::Missing => {
                assert(all.absent[all.absent.len() - 1] == paths[i]);
            },
            SightView::Dir(files) => {
                assert(all.dirs[all.dirs.len() - 1].path == paths[i]);
            },
            SightView::File(bytes) => {
                assert(all.files[all.files.len() - 1].path == paths[i]);
            },
            _ => {},
        }
    } else {
        lemma_gathered_has(p, s, i);
        assert(p[i] == paths[i] && s[i] == seen[i]);
        match seen[i] {
            SightView::Missing => {
                assert(all.absent[before.absent.index_of(paths[i])] == paths[i]);
            },
            SightView::Dir(files) => {
                let d = DirView {
                    path: paths[i],
                    files: order::sorted::<FileEntry>(all_blessed(files)),
                };
                assert(all.dirs[before.dirs.index_of(d)] == d);
            },
            SightView::File(bytes) => {
                let f = blessed(LiveView { path: paths[i], bytes });
                assert(all.files[before.files.index_of(f)] == f);
            },
            _ => {},
        }
    }
}

/// Pinned paths are blessed as they were found, and no older entry for them is
/// left.
pub proof fn law_pinned_paths_are_blessed(
    b: BaselineView,
    targets: Seq<Seq<u8>>,
    seen: Seq<SightView>,
)
    requires
        targets.len() == seen.len(),
    ensures
        ({
            let after = b.pinned(targets, seen);
            let fresh = gathered(targets, seen);
            &&& forall|i: int|
                0 <= i < targets.len() ==> has_blessed(after, #[trigger] targets[i], seen[i])
            &&& forall|f: FileView| #[trigger]
                after.files.contains(f) && !apart(f.path, targets) ==> fresh.files.contains(f)
            &&& forall|d: DirView| #[trigger]
                after.dirs.contains(d) && !apart(d.path, targets) ==> fresh.dirs.contains(d)
            &&& forall|p: Seq<u8>| #[trigger]
                after.absent.contains(p) && !apart(p, targets) ==> fresh.absent.contains(p)
        }),
{
    if targets.len() > 0 {
        let kept = b.without_all(targets);
        let fresh = gathered(targets, seen);
        let sorted = fresh.in_order();
        let mid = kept.with(sorted);
        let after = mid.in_order();
        law_dropping_keeps_others(b, targets);
        assert forall|f: FileView| #[trigger]
            after.files.contains(f) <==> kept.files.contains(f) || fresh.files.contains(f) by {
            verifying::lemma_sorted_contains::<FileEntry>(mid.files, f);
            verifying::lemma_sorted_contains::<FileEntry>(fresh.files, f);
            lemma_either(kept.files, sorted.files, f);
        }
        assert forall|d: DirView| #[trigger]
            after.dirs.contains(d) <==> kept.dirs.contains(d) || fresh.dirs.contains(d) by {
            verifying::lemma_sorted_contains::<DirGroup>(mid.dirs, d);
            verifying::lemma_sorted_contains::<DirGroup>(fresh.dirs, d);
            lemma_either(kept.dirs, sorted.dirs, d);
        }
        assert forall|p: Seq<u8>| #[trigger]
            after.absent.contains(p) <==> kept.absent.contains(p) || fresh.absent.contains(p) by {
            verifying::lemma_sorted_contains::<FsPath>(mid.absent, p);
            verifying::lemma_sorted_contains::<FsPath>(fresh.absent, p);
            lemma_either(kept.absent, sorted.absent, p);
        }
        assert forall|i: int| 0 <= i < targets.len() implies has_blessed(
            after,
            #[trigger] targets[i],
            seen[i],
        ) by {
            lemma_gathered_has(targets, seen, i);
        }
    }
}

proof fn lemma_either<T>(a: Seq<T>, b: Seq<T>, x: T)
    ensures
        (a + b).contains(x) <==> a.contains(x) || b.contains(x),
{
    let all = a + b;
    if a.contains(x) {
        assert(all[a.index_of(x)] == x);
    }
    if b.contains(x) {
        assert(all[a.len() + b.index_of(x)] == x);
    }
    if all.contains(x) {
        let k = all.index_of(x);
        if k < a.len() {
            assert(a[k] == x);
        } else {
            assert(b[k - a.len()] == x);
        }
    }
}

/// A baseline is kept by path: every entry that was there is there, none comes behind
/// one that its path stands before, and there are as many as before.
pub proof fn law_entries_are_kept_by_path(b: BaselineView)
    ensures
        ({
            let r = b.in_order();
            &&& r.files.len() == b.files.len() && r.dirs.len() == b.dirs.len() && r.absent.len()
                == b.absent.len()
            &&& forall|f: FileView| #[trigger] r.files.contains(f) <==> b.files.contains(f)
            &&& forall|d: DirView| #[trigger] r.dirs.contains(d) <==> b.dirs.contains(d)
            &&& forall|p: Seq<u8>| #[trigger] r.absent.contains(p) <==> b.absent.contains(p)
            &&& forall|i: int, j: int|
                0 <= i < j < r.files.len() ==> !path::before(
                    (#[trigger] r.files[j]).path,
                    (#[trigger] r.files[i]).path,
                )
            &&& forall|i: int, j: int|
                0 <= i < j < r.dirs.len() ==> !path::before(
                    (#[trigger] r.dirs[j]).path,
                    (#[trigger] r.dirs[i]).path,
                )
            &&& forall|i: int, j: int|
                0 <= i < j < r.absent.len() ==> !path::before(
                    #[trigger] r.absent[j],
                    #[trigger] r.absent[i],
                )
        }),
{
    let r = b.in_order();
    order::law_sorted::<FileEntry>(b.files);
    order::law_sorted::<DirGroup>(b.dirs);
    order::law_sorted::<FsPath>(b.absent);
    assert forall|f: FileView| #[trigger] r.files.contains(f) <==> b.files.contains(f) by {
        verifying::lemma_sorted_contains::<FileEntry>(b.files, f);
    }
    assert forall|d: DirView| #[trigger] r.dirs.contains(d) <==> b.dirs.contains(d) by {
        verifying::lemma_sorted_contains::<DirGroup>(b.dirs, d);
    }
    assert forall|p: Seq<u8>| #[trigger] r.absent.contains(p) <==> b.absent.contains(p) by {
        verifying::lemma_sorted_contains::<FsPath>(b.absent, p);
    }
    assert forall|i: int, j: int| 0 <= i < j < r.files.len() implies !path::before(
        (#[trigger] r.files[j]).path,
        (#[trigger] r.files[i]).path,
    ) by {
        assert(!FileEntry::precedes(r.files[j], r.files[i]));
    }
    assert forall|i: int, j: int| 0 <= i < j < r.dirs.len() implies !path::before(
        (#[trigger] r.dirs[j]).path,
        (#[trigger] r.dirs[i]).path,
    ) by {
        assert(!DirGroup::precedes(r.dirs[j], r.dirs[i]));
    }
    assert forall|i: int, j: int| 0 <= i < j < r.absent.len() implies !path::before(
        #[trigger] r.absent[j],
        #[trigger] r.absent[i],
    ) by {
        assert(!FsPath::precedes(r.absent[j], r.absent[i]));
    }
}

/// Entries are counted one by one: those of two baselines together are those of each,
/// and a directory counts as its files.
pub proof fn law_entries_are_counted(
    a: BaselineView,
    b: BaselineView,
    d: DirView,
)
    ensures
        a.with(b).total() == a.total() + b.total(),
        (BaselineView { dirs: a.dirs.push(d), ..a }).total() == a.total() + d.files.len(),
        a.total() >= a.files.len() + a.absent.len(),
        a.dirs.len() == 0 ==> a.total() == a.files.len() + a.absent.len(),
{
    lemma_dir_total_concat(a.dirs, b.dirs);
    assert(a.dirs.push(d).drop_last() =~= a.dirs);
}

proof fn lemma_dir_total_concat(a: Seq<DirView>, b: Seq<DirView>)
    ensures
        dir_total(a + b) == dir_total(a) + dir_total(b),
    decreases b.len(),
{
    if b.len() == 0 {
        assert(a + b =~= a);
    } else {
        lemma_dir_total_concat(a, b.drop_last());
        assert((a + b).drop_last() =~= a + b.drop_last());
    }
}

/// A path has an entry of its own exactly if an entry leads to the same place, step by
/// step.
pub proof fn law_entries_are_found_by_steps(b: BaselineView, p: Seq<u8>)
    ensures
        b.has_entry(p) <==> {
            ||| exists|i: int|
                0 <= i < b.dirs.len() && path::steps((#[trigger] b.dirs[i]).path) == path::steps(p)
            ||| exists|i: int|
                0 <= i < b.files.len() && path::steps((#[trigger] b.files[i]).path) == path::steps(
                    p,
                )
            ||| exists|i: int|
                0 <= i < b.absent.len() && path::steps(#[trigger] b.absent[i]) == path::steps(p)
        },
{
}

/// Whether `p` lies somewhere below the directory `d`.
pub open spec fn lies_below(p: Seq<u8>, d: Seq<u8>) -> bool {
    exists|rest: Seq<path::Step>|
        rest.len() > 0 && path::steps(p) == #[trigger] (path::steps(d) + rest)
}

proof fn lemma_inside(p: Seq<u8>, d: Seq<u8>)
    ensures
        inside(p, d) <==> lies_below(p, d),
{
    path::law_paths_are_compared_by_steps(p, d);
    let a = path::steps(p);
    let b = path::steps(d);
    if inside(p, d) {
        let rest = choose|rest: Seq<path::Step>| a == b + rest;
        if rest.len() == 0 {
            assert(b + rest =~= b);
        }
    }
    if lies_below(p, d) {
        let rest = choose|rest: Seq<path::Step>| rest.len() > 0 && a == #[trigger] (b + rest);
        assert(a.len() > b.len());
        assert(a == b + rest);
    }
}

/// A path is covered exactly if it lies below a tracked directory, and the directory
/// that is told is the first such.
pub proof fn law_first_cover_is_told(dirs: Seq<DirView>, p: Seq<u8>)
    ensures
        first_cover(dirs, p) is Some <==> exists|i: int|
            0 <= i < dirs.len() && lies_below(p, (#[trigger] dirs[i]).path),
        first_cover(dirs, p) matches Some(d) ==> exists|i: int|
            0 <= i < dirs.len() && (#[trigger] dirs[i]).path == d && lies_below(p, d) && forall|
                j: int,
            |
                0 <= j < i ==> !lies_below(p, (#[trigger] dirs[j]).path),
    decreases dirs.len(),
{
    if dirs.len() > 0 {
        let init = dirs.drop_last();
        let n = dirs.len() - 1;
        law_first_cover_is_told(init, p);
        lemma_inside(p, dirs[n].path);
        assert forall|i: int| 0 <= i < n implies init[i] == dirs[i] by {}
        match first_cover(init, p) {
            Some(d) => {
                let i = choose|i: int|
                    0 <= i < init.len() && (#[trigger] init[i]).path == d && lies_below(p, d)
                        && forall|j: int| 0 <= j < i ==> !lies_below(p, (#[trigger] init[j]).path);
                assert(dirs[i].path == d);
                assert forall|j: int| 0 <= j < i implies !lies_below(
                    p,
                    (#[trigger] dirs[j]).path,
                ) by {
                    assert(init[j] == dirs[j]);
                }
            },
            None => {
                assert forall|j: int| 0 <= j < n implies !lies_below(
                    p,
                    (#[trigger] dirs[j]).path,
                ) by {
                    assert(init[j] == dirs[j]);
                }
                if inside(p, dirs[n].path) {
                    assert(dirs[n].path == dirs.last().path);
                }
            },
        }
    }
}

proof fn lemma_elsewhere_filter<T: Located>(s: Seq<T::V>, p: Seq<u8>, keep: spec_fn(T::V) -> bool)
    requires
        forall|x: T::V| #[trigger] keep(x) == !path::same(T::place(x), p),
    ensures
        elsewhere::<T>(s, p) == s.filter(keep),
    decreases s.len(),
{
    reveal(Seq::filter);
    if s.len() > 0 {
        lemma_elsewhere_filter::<T>(s.drop_last(), p, keep);
        assert(keep(s.last()) == !path::same(T::place(s.last()), p));
    } else {
        assert(s.filter(keep) =~= s);
    }
}

/// Dropping a path drops exactly the entries that lead to the same place and keeps the
/// others in their order; paths are dropped one after the other.
pub proof fn law_dropping_keeps_order(b: BaselineView, paths: Seq<Seq<u8>>, p: Seq<u8>)
    ensures
        b.without(p).files == b.files.filter(|f: FileView| path::steps(f.path) != path::steps(p)),
        b.without(p).dirs == b.dirs.filter(|d: DirView| path::steps(d.path) != path::steps(p)),
        b.without(p).absent == b.absent.filter(|q: Seq<u8>| path::steps(q) != path::steps(p)),
        b.without_all(Seq::empty()) == b,
        b.without_all(paths.push(p)) == b.without_all(paths).without(p),
{
    let f = |f: FileView| path::steps(f.path) != path::steps(p);
    let d = |d: DirView| path::steps(d.path) != path::steps(p);
    let q = |q: Seq<u8>| path::steps(q) != path::steps(p);
    lemma_elsewhere_filter::<FileEntry>(b.files, p, f);
    lemma_elsewhere_filter::<DirGroup>(b.dirs, p, d);
    lemma_elsewhere_filter::<FsPath>(b.absent, p, q);
    assert(paths.push(p).drop_last() =~= paths);
}

proof fn lemma_entry_left(b: BaselineView, paths: Seq<Seq<u8>>, p: Seq<u8>)
    ensures
        b.without_all(paths).has_entry(p) <==> b.has_entry(p) && apart(p, paths),
{
    let r = b.without_all(paths);
    law_dropping_keeps_others(b, paths);
    lemma_has_entry(r, p);
    lemma_has_entry(b, p);
    assert forall|q: Seq<u8>| path::same(q, p) implies (apart(q, paths) <==> apart(p, paths)) by {
        if apart(q, paths) {
            assert forall|i: int| 0 <= i < paths.len() implies !path::same(
                p,
                #[trigger] paths[i],
            ) by {
                assert(!path::same(q, paths[i]));
            }
        }
        if apart(p, paths) {
            assert forall|i: int| 0 <= i < paths.len() implies !path::same(
                q,
                #[trigger] paths[i],
            ) by {
                assert(!path::same(p, paths[i]));
            }
        }
    }
    if r.has_entry(p) {
        if stands_for::<DirGroup>(r.dirs, p) {
            let k = choose|k: int|
                0 <= k < r.dirs.len() && path::same(DirGroup::place(#[trigger] r.dirs[k]), p);
            assert(r.dirs.contains(r.dirs[k]));
            let n = b.dirs.index_of(r.dirs[k]);
            assert(path::same(DirGroup::place(b.dirs[n]), p));
        } else if stands_for::<FileEntry>(r.files, p) {
            let k = choose|k: int|
                0 <= k < r.files.len() && path::same(FileEntry::place(#[trigger] r.files[k]), p);
            assert(r.files.contains(r.files[k]));
            let n = b.files.index_of(r.files[k]);
            assert(path::same(FileEntry::place(b.files[n]), p));
        } else {
            let k = choose|k: int|
                0 <= k < r.absent.len() && path::same(FsPath::place(#[trigger] r.absent[k]), p);
            assert(r.absent.contains(r.absent[k]));
            let n = b.absent.index_of(r.absent[k]);
            assert(path::same(FsPath::place(b.absent[n]), p));
        }
    }
    if b.has_entry(p) && apart(p, paths) {
        if stands_for::<DirGroup>(b.dirs, p) {
            let k = choose|k: int|
                0 <= k < b.dirs.len() && path::same(DirGroup::place(#[trigger] b.dirs[k]), p);
            assert(b.dirs.contains(b.dirs[k]));
            assert(r.dirs.contains(b.dirs[k]));
            let n = r.dirs.index_of(b.dirs[k]);
            assert(path::same(DirGroup::place(r.dirs[n]), p));
        } else if stands_for::<FileEntry>(b.files, p) {
            let k = choose|k: int|
                0 <= k < b.files.len() && path::same(FileEntry::place(#[trigger] b.files[k]), p);
            assert(b.files.contains(b.files[k]));
            assert(r.files.contains(b.files[k]));
            let n = r.files.index_of(b.files[k]);
            assert(path::same(FileEntry::place(r.files[n]), p));
        } else {
            let k = choose|k: int|
                0 <= k < b.absent.len() && path::same(FsPath::place(#[trigger] b.absent[k]), p);
            assert(b.absent.contains(b.absent[k]));
            assert(r.absent.contains(b.absent[k]));
            let n = r.absent.index_of(b.absent[k]);
            assert(path::same(FsPath::place(r.absent[n]), p));
        }
    }
}

/// A path is taken out if it has an entry, and once only, however often it is named.
pub proof fn law_paths_are_taken_out_once(b: BaselineView, paths: Seq<Seq<u8>>, p: Seq<u8>)
    ensures
        b.taken_out(Seq::empty()) == Seq::<Seq<u8>>::empty(),
        b.taken_out(paths.push(p)) == (if b.has_entry(p) && forall|i: int|
            0 <= i < paths.len() ==> path::steps(p) != path::steps(#[trigger] paths[i]) {
            b.taken_out(paths) + seq![p]
        } else {
            b.taken_out(paths)
        }),
{
    assert(paths.push(p).drop_last() =~= paths);
    lemma_entry_left(b, paths, p);
    assert(apart(p, paths) <==> forall|i: int|
        0 <= i < paths.len() ==> path::steps(p) != path::steps(#[trigger] paths[i])) by {
        assert forall|i: int| 0 <= i < paths.len() implies path::same(p, #[trigger] paths[i]) == (
        path::steps(p) == path::steps(paths[i])) by {}
    }
    assert(b.taken_out(paths).push(p) =~= b.taken_out(paths) + seq![p]);
}

proof fn lemma_taken_out(b: BaselineView, paths: Seq<Seq<u8>>, p: Seq<u8>)
    requires
        !apart(p, paths),
    ensures
        (exists|i: int|
            0 <= i < b.taken_out(paths).len() && path::same(#[trigger] b.taken_out(paths)[i], p))
            <==> b.has_entry(p),
    decreases paths.len(),
{
    let init = paths.drop_last();
    let last = paths.last();
    let before = b.taken_out(init);
    let all = b.taken_out(paths);
    assert(init.push(last) =~= paths);
    lemma_entry_left(b, init, last);
    lemma_same_entry(b, p, last);
    if apart(p, init) {
        let i = choose|i: int| 0 <= i < paths.len() && path::same(p, #[trigger] paths[i]);
        if i < init.len() {
            assert(init[i] == paths[i]);
        }
        assert(path::same(p, last));
        assert(apart(last, init)) by {
            assert forall|k: int| 0 <= k < init.len() implies !path::same(
                last,
                #[trigger] init[k],
            ) by {
                assert(!path::same(p, init[k]));
            }
        }
        lemma_taken_out_named(b, init);
        if b.has_entry(p) {
            assert(path::same(all[all.len() - 1], p));
        } else {
            assert forall|k: int| 0 <= k < all.len() implies !path::same(#[trigger] all[k], p) by {
                assert(all == before);
                assert(!apart(all[k], init));
                let n = choose|n: int| 0 <= n < init.len() && path::same(all[k], #[trigger] init[n]);
                assert(!path::same(p, init[n]));
            }
        }
    } else {
        lemma_taken_out(b, init, p);
        if b.has_entry(p) {
            let k = choose|k: int| 0 <= k < before.len() && path::same(#[trigger] before[k], p);
            assert(all[k] == before[k]);
        } else {
            assert forall|k: int| 0 <= k < all.len() implies !path::same(#[trigger] all[k], p) by {
                if k < before.len() {
                    assert(all[k] == before[k]);
                } else {
                    assert(all[k] == last);
                }
            }
        }
    }
}

proof fn lemma_taken_out_named(b: BaselineView, paths: Seq<Seq<u8>>)
    ensures
        forall|k: int|
            0 <= k < b.taken_out(paths).len() ==> !apart(#[trigger] b.taken_out(paths)[k], paths),
    decreases paths.len(),
{
    if paths.len() > 0 {
        let init = paths.drop_last();
        let before = b.taken_out(init);
        let all = b.taken_out(paths);
        lemma_taken_out_named(b, init);
        assert forall|k: int| 0 <= k < all.len() implies !apart(#[trigger] all[k], paths) by {
            if k < before.len() {
                assert(all[k] == before[k]);
                let n = choose|n: int| 0 <= n < init.len() && path::same(all[k], #[trigger] init[n]);
                assert(paths[n] == init[n]);
            } else {
                assert(path::same(all[k], paths[paths.len() - 1]));
            }
        }
    }
}

proof fn lemma_same_entry(b: BaselineView, p: Seq<u8>, q: Seq<u8>)
    ensures
        path::same(p, q) ==> b.has_entry(p) == b.has_entry(q),
{
    law_entries_are_found_by_steps(b, p);
    law_entries_are_found_by_steps(b, q);
}

proof fn lemma_unpin_report(
    b: BaselineView,
    all: Seq<Seq<u8>>,
    n: int,
    had: spec_fn(Seq<u8>) -> bool,
)
    requires
        0 <= n <= all.len(),
        forall|p: Seq<u8>| #[trigger] had(p) == b.has_entry(p),
    ensures
        ({
            let rep = b.unpin_report(all.take(n), b.taken_out(all));
            &&& rep.removed == all.take(n).filter(had)
            &&& rep.not_found == all.take(n).filter(|p: Seq<u8>| !had(p))
            &&& rep.added.len() == 0 && rep.repinned.len() == 0 && rep.skipped_covered.len() == 0
        }),
    decreases n,
{
    reveal(Seq::filter);
    let not = |p: Seq<u8>| !had(p);
    let part = all.take(n);
    if n > 0 {
        lemma_unpin_report(b, all, n - 1, had);
        assert(part.drop_last() =~= all.take(n - 1));
        let p = part.last();
        assert(path::same(p, all[n - 1]));
        lemma_taken_out(b, all, p);
        assert(had(p) == b.has_entry(p));
    } else {
        assert(part.filter(had) =~= Seq::empty());
        assert(part.filter(not) =~= Seq::empty());
    }
}

/// Of the paths to unpin exactly those that had an entry are told as removed, and the
/// others as not found, each list in the order given.
pub proof fn law_unpinning_is_told(b: BaselineView, paths: Seq<Seq<u8>>)
    ensures
        ({
            let rep = b.unpin_report(paths, b.taken_out(paths));
            &&& rep.removed == paths.filter(|p: Seq<u8>| b.has_entry(p))
            &&& rep.not_found == paths.filter(|p: Seq<u8>| !b.has_entry(p))
            &&& rep.added.len() == 0 && rep.repinned.len() == 0 && rep.skipped_covered.len() == 0
        }),
{
    let had = |p: Seq<u8>| b.has_entry(p);
    lemma_unpin_report(b, paths, paths.len() as int, had);
    assert(paths.take(paths.len() as int) =~= paths);
    order::lemma_filter_same(paths, |p: Seq<u8>| !had(p), |p: Seq<u8>| !b.has_entry(p));
}

/// Of the paths to pin those below a tracked directory are left out, each told with
/// such a directory; the others are blessed, in the order given, and told as pinned
/// again where they had an entry and as added where not.
pub proof fn law_pinning_is_told(b: BaselineView, add: Seq<Seq<u8>>)
    ensures
        ({
            let (rep, targets) = b.pin_plan(add);
            let free = |p: Seq<u8>|
                forall|i: int| 0 <= i < b.dirs.len() ==> !lies_below(p, (#[trigger] b.dirs[i]).path);
            &&& targets == add.filter(free)
            &&& rep.added == add.filter(|p: Seq<u8>| free(p) && !b.has_entry(p))
            &&& rep.repinned == add.filter(|p: Seq<u8>| free(p) && b.has_entry(p))
            &&& rep.skipped_covered.map_values(|s: (Seq<u8>, Seq<u8>)| s.0) == add.filter(
                |p: Seq<u8>| !free(p),
            )
            &&& forall|k: int|
                0 <= k < rep.skipped_covered.len() ==> lies_below(
                    (#[trigger] rep.skipped_covered[k]).0,
                    rep.skipped_covered[k].1,
                ) && exists|i: int|
                    0 <= i < b.dirs.len() && (#[trigger] b.dirs[i]).path
                        == rep.skipped_covered[k].1
            &&& rep.removed.len() == 0 && rep.not_found.len() == 0
        }),
    decreases add.len(),
{
    reveal(Seq::filter);
    let free = |p: Seq<u8>|
        forall|i: int| 0 <= i < b.dirs.len() ==> !lies_below(p, (#[trigger] b.dirs[i]).path);
    let fresh = |p: Seq<u8>| free(p) && !b.has_entry(p);
    let again = |p: Seq<u8>| free(p) && b.has_entry(p);
    let held = |p: Seq<u8>| !free(p);
    let name = |s: (Seq<u8>, Seq<u8>)| s.0;
    let (rep, targets) = b.pin_plan(add);
    if add.len() == 0 {
        assert(add.filter(free) =~= Seq::empty());
        assert(add.filter(fresh) =~= Seq::empty());
        assert(add.filter(again) =~= Seq::empty());
        assert(add.filter(held) =~= Seq::empty());
        assert(rep.skipped_covered.map_values(name) =~= Seq::empty());
    } else {
        let p = add.last();
        law_pinning_is_told(b, add.drop_last());
        law_first_cover_is_told(b.dirs, p);
        let (old_rep, old_targets) = b.pin_plan(add.drop_last());
        assert(free(p) <==> first_cover(b.dirs, p) is None);
        match first_cover(b.dirs, p) {
            Some(d) => {
                assert(rep.skipped_covered.map_values(name)
                    =~= old_rep.skipped_covered.map_values(name).push(p));
                assert forall|k: int| 0 <= k < rep.skipped_covered.len() implies lies_below(
                    (#[trigger] rep.skipped_covered[k]).0,
                    rep.skipped_covered[k].1,
                ) && exists|i: int|
                    0 <= i < b.dirs.len() && (#[trigger] b.dirs[i]).path
                        == rep.skipped_covered[k].1 by {
                    if k < old_rep.skipped_covered.len() {
                        assert(rep.skipped_covered[k] == old_rep.skipped_covered[k]);
                    } else {
                        assert(rep.skipped_covered[k] == (p, d));
                    }
                }
            },
            None => {},
        }
    }
}

/// Each path adds what was found at it: a missing one an absence, a file its hash, a
/// directory the hashes of all its files and no others, and anything else nothing.
pub proof fn law_sights_are_blessed(
    paths: Seq<Seq<u8>>,
    seen: Seq<SightView>,
    p: Seq<u8>,
    s: SightView,
)
    requires
        paths.len() == seen.len(),
    ensures
        ({
            let b = gathered(paths, seen);
            let r = gathered(paths.push(p), seen.push(s));
            let none = gathered(Seq::empty(), Seq::empty());
            &&& none.files.len() == 0 && none.dirs.len() == 0 && none.absent.len() == 0
            &&& s is Missing ==> r == (BaselineView { absent: b.absent + seq![p], ..b })
            &&& s matches SightView::File(bytes) ==> r == (BaselineView {
                files: b.files + seq![FileView { path: p, hash: primitives::blake3_hex(bytes) }],
                ..b
            })
            &&& s matches SightView::Dir(live) ==> {
                let d = r.dirs.last();
                &&& r == (BaselineView { dirs: b.dirs + seq![d], ..b })
                &&& d.path == p
                &&& d.files.len() == live.len()
                &&& forall|f: FileView| #[trigger]
                    d.files.contains(f) <==> exists|i: int|
                        0 <= i < live.len() && (#[trigger] live[i]).path == f.path && f.hash
                            == primitives::blake3_hex(live[i].bytes)
            }
            &&& s is Special || s is Unreadable ==> r == b
        }),
{
    let b = gathered(paths, seen);
    let r = gathered(paths.push(p), seen.push(s));
    assert(paths.push(p).drop_last() =~= paths);
    assert(seen.push(s).drop_last() =~= seen);
    match s {
        SightView::Missing => {
            assert(r.absent =~= b.absent + seq![p]);
        },
        SightView::File(bytes) => {
            assert(r.files =~= b.files + seq![
                FileView { path: p, hash: primitives::blake3_hex(bytes) },
            ]);
        },
        SightView::Dir(live) => {
            let d = r.dirs.last();
            let all = all_blessed(live);
            assert(r.dirs =~= b.dirs + seq![d]);
            order::law_sorted::<FileEntry>(all);
            assert forall|f: FileView| #[trigger] d.files.contains(f) <==> exists|i: int|
                0 <= i < live.len() && (#[trigger] live[i]).path == f.path && f.hash
                    == primitives::blake3_hex(live[i].bytes) by {
                verifying::lemma_sorted_contains::<FileEntry>(all, f);
                if all.contains(f) {
                    let i = all.index_of(f);
                    assert(blessed(live[i]) == f);
                }
                if exists|i: int|
                    0 <= i < live.len() && (#[trigger] live[i]).path == f.path && f.hash
                        == primitives::blake3_hex(live[i].bytes) {
                    let i = choose|i: int|
                        0 <= i < live.len() && (#[trigger] live[i]).path == f.path && f.hash
                            == primitives::blake3_hex(live[i].bytes);
                    assert(all[i] == f);
                }
            }
        },
        _ => {},
    }
}

/// Pinning adds what was found and nothing else: every entry comes from what was found
/// now, or was there before under another path.
pub proof fn law_pinning_adds_nothing_else(
    b: BaselineView,
    targets: Seq<Seq<u8>>,
    seen: Seq<SightView>,
)
    requires
        targets.len() == seen.len(),
    ensures
        ({
            let after = b.pinned(targets, seen);
            let fresh = gathered(targets, seen);
            &&& targets.len() == 0 ==> after == b
            &&& forall|f: FileView| #[trigger]
                after.files.contains(f) ==> fresh.files.contains(f) || b.files.contains(f)
            &&& forall|d: DirView| #[trigger]
                after.dirs.contains(d) ==> fresh.dirs.contains(d) || b.dirs.contains(d)
            &&& forall|p: Seq<u8>| #[trigger]
                after.absent.contains(p) ==> fresh.absent.contains(p) || b.absent.contains(p)
        }),
{
    if targets.len() > 0 {
        let kept = b.without_all(targets);
        let fresh = gathered(targets, seen);
        let mid = kept.with(fresh.in_order());
        let after = b.pinned(targets, seen);
        law_dropping_keeps_others(b, targets);
        law_entries_are_kept_by_path(fresh);
        law_entries_are_kept_by_path(mid);
        assert forall|f: FileView| #[trigger] after.files.contains(f) implies fresh.files.contains(f)
            || b.files.contains(f) by {
            assert(mid.files.contains(f));
            lemma_either(kept.files, fresh.in_order().files, f);
            assert(fresh.in_order().files.contains(f) || kept.files.contains(f));
        }
        assert forall|d: DirView| #[trigger] after.dirs.contains(d) implies fresh.dirs.contains(d)
            || b.dirs.contains(d) by {
            assert(mid.dirs.contains(d));
            lemma_either(kept.dirs, fresh.in_order().dirs, d);
            assert(fresh.in_order().dirs.contains(d) || kept.dirs.contains(d));
        }
        assert forall|p: Seq<u8>| #[trigger] after.absent.contains(p) implies fresh.absent.contains(
            p,
        ) || b.absent.contains(p) by {
            assert(mid.absent.contains(p));
            lemma_either(kept.absent, fresh.in_order().absent, p);
            assert(fresh.in_order().absent.contains(p) || kept.absent.contains(p));
        }
    }
}

} // verus!
