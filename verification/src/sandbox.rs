//! Running a program in a private mount namespace: with a directory vault's
//! contents exposed in memory, with credential paths masked, or with verified
//! files frozen. What is decided here is what to do, and in which order.
use crate::crypto;
use crate::integrity::verifying::FrozenView;
use crate::integrity::FrozenItem;
use crate::order;
use crate::path::FsPath;
use crate::shim;
use crate::text;
use vstd::prelude::*;

verus! {

/// What a path leads to, links followed.
#[derive(Clone, Copy, Debug, PartialEq, Eq, Structural)]
pub enum PathKind {
    Dir,
    File,
    /// Nothing, a dangling link, or a special file.
    Other,
}

/// How a path is masked.
pub enum Mask {
    /// An empty memory file system goes over the directory.
    EmptyDir(FsPath),
    /// An empty file is bound over the file.
    EmptyFile(FsPath),
}

pub enum MaskView {
    EmptyDir(Seq<u8>),
    EmptyFile(Seq<u8>),
}

impl View for Mask {
    type V = MaskView;

    open spec fn view(&self) -> MaskView {
        match self {
            Mask::EmptyDir(p) => MaskView::EmptyDir(p@),
            Mask::EmptyFile(p) => MaskView::EmptyFile(p@),
        }
    }
}

/// The masks of paths that lead to something, in order.
pub open spec fn masks(paths: Seq<Seq<u8>>, kinds: Seq<PathKind>) -> Seq<MaskView>
    decreases paths.len(),
{
    if paths.len() == 0 {
        Seq::empty()
    } else {
        let rest = masks(paths.drop_last(), kinds);
        match kinds[paths.len() - 1] {
            PathKind::Dir => rest.push(MaskView::EmptyDir(paths.last())),
            PathKind::File => rest.push(MaskView::EmptyFile(paths.last())),
            PathKind::Other => rest,
        }
    }
}

/// How to mask each of `paths`, given what each leads to. Paths that lead to
/// nothing are left alone.
pub fn mask_paths(paths: &[FsPath], kinds: &[PathKind]) -> (r: Vec<Mask>)
    requires
        paths@.len() == kinds@.len(),
    ensures
        order::views(r@) == masks(order::views(paths@), kinds@),
{
    let ghost all = order::views(paths@);
    let mut r: Vec<Mask> = Vec::new();
    let mut i: usize = 0;
    assert(all.take(0) =~= Seq::<Seq<u8>>::empty());
    assert(order::views(r@) =~= Seq::<MaskView>::empty());
    while i < paths.len()
        invariant
            paths@.len() == kinds@.len(),
            i <= paths@.len(),
            all == order::views(paths@),
            order::views(r@) == masks(all.take(i as int), kinds@),
        decreases paths.len() - i,
    {
        let ghost done = r@;
        proof {
            assert(all.take(i + 1).drop_last() =~= all.take(i as int));
            assert(all.take(i + 1).last() == paths@[i as int]@);
        }
        match kinds[i] {
            PathKind::Dir => {
                let m = Mask::EmptyDir(paths[i].clone());
                r.push(m);
                assert(order::views(r@) =~= order::views(done).push(m@));
            },
            PathKind::File => {
                let m = Mask::EmptyFile(paths[i].clone());
                r.push(m);
                assert(order::views(r@) =~= order::views(done).push(m@));
            },
            PathKind::Other => {},
        }
        i += 1;
    }
    assert(all.take(all.len() as int) =~= all);
    r
}

/// Every path that leads to a file or a directory is masked.
pub proof fn law_existing_paths_are_masked(paths: Seq<Seq<u8>>, kinds: Seq<PathKind>, i: int)
    requires
        0 <= i < paths.len() <= kinds.len(),
    ensures
        kinds[i] == PathKind::Dir ==> masks(paths, kinds).contains(MaskView::EmptyDir(paths[i])),
        kinds[i] == PathKind::File ==> masks(paths, kinds).contains(MaskView::EmptyFile(paths[i])),
    decreases paths.len(),
{
    let init = paths.drop_last();
    let all = masks(paths, kinds);
    let before = masks(init, kinds);
    if i == paths.len() - 1 {
        if kinds[i] != PathKind::Other {
            assert(all[all.len() - 1] == all.last());
        }
    } else {
        law_existing_paths_are_masked(init, kinds, i);
        assert(init[i] == paths[i]);
        assert forall|m: MaskView| before.contains(m) implies all.contains(m) by {
            let k = before.index_of(m);
            assert(all[k] == m);
        }
    }
}

/// How a verified item is put in place.
pub enum Freeze {
    /// The item's bytes go into a file of this name, which is bound over its
    /// path.
    Bind { item: usize, staged: String },
    /// A memory file system goes over the item's path, and its files into it.
    Layout { item: usize },
    /// An empty memory file system goes over the item's path.
    EmptyDir { item: usize },
    /// An empty file is bound over the item's path.
    EmptyFile { item: usize },
}

pub enum FreezeView {
    Bind { item: usize, staged: Seq<char> },
    Layout { item: usize },
    EmptyDir { item: usize },
    EmptyFile { item: usize },
}

impl View for Freeze {
    type V = FreezeView;

    open spec fn view(&self) -> FreezeView {
        match self {
            Freeze::Bind { item, staged } => FreezeView::Bind { item: *item, staged: staged@ },
            Freeze::Layout { item } => FreezeView::Layout { item: *item },
            Freeze::EmptyDir { item } => FreezeView::EmptyDir { item: *item },
            Freeze::EmptyFile { item } => FreezeView::EmptyFile { item: *item },
        }
    }
}

/// The name of the staging file of the `n`-th file.
pub open spec fn staged_name(n: nat) -> Seq<char> {
    seq!['f'] + text::decimal(n)
}

/// How many of the items are files.
pub open spec fn file_count(items: Seq<FrozenView>) -> nat
    decreases items.len(),
{
    if items.len() == 0 {
        0
    } else {
        file_count(items.drop_last()) + if items.last() is File {
            1nat
        } else {
            0
        }
    }
}

/// How each item is put in place; an absent path is emptied if it leads to
/// something.
pub open spec fn freezes(items: Seq<FrozenView>, kinds: Seq<PathKind>) -> Seq<FreezeView>
    decreases items.len(),
{
    if items.len() == 0 {
        Seq::empty()
    } else {
        let n = (items.len() - 1) as usize;
        let rest = freezes(items.drop_last(), kinds);
        match items.last() {
            FrozenView::File { .. } => rest.push(
                FreezeView::Bind { item: n, staged: staged_name(file_count(items.drop_last())) },
            ),
            FrozenView::Dir { .. } => rest.push(FreezeView::Layout { item: n }),
            FrozenView::Absent { .. } => match kinds[n as int] {
                PathKind::Dir => rest.push(FreezeView::EmptyDir { item: n }),
                PathKind::File => rest.push(FreezeView::EmptyFile { item: n }),
                PathKind::Other => rest,
            },
        }
    }
}

/// How to put each verified item in place. `kinds` says what each item's path
/// leads to now.
pub fn freeze_items(items: &Vec<FrozenItem>, kinds: &[PathKind]) -> (r: Vec<Freeze>)
    requires
        items@.len() == kinds@.len(),
    ensures
        order::views(r@) == freezes(order::views(items@), kinds@),
{
    let ghost all = order::views(items@);
    let mut r: Vec<Freeze> = Vec::new();
    let mut files: u64 = 0;
    let mut i: usize = 0;
    assert(all.take(0) =~= Seq::<FrozenView>::empty());
    assert(order::views(r@) =~= Seq::<FreezeView>::empty());
    while i < items.len()
        invariant
            items@.len() == kinds@.len(),
            i <= items@.len(),
            all == order::views(items@),
            files == file_count(all.take(i as int)),
            files <= i,
            order::views(r@) == freezes(all.take(i as int), kinds@),
        decreases items.len() - i,
    {
        let ghost done = r@;
        proof {
            assert(all.take(i + 1).drop_last() =~= all.take(i as int));
            assert(all.take(i + 1).last() == items@[i as int]@);
        }
        match &items[i] {
            FrozenItem::File { .. } => {
                let mut staged = String::new();
                staged.push('f');
                text::push_decimal(&mut staged, files);
                assert(staged@ =~= staged_name(files as nat));
                let f = Freeze::Bind { item: i, staged };
                r.push(f);
                files = files + 1;
                assert(order::views(r@) =~= order::views(done).push(f@));
            },
            FrozenItem::Dir { .. } => {
                let f = Freeze::Layout { item: i };
                r.push(f);
                assert(order::views(r@) =~= order::views(done).push(f@));
            },
            FrozenItem::Absent { .. } => match kinds[i] {
                PathKind::Dir => {
                    let f = Freeze::EmptyDir { item: i };
                    r.push(f);
                    assert(order::views(r@) =~= order::views(done).push(f@));
                },
                PathKind::File => {
                    let f = Freeze::EmptyFile { item: i };
                    r.push(f);
                    assert(order::views(r@) =~= order::views(done).push(f@));
                },
                PathKind::Other => {},
            },
        }
        i += 1;
    }
    assert(all.take(all.len() as int) =~= all);
    r
}

/// Every verified item is put in place: a file's bytes and a directory's files
/// over their paths, and nothing over a path that was absent and now leads to
/// something.
pub proof fn law_items_are_put_in_place(items: Seq<FrozenView>, kinds: Seq<PathKind>, i: int)
    requires
        0 <= i < items.len() <= kinds.len(),
        items.len() <= usize::MAX,
    ensures
        items[i] is File ==> freezes(items, kinds).contains(
            FreezeView::Bind { item: i as usize, staged: staged_name(file_count(items.take(i))) },
        ),
        items[i] is Dir ==> freezes(items, kinds).contains(FreezeView::Layout { item: i as usize }),
        items[i] is Absent && kinds[i] == PathKind::Dir ==> freezes(items, kinds).contains(
            FreezeView::EmptyDir { item: i as usize },
        ),
        items[i] is Absent && kinds[i] == PathKind::File ==> freezes(items, kinds).contains(
            FreezeView::EmptyFile { item: i as usize },
        ),
    decreases items.len(),
{
    let init = items.drop_last();
    let all = freezes(items, kinds);
    let before = freezes(init, kinds);
    if i == items.len() - 1 {
        assert(items.take(i) =~= init);
        if all.len() > before.len() {
            assert(all[all.len() - 1] == all.last());
        }
    } else {
        law_items_are_put_in_place(init, kinds, i);
        assert(init[i] == items[i]);
        assert(init.take(i) =~= items.take(i));
        assert forall|f: FreezeView| before.contains(f) implies all.contains(f) by {
            let k = before.index_of(f);
            assert(all[k] == f);
        }
    }
}

/// Different files are staged under different names.
pub proof fn law_staged_names_differ(m: nat, n: nat)
    requires
        m != n,
    ensures
        staged_name(m) != staged_name(n),
{
    shim::lemma_decimal_value(m);
    shim::lemma_decimal_value(n);
    if staged_name(m) == staged_name(n) {
        assert(staged_name(m).skip(1) =~= text::decimal(m));
        assert(staged_name(n).skip(1) =~= text::decimal(n));
    }
}

/// What an entry beside a vaulted file is.
#[derive(Clone, Copy, Debug, PartialEq, Eq, Structural)]
pub enum EntryKind {
    Link,
    Dir,
    Other,
}

/// How an entry beside a vaulted file is put back.
#[derive(Clone, Copy, Debug, PartialEq, Eq, Structural)]
pub enum Sibling {
    /// Not at all: it is the vaulted file.
    Skip,
    /// The link is made again.
    MakeLink,
    /// A directory is made and the real one bound over it.
    BindDir,
    /// A file is made and the real one bound over it.
    BindFile,
}

/// How to put back an entry beside the vaulted file `vaulted`.
pub fn rebind_sibling(name: &[u8], vaulted: &[u8], kind: EntryKind) -> (r: Sibling)
    ensures
        r == (if name@ == vaulted@ {
            Sibling::Skip
        } else {
            match kind {
                EntryKind::Link => Sibling::MakeLink,
                EntryKind::Dir => Sibling::BindDir,
                EntryKind::Other => Sibling::BindFile,
            }
        }),
{
    if crypto::same_bytes(name, vaulted) {
        return Sibling::Skip;
    }
    match kind {
        EntryKind::Link => Sibling::MakeLink,
        EntryKind::Dir => Sibling::BindDir,
        EntryKind::Other => Sibling::BindFile,
    }
}

/// The name of a private scratch directory of this process.
pub fn scratch_name(tag: &str, pid: u32) -> (r: String)
    ensures
        r@ == ".envvault-"@ + tag@ + "-"@ + text::decimal(pid as nat),
{
    let mut r = String::new();
    r.append(".envvault-");
    r.append(tag);
    r.append("-");
    text::push_decimal(&mut r, pid as u64);
    assert(r@ =~= ".envvault-"@ + tag@ + "-"@ + text::decimal(pid as nat));
    r
}

/// The line that maps one id to itself in a user namespace.
pub fn id_map(id: u32) -> (r: String)
    ensures
        r@ == text::decimal(id as nat) + " "@ + text::decimal(id as nat) + " 1"@,
{
    let mut r = String::new();
    text::push_decimal(&mut r, id as u64);
    r.append(" ");
    text::push_decimal(&mut r, id as u64);
    r.append(" 1");
    assert(r@ =~= text::decimal(id as nat) + " "@ + text::decimal(id as nat) + " 1"@);
    r
}

/// Whether an error number of the system says that user namespaces are
/// restricted: `EPERM` or `EACCES`.
pub fn is_restricted(errno: i32) -> (r: bool)
    ensures
        r == (errno == 1 || errno == 13),
{
    errno == 1 || errno == 13
}

/// What to tell where user namespaces are restricted.
pub fn userns_unavailable(detail: &str) -> (r: String)
    ensures
        r@ == "could not set up a user namespace ("@ + detail@
            + ").\nDirectory vaults need unprivileged user namespaces, which this system appears to restrict or disable. Enable them, for example:\n  sudo sysctl -w kernel.unprivileged_userns_clone=1\n(On Ubuntu 24.04+ you may also need: sudo sysctl -w kernel.apparmor_restrict_unprivileged_userns=0)"@,
{
    let mut r = String::new();
    r.append("could not set up a user namespace (");
    r.append(detail);
    r.append(
        ").\nDirectory vaults need unprivileged user namespaces, which this system appears to restrict or disable. Enable them, for example:\n  sudo sysctl -w kernel.unprivileged_userns_clone=1\n(On Ubuntu 24.04+ you may also need: sudo sysctl -w kernel.apparmor_restrict_unprivileged_userns=0)",
    );
    assert(r@ =~= "could not set up a user namespace ("@ + detail@
        + ").\nDirectory vaults need unprivileged user namespaces, which this system appears to restrict or disable. Enable them, for example:\n  sudo sysctl -w kernel.unprivileged_userns_clone=1\n(On Ubuntu 24.04+ you may also need: sudo sysctl -w kernel.apparmor_restrict_unprivileged_userns=0)"@);
    r
}

/// Exactly the paths that lead to something are masked: a directory by an empty one, a
/// file by an empty one, each as often and in the order as it is given.
pub proof fn law_masks_exactly(paths: Seq<Seq<u8>>, kinds: Seq<PathKind>, p: Seq<u8>, k: PathKind)
    requires
        paths.len() == kinds.len(),
    ensures
        masks(Seq::empty(), Seq::empty()) == Seq::<MaskView>::empty(),
        masks(paths.push(p), kinds.push(k)) == masks(paths, kinds) + (match k {
            PathKind::Dir => seq![MaskView::EmptyDir(p)],
            PathKind::File => seq![MaskView::EmptyFile(p)],
            PathKind::Other => Seq::empty(),
        }),
        forall|m: MaskView| #[trigger]
            masks(paths, kinds).contains(m) ==> exists|i: int|
                0 <= i < paths.len() && (#[trigger] kinds[i] == PathKind::Dir && m
                    == MaskView::EmptyDir(paths[i]) || kinds[i] == PathKind::File && m
                    == MaskView::EmptyFile(paths[i])),
    decreases paths.len(),
{
    assert(paths.push(p).drop_last() =~= paths);
    lemma_masks_kinds(paths, kinds, k);
    assert(masks(paths.push(p), kinds.push(k)) =~= masks(paths, kinds) + (match k {
        PathKind::Dir => seq![MaskView::EmptyDir(p)],
        PathKind::File => seq![MaskView::EmptyFile(p)],
        PathKind::Other => Seq::empty(),
    }));
    if paths.len() > 0 {
        let init = paths.drop_last();
        let before = kinds.drop_last();
        law_masks_exactly(init, before, p, k);
        lemma_masks_kinds(init, before, kinds.last());
        assert(before.push(kinds.last()) =~= kinds);
        let all = masks(paths, kinds);
        let rest = masks(init, before);
        assert forall|m: MaskView| #[trigger] all.contains(m) implies exists|i: int|
            0 <= i < paths.len() && (#[trigger] kinds[i] == PathKind::Dir && m
                == MaskView::EmptyDir(paths[i]) || kinds[i] == PathKind::File && m
                == MaskView::EmptyFile(paths[i])) by {
            let j = all.index_of(m);
            if j < rest.len() {
                assert(rest[j] == m);
                assert(rest.contains(m));
                let i = choose|i: int|
                    0 <= i < init.len() && (#[trigger] before[i] == PathKind::Dir && m
                        == MaskView::EmptyDir(init[i]) || before[i] == PathKind::File && m
                        == MaskView::EmptyFile(init[i]));
                assert(kinds[i] == before[i] && paths[i] == init[i]);
            } else {
                let n = paths.len() - 1;
                assert(kinds[n] == kinds.last());
            }
        }
    }
}

proof fn lemma_masks_kinds(paths: Seq<Seq<u8>>, kinds: Seq<PathKind>, k: PathKind)
    requires
        paths.len() <= kinds.len(),
    ensures
        masks(paths, kinds.push(k)) == masks(paths, kinds),
    decreases paths.len(),
{
    if paths.len() > 0 {
        lemma_masks_kinds(paths.drop_last(), kinds, k);
    }
}

/// The item that a freeze puts in place.
pub open spec fn frozen_item(f: FreezeView) -> usize {
    match f {
        FreezeView::Bind { item, .. } => item,
        FreezeView::Layout { item } => item,
        FreezeView::EmptyDir { item } => item,
        FreezeView::EmptyFile { item } => item,
    }
}

/// Nothing else is put in place: each freeze is of one item and as that item asks for,
/// and the items are taken in order, none twice.
pub proof fn law_freezes_are_of_items(items: Seq<FrozenView>, kinds: Seq<PathKind>)
    requires
        items.len() <= kinds.len(),
        items.len() <= usize::MAX,
    ensures
        ({
            let all = freezes(items, kinds);
            &&& forall|a: int|
                0 <= a < all.len() ==> frozen_item(#[trigger] all[a]) < items.len() && match all[a] {
                    FreezeView::Bind { item, .. } => items[item as int] is File,
                    FreezeView::Layout { item } => items[item as int] is Dir,
                    FreezeView::EmptyDir { item } => items[item as int] is Absent
                        && kinds[item as int] == PathKind::Dir,
                    FreezeView::EmptyFile { item } => items[item as int] is Absent
                        && kinds[item as int] == PathKind::File,
                }
            &&& forall|a: int, b: int|
                0 <= a < b < all.len() ==> frozen_item(#[trigger] all[a]) < frozen_item(
                    #[trigger] all[b],
                )
        }),
    decreases items.len(),
{
    if items.len() > 0 {
        let init = items.drop_last();
        law_freezes_are_of_items(init, kinds);
        let all = freezes(items, kinds);
        let rest = freezes(init, kinds);
        assert forall|a: int| 0 <= a < all.len() implies frozen_item(#[trigger] all[a])
            < items.len() && match all[a] {
            FreezeView::Bind { item, .. } => items[item as int] is File,
            FreezeView::Layout { item } => items[item as int] is Dir,
            FreezeView::EmptyDir { item } => items[item as int] is Absent && kinds[item as int]
                == PathKind::Dir,
            FreezeView::EmptyFile { item } => items[item as int] is Absent && kinds[item as int]
                == PathKind::File,
        } by {
            if a < rest.len() {
                assert(all[a] == rest[a]);
                assert(init[frozen_item(rest[a]) as int] == items[frozen_item(rest[a]) as int]);
            }
        }
        assert forall|a: int, b: int| 0 <= a < b < all.len() implies frozen_item(
            #[trigger] all[a],
        ) < frozen_item(#[trigger] all[b]) by {
            assert(all[a] == rest[a]);
            if b < rest.len() {
                assert(all[b] == rest[b]);
            } else {
                assert(frozen_item(rest[a]) < init.len());
            }
        }
    }
}

proof fn lemma_file_count_grows(items: Seq<FrozenView>, i: int, j: int)
    requires
        0 <= i < j <= items.len(),
        items[i] is File,
    ensures
        file_count(items.take(i)) < file_count(items.take(j)),
    decreases j - i,
{
    assert(items.take(j).drop_last() =~= items.take(j - 1));
    assert(items.take(j).last() == items[j - 1]);
    if i < j - 1 {
        lemma_file_count_grows(items, i, j - 1);
    }
}

/// Each file is staged under a name of its own: `f` and a number that no other file
/// of the same run has.
pub proof fn law_staged_files_are_apart(items: Seq<FrozenView>, i: int, j: int)
    requires
        0 <= i < j < items.len(),
        items[i] is File,
        items[j] is File,
    ensures
        staged_name(file_count(items.take(i))) != staged_name(file_count(items.take(j))),
        staged_name(file_count(items.take(i))).len() > 1,
        staged_name(file_count(items.take(i)))[0] == 'f',
        forall|k: int|
            0 < k < staged_name(file_count(items.take(i))).len() ==> '0' <= #[trigger] staged_name(
                file_count(items.take(i)),
            )[k] && staged_name(file_count(items.take(i)))[k] <= '9',
        !staged_name(file_count(items.take(i))).contains('/'),
{
    lemma_file_count_grows(items, i, j);
    law_staged_names_differ(file_count(items.take(i)), file_count(items.take(j)));
    let n = file_count(items.take(i));
    shim::lemma_decimal_is_digits(n);
    let s = staged_name(n);
    assert forall|k: int| 0 < k < s.len() implies '0' <= #[trigger] s[k] && s[k] <= '9' by {
        assert(s[k] == text::decimal(n)[k - 1]);
        assert(shim::is_digit(text::decimal(n)[k - 1]));
    }
}

} // verus!
