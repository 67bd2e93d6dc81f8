//! What a walk over a directory finds: the regular files in it, and mount points.
use crate::order;
use crate::order::Ranked;
use crate::path;
use crate::path::FsPath;
use crate::secret::SecretBytes;
use vstd::prelude::*;

verus! {

/// A file that was found, with its content.
pub struct LiveFile {
    pub path: FsPath,
    pub bytes: SecretBytes,
}

#[verifier::ext_equal]
pub struct LiveView {
    pub path: Seq<u8>,
    pub bytes: Seq<u8>,
}

impl View for LiveFile {
    type V = LiveView;

    open spec fn view(&self) -> LiveView {
        LiveView { path: self.path@, bytes: self.bytes@ }
    }
}

/// Found files are ordered by their paths.
impl Ranked for LiveFile {
    open spec fn precedes(a: LiveView, b: LiveView) -> bool {
        path::before(a.path, b.path)
    }

    proof fn one_way(a: LiveView, b: LiveView) {
        path::lemma_before_one_way(a.path, b.path);
    }

    proof fn chained(a: LiveView, b: LiveView, c: LiveView) {
        path::lemma_before_chained(a.path, b.path, c.path);
    }

    fn is_ahead_of(&self, other: &Self) -> (r: bool) {
        self.path.is_before(&other.path)
    }
}

/// One entry of a directory.
pub struct Node {
    pub path: FsPath,
    pub kind: NodeKind,
}

/// What an entry is. Contents are missing where they could not be read or are
/// above the size limit.
pub enum NodeKind {
    /// It could not be looked at any more.
    Gone,
    /// A symbolic link to a regular file.
    LinkToFile(Option<SecretBytes>),
    /// A symbolic link to a directory, to a special file, or to nothing.
    LinkElsewhere,
    /// A directory.
    Dir(Option<Vec<Node>>),
    /// A regular file.
    File(Option<SecretBytes>),
    /// A socket, a pipe or a device.
    Special,
}

/// The regular files among the nodes and below their directories. Links to
/// files count as files; links to directories are not followed.
pub open spec fn flat(nodes: Seq<Node>) -> Seq<LiveView>
    decreases nodes,
{
    if nodes.len() == 0 {
        Seq::empty()
    } else {
        let n = nodes[nodes.len() - 1];
        let here = match n.kind {
            NodeKind::LinkToFile(Some(b)) => seq![LiveView { path: n.path@, bytes: b@ }],
            NodeKind::File(Some(b)) => seq![LiveView { path: n.path@, bytes: b@ }],
            NodeKind::Dir(Some(children)) => flat(children@),
            _ => Seq::empty(),
        };
        here + flat(nodes.drop_last())
    }
}

/// Whether every file and directory among and below the nodes could be read.
pub open spec fn readable(nodes: Seq<Node>) -> bool
    decreases nodes,
{
    nodes.len() > 0 ==> {
        let n = nodes[nodes.len() - 1];
        &&& match n.kind {
            NodeKind::LinkToFile(None) => false,
            NodeKind::File(None) => false,
            NodeKind::Dir(None) => false,
            NodeKind::Dir(Some(children)) => readable(children@),
            _ => true,
        }
        &&& readable(nodes.drop_last())
    }
}

/// Appends the regular files among and below the nodes. Stops with `false` at
/// what could not be read.
fn flatten(nodes: Vec<Node>, out: &mut Vec<LiveFile>) -> (ok: bool)
    ensures
        ok == readable(nodes@),
        ok ==> order::views(final(out)@) == order::views(old(out)@) + flat(nodes@),
    decreases nodes@,
{
    let ghost all = nodes@;
    let mut rest = nodes;
    assert(order::views(out@) + flat(all) =~= order::views(old(out)@) + flat(all));
    while rest.len() > 0
        invariant
            all == nodes@,
            rest@.len() <= all.len(),
            rest@ == all.take(rest@.len() as int),
            readable(all) == readable(rest@),
            order::views(out@) + flat(rest@) == order::views(old(out)@) + flat(all),
            decreases_to!(all => rest@) || rest@ == all,
        decreases rest@.len(),
    {
        let ghost before = rest@;
        let ghost have = out@;
        let n = match rest.pop() {
            Some(n) => n,
            None => {
                return false;
            },
        };
        assert(rest@ == before.drop_last());
        assert(n == before[before.len() - 1]);
        match n.kind {
            NodeKind::LinkToFile(content) | NodeKind::File(content) => match content {
                Some(bytes) => {
                    let f = LiveFile { path: n.path, bytes };
                    out.push(f);
                    assert(order::views(out@) =~= order::views(have) + seq![f@]);
                    assert(order::views(have) + (seq![f@] + flat(rest@)) =~= order::views(out@)
                        + flat(rest@));
                },
                None => {
                    return false;
                },
            },
            NodeKind::Dir(listing) => match listing {
                Some(children) => {
                    let ghost inner = children@;
                    assert(decreases_to!(all => inner));
                    if !flatten(children, out) {
                        return false;
                    }
                    assert(order::views(have) + (flat(inner) + flat(rest@)) =~= order::views(out@)
                        + flat(rest@));
                },
                None => {
                    return false;
                },
            },
            NodeKind::Gone | NodeKind::LinkElsewhere | NodeKind::Special => {
                assert(Seq::<LiveView>::empty() + flat(rest@) =~= flat(rest@));
            },
        }
    }
    assert(order::views(out@) + flat(rest@) =~= order::views(out@));
    true
}

/// The regular files among and below the nodes, in the order of their paths.
/// `None` if anything could not be read.
pub fn collect_dir_files(nodes: Vec<Node>) -> (r: Option<Vec<LiveFile>>)
    ensures
        r is Some <==> readable(nodes@),
        r matches Some(files) ==> order::views(files@) == order::sorted::<LiveFile>(flat(nodes@)),
{
    let mut out: Vec<LiveFile> = Vec::new();
    let ghost all = flat(nodes@);
    assert(order::views(out@) + all =~= all);
    if flatten(nodes, &mut out) {
        order::sort(&mut out);
        Some(out)
    } else {
        None
    }
}

/// An entry of a directory on some file system.
pub struct Place {
    pub path: FsPath,
    pub is_link: bool,
    pub device: u64,
    /// The entries of a directory that is walked; nothing of anything else.
    pub children: Vec<Place>,
}

/// Whether an entry, not being a link, stands on another file system.
pub open spec fn is_mount(root_device: u64, p: Place) -> bool {
    !p.is_link && p.device != root_device
}

/// Whether an entry's own entries are looked at.
pub open spec fn is_walked(root_device: u64, p: Place) -> bool {
    !p.is_link && p.device == root_device
}

/// Whether a walk looks into an entry: a directory on the file system where the
/// walk began.
pub fn walks_into(root_device: u64, is_link: bool, device: u64, is_dir: bool) -> (r: bool)
    ensures
        r == (!is_link && device == root_device && is_dir),
{
    !is_link && device == root_device && is_dir
}

/// The entries of one directory that stand on another file system.
pub open spec fn mounts_here(root_device: u64, places: Seq<Place>) -> Seq<Seq<u8>>
    decreases places.len(),
{
    if places.len() == 0 {
        Seq::empty()
    } else {
        let rest = mounts_here(root_device, places.drop_last());
        if is_mount(root_device, places.last()) {
            rest.push(places.last().path@)
        } else {
            rest
        }
    }
}

/// Everything among and below the entries of a directory that stands on another
/// file system: first the entries themselves, then what is below them, from the
/// last entry to the first.
pub open spec fn mounts(root_device: u64, places: Seq<Place>) -> Seq<Seq<u8>>
    decreases places, 1int,
{
    mounts_here(root_device, places) + mounts_below(root_device, places)
}

pub open spec fn mounts_below(root_device: u64, places: Seq<Place>) -> Seq<Seq<u8>>
    decreases places, 0int,
{
    if places.len() == 0 {
        Seq::empty()
    } else {
        let last = places[places.len() - 1];
        let deep = if is_walked(root_device, last) {
            mounts(root_device, last.children@)
        } else {
            Seq::empty()
        };
        deep + mounts_below(root_device, places.drop_last())
    }
}

/// The first entry among and below the entries of a directory that stands on
/// another file system.
pub fn find_submount(root_device: u64, places: &Vec<Place>) -> (r: Option<FsPath>)
    ensures
        match r {
            Some(p) => {
                &&& mounts(root_device, places@).len() > 0
                &&& p@ == mounts(root_device, places@)[0]
            },
            None => mounts(root_device, places@).len() == 0,
        },
    decreases places@,
{
    let ghost all = places@;
    let mut i: usize = 0;
    assert(all.take(0) =~= Seq::<Place>::empty());
    while i < places.len()
        invariant
            i <= places@.len(),
            all == places@,
            mounts_here(root_device, all.take(i as int)).len() == 0,
        decreases places.len() - i,
    {
        let p = &places[i];
        assert(all.take(i + 1).drop_last() =~= all.take(i as int));
        assert(all.take(i + 1).last() == *p);
        if !p.is_link && p.device != root_device {
            proof {
                assert(mounts_here(root_device, all.take(i + 1))[0] == p.path@);
                lemma_mounts_here(root_device, all, i + 1);
            }
            return Some(p.path.clone());
        }
        i += 1;
    }
    assert(all.take(all.len() as int) =~= all);
    let mut n: usize = places.len();
    while n > 0
        invariant
            n <= places@.len(),
            all == places@,
            mounts_here(root_device, all).len() == 0,
            mounts_below(root_device, all) == mounts_below(root_device, all.take(n as int)),
        decreases n,
    {
        let p = &places[n - 1];
        let ghost t = all.take(n as int);
        assert(t[n - 1] == *p);
        assert(t.drop_last() =~= all.take(n - 1));
        if !p.is_link && p.device == root_device {
            proof {
                assert(all[n - 1] == *p);
                assert(decreases_to!(all => all[n - 1]));
                assert(decreases_to!(all[n - 1] => all[n - 1].children@));
            }
            if let Some(found) = find_submount(root_device, &p.children) {
                assert(mounts(root_device, all)[0] == found@);
                return Some(found);
            }
        }
        assert(mounts_below(root_device, t) =~= mounts_below(root_device, all.take(n - 1)));
        n -= 1;
    }
    assert(all.take(0) =~= Seq::<Place>::empty());
    None
}

/// What is found among the first entries is found first.
proof fn lemma_mounts_here(root_device: u64, places: Seq<Place>, n: int)
    requires
        0 <= n <= places.len(),
        mounts_here(root_device, places.take(n)).len() > 0,
    ensures
        mounts_here(root_device, places).len() > 0,
        mounts_here(root_device, places)[0] == mounts_here(root_device, places.take(n))[0],
    decreases places.len(),
{
    if n == places.len() {
        assert(places.take(n) =~= places);
    } else {
        let init = places.drop_last();
        assert(init.take(n) =~= places.take(n));
        lemma_mounts_here(root_device, init, n);
    }
}

/// Whether nothing among and below the entries stands on another file system.
pub open spec fn one_file_system(root_device: u64, places: Seq<Place>) -> bool
    decreases places,
{
    places.len() > 0 ==> {
        let last = places[places.len() - 1];
        &&& !is_mount(root_device, last)
        &&& is_walked(root_device, last) ==> one_file_system(root_device, last.children@)
        &&& one_file_system(root_device, places.drop_last())
    }
}

/// No mount point below a directory is missed: none is found exactly if all of
/// it stands on one file system.
pub proof fn law_every_mount_is_found(root_device: u64, places: Seq<Place>)
    ensures
        mounts(root_device, places).len() == 0 <==> one_file_system(root_device, places),
    decreases places,
{
    if places.len() > 0 {
        let init = places.drop_last();
        let last = places[places.len() - 1];
        law_every_mount_is_found(root_device, init);
        if is_walked(root_device, last) {
            law_every_mount_is_found(root_device, last.children@);
        }
    }
}

/// The node at the end of a trail: an index among the nodes, and then one in each
/// directory on the way down.
pub open spec fn node_at(nodes: Seq<Node>, trail: Seq<int>) -> Option<Node>
    decreases trail.len(),
{
    if trail.len() == 0 || !(0 <= trail[0] < nodes.len()) {
        None
    } else if trail.len() == 1 {
        Some(nodes[trail[0]])
    } else {
        match nodes[trail[0]].kind {
            NodeKind::Dir(Some(children)) => node_at(children@, trail.skip(1)),
            _ => None,
        }
    }
}

/// Whether a node is a regular file, or a link to one, with a path and a content.
pub open spec fn is_file_with(n: Node, path: Seq<u8>, bytes: Seq<u8>) -> bool {
    &&& n.path@ == path
    &&& (n.kind matches NodeKind::File(Some(b)) && b@ == bytes) || (
    n.kind matches NodeKind::LinkToFile(Some(b)) && b@ == bytes)
}

/// Whether the node at the end of a trail is such a file.
pub open spec fn leads_to_file(
    nodes: Seq<Node>,
    trail: Seq<int>,
    path: Seq<u8>,
    bytes: Seq<u8>,
) -> bool {
    node_at(nodes, trail) matches Some(n) && is_file_with(n, path, bytes)
}

proof fn lemma_trail_init(nodes: Seq<Node>, trail: Seq<int>)
    requires
        nodes.len() > 0,
    ensures
        trail.len() > 0 && trail[0] < nodes.len() - 1 ==> node_at(nodes, trail) == node_at(
            nodes.drop_last(),
            trail,
        ),
        trail.len() > 0 && trail[0] == nodes.len() - 1 ==> node_at(nodes, trail) == (
        if trail.len() == 1 {
            Some(nodes[nodes.len() - 1])
        } else {
            match nodes[nodes.len() - 1].kind {
                NodeKind::Dir(Some(children)) => node_at(children@, trail.skip(1)),
                _ => None,
            }
        }),
        trail.len() == 0 || trail[0] >= nodes.len() || trail[0] < 0 ==> node_at(
            nodes,
            trail,
        ) is None,
        trail.len() == 0 || trail[0] >= nodes.len() - 1 ==> node_at(
            nodes.drop_last(),
            trail,
        ) is None,
{
}

proof fn lemma_flat_found(nodes: Seq<Node>, f: LiveView) -> (trail: Seq<int>)
    requires
        flat(nodes).contains(f),
    ensures
        leads_to_file(nodes, trail, f.path, f.bytes),
    decreases nodes,
{
    let n = nodes[nodes.len() - 1];
    let last = nodes.len() - 1;
    let init = nodes.drop_last();
    let all = flat(nodes);
    let k = all.index_of(f);
    let part = all.len() - flat(init).len();
    if k >= part {
        assert(flat(init)[k - part] == f);
        let t = lemma_flat_found(init, f);
        lemma_trail_init(nodes, t);
        t
    } else {
        match n.kind {
            NodeKind::Dir(Some(children)) => {
                assert(flat(children@)[k] == f);
                let inner = lemma_flat_found(children@, f);
                let t = seq![last] + inner;
                assert(t.skip(1) =~= inner);
                assert(inner.len() > 0);
                lemma_trail_init(nodes, t);
                t
            },
            _ => {
                let t = seq![last];
                lemma_trail_init(nodes, t);
                t
            },
        }
    }
}

proof fn lemma_flat_finds(nodes: Seq<Node>, trail: Seq<int>, f: LiveView)
    requires
        leads_to_file(nodes, trail, f.path, f.bytes),
    ensures
        flat(nodes).contains(f),
    decreases nodes,
{
    let n = nodes[nodes.len() - 1];
    let init = nodes.drop_last();
    let all = flat(nodes);
    let part = all.len() - flat(init).len();
    lemma_trail_init(nodes, trail);
    if trail[0] < nodes.len() - 1 {
        lemma_flat_finds(init, trail, f);
        let k = flat(init).index_of(f);
        assert(all[part + k] == f);
    } else if trail.len() == 1 {
        assert(all[0] == f);
    } else {
        match n.kind {
            NodeKind::Dir(Some(children)) => {
                lemma_flat_finds(children@, trail.skip(1), f);
                let k = flat(children@).index_of(f);
                assert(all[k] == f);
            },
            _ => {},
        }
    }
}

/// A walk finds a file exactly if one of the nodes, or one at any depth below
/// their directories, is a regular file or a link to one with that path and that
/// content.
pub proof fn law_walk_finds_every_file(nodes: Seq<Node>, f: LiveView)
    ensures
        flat(nodes).contains(f) <==> exists|trail: Seq<int>|
            leads_to_file(nodes, trail, f.path, f.bytes),
        order::sorted::<LiveFile>(flat(nodes)).contains(f) <==> flat(nodes).contains(f),
        order::sorted::<LiveFile>(flat(nodes)).len() == flat(nodes).len(),
{
    broadcast use vstd::seq_lib::group_to_multiset_ensures;

    if flat(nodes).contains(f) {
        let trail = lemma_flat_found(nodes, f);
        assert(leads_to_file(nodes, trail, f.path, f.bytes));
    }
    if exists|trail: Seq<int>| leads_to_file(nodes, trail, f.path, f.bytes) {
        let trail = choose|trail: Seq<int>| leads_to_file(nodes, trail, f.path, f.bytes);
        lemma_flat_finds(nodes, trail, f);
    }
    order::law_sorted::<LiveFile>(flat(nodes));
    assert(order::sorted::<LiveFile>(flat(nodes)).to_multiset().contains(f) <==> flat(
        nodes,
    ).to_multiset().contains(f));
}

/// How many files a walk finds adds up: one for each file and link to a file, as
/// many as a directory holds for the directory, and none for anything else.
pub proof fn law_walk_counts_every_file(nodes: Seq<Node>, n: Node)
    ensures
        flat(Seq::empty()).len() == 0,
        flat(nodes.push(n)).len() == flat(nodes).len() + (match n.kind {
            NodeKind::File(Some(_)) => 1,
            NodeKind::LinkToFile(Some(_)) => 1,
            NodeKind::Dir(Some(children)) => flat(children@).len() as int,
            _ => 0,
        }),
{
    assert(nodes.push(n).drop_last() =~= nodes);
}

/// Whether a node's content or listing could not be had.
pub open spec fn is_unreadable(n: Node) -> bool {
    match n.kind {
        NodeKind::File(content) => content is None,
        NodeKind::LinkToFile(content) => content is None,
        NodeKind::Dir(listing) => listing is None,
        _ => false,
    }
}

/// Whether the node at the end of a trail could not be read.
pub open spec fn leads_to_unreadable(nodes: Seq<Node>, trail: Seq<int>) -> bool {
    node_at(nodes, trail) matches Some(n) && is_unreadable(n)
}

proof fn lemma_unreadable(nodes: Seq<Node>) -> (trail: Seq<int>)
    requires
        !readable(nodes),
    ensures
        leads_to_unreadable(nodes, trail),
    decreases nodes,
{
    let n = nodes[nodes.len() - 1];
    let last = nodes.len() - 1;
    let init = nodes.drop_last();
    if !readable(init) {
        let t = lemma_unreadable(init);
        lemma_trail_init(nodes, t);
        t
    } else {
        match n.kind {
            NodeKind::Dir(Some(children)) => {
                let inner = lemma_unreadable(children@);
                let t = seq![last] + inner;
                assert(t.skip(1) =~= inner);
                assert(inner.len() > 0);
                lemma_trail_init(nodes, t);
                t
            },
            _ => {
                let t = seq![last];
                lemma_trail_init(nodes, t);
                t
            },
        }
    }
}

proof fn lemma_readable(nodes: Seq<Node>, trail: Seq<int>)
    requires
        leads_to_unreadable(nodes, trail),
    ensures
        !readable(nodes),
    decreases nodes,
{
    let n = nodes[nodes.len() - 1];
    lemma_trail_init(nodes, trail);
    if trail[0] < nodes.len() - 1 {
        lemma_readable(nodes.drop_last(), trail);
    } else if trail.len() > 1 {
        match n.kind {
            NodeKind::Dir(Some(children)) => {
                lemma_readable(children@, trail.skip(1));
            },
            _ => {},
        }
    }
}

/// A walk fails exactly if a file or a directory at any depth could not be read:
/// nothing is passed over in silence.
pub proof fn law_walk_fails_on_unreadable(nodes: Seq<Node>)
    ensures
        !readable(nodes) <==> exists|trail: Seq<int>| leads_to_unreadable(nodes, trail),
{
    if !readable(nodes) {
        let trail = lemma_unreadable(nodes);
        assert(leads_to_unreadable(nodes, trail));
    }
    if exists|trail: Seq<int>| leads_to_unreadable(nodes, trail) {
        let trail = choose|trail: Seq<int>| leads_to_unreadable(nodes, trail);
        lemma_readable(nodes, trail);
    }
}

/// The entry at the end of a trail that leads through entries on the same file
/// system which are no links.
pub open spec fn place_at(root_device: u64, places: Seq<Place>, trail: Seq<int>) -> Option<Place>
    decreases trail.len(),
{
    if trail.len() == 0 || !(0 <= trail[0] < places.len()) {
        None
    } else {
        let p = places[trail[0]];
        if trail.len() == 1 {
            Some(p)
        } else if !p.is_link && p.device == root_device {
            place_at(root_device, p.children@, trail.skip(1))
        } else {
            None
        }
    }
}

/// Whether a trail leads to a mount point with a path.
pub open spec fn leads_to_mount(
    root_device: u64,
    places: Seq<Place>,
    trail: Seq<int>,
    path: Seq<u8>,
) -> bool {
    place_at(root_device, places, trail) matches Some(p) && !p.is_link && p.device != root_device
        && p.path@ == path
}

proof fn lemma_mounts_here_found(root_device: u64, places: Seq<Place>, path: Seq<u8>)
    ensures
        mounts_here(root_device, places).contains(path) <==> exists|i: int|
            0 <= i < places.len() && !(#[trigger] places[i]).is_link && places[i].device
                != root_device && places[i].path@ == path,
    decreases places.len(),
{
    let all = mounts_here(root_device, places);
    if places.len() > 0 {
        let init = places.drop_last();
        let rest = mounts_here(root_device, init);
        lemma_mounts_here_found(root_device, init, path);
        if all.contains(path) {
            let k = all.index_of(path);
            if k < rest.len() {
                assert(rest[k] == path);
                let i = choose|i: int|
                    0 <= i < init.len() && !(#[trigger] init[i]).is_link && init[i].device
                        != root_device && init[i].path@ == path;
                assert(places[i] == init[i]);
            } else {
                assert(places[places.len() - 1].path@ == path);
            }
        }
        if exists|i: int|
            0 <= i < places.len() && !(#[trigger] places[i]).is_link && places[i].device
                != root_device && places[i].path@ == path {
            let i = choose|i: int|
                0 <= i < places.len() && !(#[trigger] places[i]).is_link && places[i].device
                    != root_device && places[i].path@ == path;
            if i < init.len() {
                assert(init[i] == places[i]);
                let k = rest.index_of(path);
                assert(all[k] == path);
            } else {
                assert(all[all.len() - 1] == path);
            }
        }
    }
}

proof fn lemma_below_found(root_device: u64, places: Seq<Place>, path: Seq<u8>) -> (trail: Seq<int>)
    requires
        mounts_below(root_device, places).contains(path),
    ensures
        leads_to_mount(root_device, places, trail, path),
    decreases places, 0int,
{
    let last = places[places.len() - 1];
    let n = places.len() - 1;
    let init = places.drop_last();
    let all = mounts_below(root_device, places);
    let k = all.index_of(path);
    let part = all.len() - mounts_below(root_device, init).len();
    if k >= part {
        assert(mounts_below(root_device, init)[k - part] == path);
        let t = lemma_below_found(root_device, init, path);
        assert(init[t[0]] == places[t[0]]);
        t
    } else {
        assert(mounts(root_device, last.children@)[k] == path);
        let inner = lemma_mounts_found(root_device, last.children@, path);
        let t = seq![n] + inner;
        assert(t.skip(1) =~= inner);
        assert(inner.len() > 0);
        t
    }
}

proof fn lemma_mounts_found(root_device: u64, places: Seq<Place>, path: Seq<u8>) -> (trail: Seq<
    int,
>)
    requires
        mounts(root_device, places).contains(path),
    ensures
        leads_to_mount(root_device, places, trail, path),
    decreases places, 1int,
{
    let all = mounts(root_device, places);
    let here = mounts_here(root_device, places);
    let k = all.index_of(path);
    if k < here.len() {
        assert(here[k] == path);
        lemma_mounts_here_found(root_device, places, path);
        let i = choose|i: int|
            0 <= i < places.len() && !(#[trigger] places[i]).is_link && places[i].device
                != root_device && places[i].path@ == path;
        seq![i]
    } else {
        assert(mounts_below(root_device, places)[k - here.len()] == path);
        lemma_below_found(root_device, places, path)
    }
}

proof fn lemma_below_finds(root_device: u64, places: Seq<Place>, trail: Seq<int>, path: Seq<u8>)
    requires
        leads_to_mount(root_device, places, trail, path),
        trail.len() > 1,
    ensures
        mounts_below(root_device, places).contains(path),
    decreases places, 0int,
{
    let last = places[places.len() - 1];
    let init = places.drop_last();
    let all = mounts_below(root_device, places);
    let part = all.len() - mounts_below(root_device, init).len();
    if trail[0] < init.len() {
        assert(init[trail[0]] == places[trail[0]]);
        lemma_below_finds(root_device, init, trail, path);
        let k = mounts_below(root_device, init).index_of(path);
        assert(all[part + k] == path);
    } else {
        lemma_mounts_finds(root_device, last.children@, trail.skip(1), path);
        let k = mounts(root_device, last.children@).index_of(path);
        assert(all[k] == path);
    }
}

proof fn lemma_mounts_finds(root_device: u64, places: Seq<Place>, trail: Seq<int>, path: Seq<u8>)
    requires
        leads_to_mount(root_device, places, trail, path),
    ensures
        mounts(root_device, places).contains(path),
    decreases places, 1int,
{
    let all = mounts(root_device, places);
    let here = mounts_here(root_device, places);
    if trail.len() == 1 {
        assert(places[trail[0]].path@ == path);
        lemma_mounts_here_found(root_device, places, path);
        let k = here.index_of(path);
        assert(all[k] == path);
    } else {
        lemma_below_finds(root_device, places, trail, path);
        let k = mounts_below(root_device, places).index_of(path);
        assert(all[here.len() + k] == path);
    }
}

/// A path is found to be a mount point exactly if an entry with that path, among
/// the entries or at any depth below them, is no link and stands on another file
/// system, links and other file systems not being followed on the way.
pub proof fn law_mounts_are_real(root_device: u64, places: Seq<Place>, path: Seq<u8>)
    ensures
        mounts(root_device, places).contains(path) <==> exists|trail: Seq<int>|
            leads_to_mount(root_device, places, trail, path),
{
    if mounts(root_device, places).contains(path) {
        let trail = lemma_mounts_found(root_device, places, path);
        assert(leads_to_mount(root_device, places, trail, path));
    }
    if exists|trail: Seq<int>| leads_to_mount(root_device, places, trail, path) {
        let trail = choose|trail: Seq<int>| leads_to_mount(root_device, places, trail, path);
        lemma_mounts_finds(root_device, places, trail, path);
    }
}

} // verus!
