//! What counts as a change of a directory or file that is saved while a program
//! runs: the paths, sizes and times of what stands there.
use crate::order;
use crate::order::Ranked;
use crate::path;
use crate::path::FsPath;
use vstd::bytes;
use vstd::prelude::*;

verus! {

/// The size of an entry, and when it was last written.
#[derive(Clone, Copy, Debug, PartialEq, Eq, Structural)]
pub struct Stamp {
    pub len: u64,
    pub seconds: i64,
    pub nanos: i64,
}

/// An entry below a directory, with its stamp if there was one to read.
pub struct Listed {
    pub path: FsPath,
    pub stamp: Option<Stamp>,
}

#[verifier::ext_equal]
pub struct ListedView {
    pub path: Seq<u8>,
    pub stamp: Option<Stamp>,
}

impl View for Listed {
    type V = ListedView;

    open spec fn view(&self) -> ListedView {
        ListedView { path: self.path@, stamp: self.stamp }
    }
}

/// Entries are ordered by their paths, so that each directory comes right before
/// what is below it.
impl Ranked for Listed {
    open spec fn precedes(a: ListedView, b: ListedView) -> bool {
        path::before(a.path, b.path)
    }

    proof fn one_way(a: ListedView, b: ListedView) {
        path::lemma_before_one_way(a.path, b.path);
    }

    proof fn chained(a: ListedView, b: ListedView, c: ListedView) {
        path::lemma_before_chained(a.path, b.path, c.path);
    }

    fn is_ahead_of(&self, other: &Self) -> (r: bool) {
        self.path.is_before(&other.path)
    }
}

/// What a look at a path found.
pub enum Look {
    /// There is nothing that can be looked at.
    Nothing,
    /// Something that is not a directory.
    Single(Stamp),
    /// A directory, with everything below it in any order.
    Dir(Vec<Listed>),
}

pub enum LookView {
    Nothing,
    Single(Stamp),
    Dir(Seq<ListedView>),
}

impl View for Look {
    type V = LookView;

    open spec fn view(&self) -> LookView {
        match self {
            Look::Nothing => LookView::Nothing,
            Look::Single(s) => LookView::Single(*s),
            Look::Dir(entries) => LookView::Dir(order::views(entries@)),
        }
    }
}

/// The bytes of a stamp.
pub open spec fn stamp_bytes(s: Stamp) -> Seq<u8> {
    bytes::spec_u64_to_le_bytes(s.len) + bytes::spec_u64_to_le_bytes(s.seconds as u64)
        + bytes::spec_u64_to_le_bytes(s.nanos as u64)
}

/// The bytes of an entry: its path, and its stamp if there is one.
pub open spec fn listed_bytes(e: ListedView) -> Seq<u8> {
    match e.stamp {
        Some(s) => e.path + stamp_bytes(s),
        None => e.path,
    }
}

/// The bytes of a list of entries, one behind the other.
pub open spec fn laid_out(entries: Seq<ListedView>) -> Seq<u8>
    decreases entries.len(),
{
    if entries.len() == 0 {
        Seq::empty()
    } else {
        laid_out(entries.drop_last()) + listed_bytes(entries.last())
    }
}

/// The bytes that stand for what was found: a single stamp, or the entries by
/// path.
pub open spec fn look_bytes(look: LookView) -> Seq<u8> {
    match look {
        LookView::Nothing => Seq::empty(),
        LookView::Single(s) => stamp_bytes(s),
        LookView::Dir(entries) => laid_out(order::sorted::<Listed>(entries)),
    }
}

fn push_stamp(out: &mut Vec<u8>, s: Stamp)
    ensures
        final(out)@ == old(out)@ + stamp_bytes(s),
{
    let mut len = bytes::u64_to_le_bytes(s.len);
    #[verifier::truncate]
    let seconds = s.seconds as u64;
    #[verifier::truncate]
    let nanos = s.nanos as u64;
    let mut seconds = bytes::u64_to_le_bytes(seconds);
    let mut nanos = bytes::u64_to_le_bytes(nanos);
    out.append(&mut len);
    out.append(&mut seconds);
    out.append(&mut nanos);
    assert(out@ =~= old(out)@ + stamp_bytes(s));
}

/// The bytes of which a fingerprint is taken.
pub fn fingerprint_input(look: Look) -> (r: Vec<u8>)
    ensures
        r@ == look_bytes(look@),
{
    let mut out: Vec<u8> = Vec::new();
    match look {
        Look::Nothing => {},
        Look::Single(s) => {
            push_stamp(&mut out, s);
            assert(out@ =~= stamp_bytes(s));
        },
        Look::Dir(entries) => {
            let mut entries = entries;
            order::sort(&mut entries);
            let ghost all = order::views(entries@);
            let mut i: usize = 0;
            assert(all.take(0) =~= Seq::<ListedView>::empty());
            while i < entries.len()
                invariant
                    all == order::views(entries@),
                    i <= entries@.len(),
                    out@ == laid_out(all.take(i as int)),
                decreases entries.len() - i,
            {
                let e = &entries[i];
                let ghost before = out@;
                proof {
                    assert(all[i as int] == e@);
                    assert(all.take(i + 1).drop_last() =~= all.take(i as int));
                    assert(all.take(i + 1).last() == e@);
                }
                out.extend_from_slice(e.path.as_bytes());
                if let Some(s) = e.stamp {
                    push_stamp(&mut out, s);
                }
                assert(out@ =~= before + listed_bytes(e@));
                i += 1;
            }
            assert(all.take(all.len() as int) =~= all);
        },
    }
    out
}

proof fn lemma_stamp_bytes(s: Stamp, t: Stamp)
    ensures
        stamp_bytes(s).len() == 24,
        stamp_bytes(s) == stamp_bytes(t) ==> s == t,
{
    bytes::lemma_auto_spec_u64_to_from_le_bytes();
    let a = stamp_bytes(s);
    let b = stamp_bytes(t);
    assert(a.len() == 24 && b.len() == 24);
    if a == b {
        assert(a.subrange(0, 8) =~= bytes::spec_u64_to_le_bytes(s.len));
        assert(b.subrange(0, 8) =~= bytes::spec_u64_to_le_bytes(t.len));
        assert(a.subrange(8, 16) =~= bytes::spec_u64_to_le_bytes(s.seconds as u64));
        assert(b.subrange(8, 16) =~= bytes::spec_u64_to_le_bytes(t.seconds as u64));
        assert(a.subrange(16, 24) =~= bytes::spec_u64_to_le_bytes(s.nanos as u64));
        assert(b.subrange(16, 24) =~= bytes::spec_u64_to_le_bytes(t.nanos as u64));
        lemma_same_bits(s.seconds, t.seconds);
        lemma_same_bits(s.nanos, t.nanos);
    }
}

proof fn lemma_same_bits(a: i64, b: i64)
    ensures
        a as u64 == b as u64 ==> a == b,
{
    assert(a as u64 == b as u64 ==> a == b) by (bit_vector);
}

/// Where an entry goes depends on its path alone.
proof fn lemma_inserted_item(t: Seq<ListedView>, x: ListedView, e: ListedView) -> (at: int)
    requires
        e.path == x.path,
    ensures
        0 <= at < order::inserted::<Listed>(t, x).len(),
        order::inserted::<Listed>(t, x)[at] == x,
        order::inserted::<Listed>(t, e) == order::inserted::<Listed>(t, x).update(at, e),
    decreases t.len(),
{
    if t.len() > 0 && Listed::precedes(x, t.last()) {
        let at = lemma_inserted_item(t.drop_last(), x, e);
        assert(order::inserted::<Listed>(t, e) =~= order::inserted::<Listed>(t, x).update(at, e));
        at
    } else {
        assert(t.push(e) =~= t.push(x).update(t.len() as int, e));
        t.len() as int
    }
}

proof fn lemma_inserted_update(t: Seq<ListedView>, n: int, e: ListedView, x: ListedView) -> (at: int)
    requires
        0 <= n < t.len(),
        e.path == t[n].path,
    ensures
        0 <= at < order::inserted::<Listed>(t, x).len(),
        order::inserted::<Listed>(t, x)[at] == t[n],
        order::inserted::<Listed>(t.update(n, e), x) == order::inserted::<Listed>(t, x).update(
            at,
            e,
        ),
    decreases t.len(),
{
    let u = t.update(n, e);
    let init = t.drop_last();
    if Listed::precedes(x, t.last()) {
        let rest = order::inserted::<Listed>(init, x);
        if n == t.len() - 1 {
            assert(u.drop_last() =~= init);
            assert(rest.push(e) =~= rest.push(t.last()).update(rest.len() as int, e));
            rest.len() as int
        } else {
            assert(u.drop_last() =~= init.update(n, e));
            let at = lemma_inserted_update(init, n, e, x);
            assert(rest.update(at, e).push(t.last()) =~= rest.push(t.last()).update(at, e));
            at
        }
    } else {
        assert(u.push(x) =~= t.push(x).update(n, e));
        n
    }
}

proof fn lemma_sorted_update(s: Seq<ListedView>, n: int, e: ListedView) -> (at: int)
    requires
        0 <= n < s.len(),
        e.path == s[n].path,
    ensures
        0 <= at < order::sorted::<Listed>(s).len(),
        order::sorted::<Listed>(s)[at] == s[n],
        order::sorted::<Listed>(s.update(n, e)) == order::sorted::<Listed>(s).update(at, e),
    decreases s.len(),
{
    let init = s.drop_last();
    let u = s.update(n, e);
    if n == s.len() - 1 {
        assert(u.drop_last() =~= init);
        lemma_inserted_item(order::sorted::<Listed>(init), s.last(), e)
    } else {
        assert(u.drop_last() =~= init.update(n, e));
        let at = lemma_sorted_update(init, n, e);
        lemma_inserted_update(order::sorted::<Listed>(init), at, e, s.last())
    }
}

proof fn lemma_laid_out_update(s: Seq<ListedView>, n: int, e: ListedView)
    requires
        0 <= n < s.len(),
        e.path == s[n].path,
        e.stamp is Some,
        s[n].stamp is Some,
        e.stamp != s[n].stamp,
    ensures
        laid_out(s.update(n, e)).len() == laid_out(s).len(),
        laid_out(s.update(n, e)) != laid_out(s),
    decreases s.len(),
{
    let init = s.drop_last();
    let u = s.update(n, e);
    let a = laid_out(s);
    let b = laid_out(u);
    lemma_stamp_bytes(e.stamp->0, s[n].stamp->0);
    lemma_stamp_bytes(s[n].stamp->0, e.stamp->0);
    if n == s.len() - 1 {
        assert(u.drop_last() =~= init);
        let m = laid_out(init).len() + e.path.len();
        assert(a.skip(m as int) =~= stamp_bytes(s[n].stamp->0));
        assert(b.skip(m as int) =~= stamp_bytes(e.stamp->0));
    } else {
        assert(u.drop_last() =~= init.update(n, e));
        lemma_laid_out_update(init, n, e);
        let m = laid_out(init).len() as int;
        assert(a.take(m) =~= laid_out(init));
        assert(b.take(m) =~= laid_out(init.update(n, e)));
    }
}

proof fn lemma_laid_out_inserted(t: Seq<ListedView>, x: ListedView)
    ensures
        laid_out(order::inserted::<Listed>(t, x)).len() == laid_out(t).len() + listed_bytes(x).len(),
    decreases t.len(),
{
    if t.len() > 0 && Listed::precedes(x, t.last()) {
        let rest = order::inserted::<Listed>(t.drop_last(), x);
        lemma_laid_out_inserted(t.drop_last(), x);
        assert(rest.push(t.last()).drop_last() =~= rest);
    } else {
        assert(t.push(x).drop_last() =~= t);
    }
}

/// A change of size or time of what is there changes the bytes.
pub proof fn law_rewriting_is_noticed(entries: Seq<ListedView>, n: int, stamp: Stamp)
    requires
        0 <= n < entries.len(),
        entries[n].stamp is Some,
        entries[n].stamp != Some(stamp),
    ensures
        ({
            let e = ListedView { path: entries[n].path, stamp: Some(stamp) };
            look_bytes(LookView::Dir(entries.update(n, e))) != look_bytes(LookView::Dir(entries))
        }),
{
    let e = ListedView { path: entries[n].path, stamp: Some(stamp) };
    let at = lemma_sorted_update(entries, n, e);
    lemma_laid_out_update(order::sorted::<Listed>(entries), at, e);
}

/// A change of size or time of a single file changes the bytes.
pub proof fn law_single_rewriting_is_noticed(s: Stamp, t: Stamp)
    requires
        s != t,
    ensures
        look_bytes(LookView::Single(s)) != look_bytes(LookView::Single(t)),
{
    lemma_stamp_bytes(s, t);
}

proof fn lemma_sorted_len(s: Seq<ListedView>)
    ensures
        laid_out(order::sorted::<Listed>(s)).len() == laid_out(s).len(),
    decreases s.len(),
{
    if s.len() > 0 {
        lemma_sorted_len(s.drop_last());
        lemma_laid_out_inserted(order::sorted::<Listed>(s.drop_last()), s.last());
    }
}

proof fn lemma_removed_len(s: Seq<ListedView>, n: int)
    requires
        0 <= n < s.len(),
    ensures
        laid_out(s).len() == laid_out(s.remove(n)).len() + listed_bytes(s[n]).len(),
    decreases s.len(),
{
    let init = s.drop_last();
    if n == s.len() - 1 {
        assert(s.remove(n) =~= init);
    } else {
        lemma_removed_len(init, n);
        assert(s.remove(n).drop_last() =~= init.remove(n));
        assert(s.remove(n).last() == s.last());
    }
}

/// One entry more or one less changes the bytes.
pub proof fn law_adding_and_removing_are_noticed(entries: Seq<ListedView>, n: int)
    requires
        0 <= n < entries.len(),
        entries[n].path.len() > 0,
    ensures
        look_bytes(LookView::Dir(entries)) != look_bytes(LookView::Dir(entries.remove(n))),
{
    lemma_removed_len(entries, n);
    lemma_sorted_len(entries);
    lemma_sorted_len(entries.remove(n));
    if let Some(s) = entries[n].stamp {
        lemma_stamp_bytes(s, s);
    }
}

} // verus!
