//! Sorting: stable, by an order on what the items stand for.
use crate::path;
use vstd::prelude::*;

verus! {

/// The views of a list.
pub open spec fn views<T: View>(s: Seq<T>) -> Seq<T::V> {
    s.map_values(|x: T| x@)
}

/// Values with an order. Values neither of which precedes the other rank the
/// same.
pub trait Ranked: View + Sized {
    spec fn precedes(a: Self::V, b: Self::V) -> bool;

    proof fn one_way(a: Self::V, b: Self::V)
        requires
            Self::precedes(a, b),
        ensures
            !Self::precedes(b, a),
    ;

    proof fn chained(a: Self::V, b: Self::V, c: Self::V)
        requires
            !Self::precedes(b, a),
            !Self::precedes(c, b),
        ensures
            !Self::precedes(c, a),
    ;

    fn is_ahead_of(&self, other: &Self) -> (r: bool)
        ensures
            r == Self::precedes(self@, other@),
    ;
}

/// `s` with `x` put in front of the items at its end that `x` precedes.
pub open spec fn inserted<T: Ranked>(s: Seq<T::V>, x: T::V) -> Seq<T::V>
    decreases s.len(),
{
    if s.len() > 0 && T::precedes(x, s.last()) {
        inserted::<T>(s.drop_last(), x).push(s.last())
    } else {
        s.push(x)
    }
}

/// The items of `s` in order; items that rank the same keep their order.
pub open spec fn sorted<T: Ranked>(s: Seq<T::V>) -> Seq<T::V>
    decreases s.len(),
{
    if s.len() == 0 {
        s
    } else {
        inserted::<T>(sorted::<T>(s.drop_last()), s.last())
    }
}

/// Whether no item precedes one before it.
pub open spec fn ordered<T: Ranked>(s: Seq<T::V>) -> bool {
    forall|i: int, j: int| 0 <= i < j < s.len() ==> !T::precedes(#[trigger] s[j], #[trigger] s[i])
}

proof fn lemma_inserted<T: Ranked>(s: Seq<T::V>, x: T::V)
    ensures
        inserted::<T>(s, x).to_multiset() == s.to_multiset().insert(x),
        inserted::<T>(s, x).len() == s.len() + 1,
        ordered::<T>(s) ==> ordered::<T>(inserted::<T>(s, x)),
    decreases s.len(),
{
    broadcast use vstd::seq_lib::group_to_multiset_ensures;

    let r = inserted::<T>(s, x);
    if s.len() > 0 && T::precedes(x, s.last()) {
        let init = s.drop_last();
        lemma_inserted::<T>(init, x);
        let t = inserted::<T>(init, x);
        assert(init.push(s.last()) == s);
        assert(r.to_multiset() =~= s.to_multiset().insert(x));
        if ordered::<T>(s) {
            assert(ordered::<T>(init));
            assert forall|i: int, j: int| 0 <= i < j < r.len() implies !T::precedes(
                #[trigger] r[j],
                #[trigger] r[i],
            ) by {
                if j == r.len() - 1 {
                    T::one_way(x, s.last());
                    assert(t.to_multiset().contains(t[i]));
                    assert(init.to_multiset().insert(x).contains(t[i]));
                    if t[i] != x {
                        assert(init.to_multiset().contains(t[i]));
                        let k = choose|k: int| 0 <= k < init.len() && init[k] == t[i];
                        assert(s[k] == t[i]);
                        assert(!T::precedes(s[s.len() - 1], s[k]));
                    }
                } else {
                    assert(t[j] == r[j] && t[i] == r[i]);
                }
            }
        }
    } else {
        if ordered::<T>(s) {
            assert forall|i: int, j: int| 0 <= i < j < r.len() implies !T::precedes(
                #[trigger] r[j],
                #[trigger] r[i],
            ) by {
                if j == s.len() {
                    if i < s.len() - 1 {
                        assert(!T::precedes(s[s.len() - 1], s[i]));
                        T::chained(s[i], s.last(), x);
                    }
                } else {
                    assert(s[j] == r[j] && s[i] == r[i]);
                }
            }
        }
    }
}

/// Sorting keeps the items and puts them in order.
pub proof fn law_sorted<T: Ranked>(s: Seq<T::V>)
    ensures
        sorted::<T>(s).to_multiset() == s.to_multiset(),
        sorted::<T>(s).len() == s.len(),
        ordered::<T>(sorted::<T>(s)),
    decreases s.len(),
{
    broadcast use vstd::seq_lib::group_to_multiset_ensures;

    if s.len() > 0 {
        law_sorted::<T>(s.drop_last());
        lemma_inserted::<T>(sorted::<T>(s.drop_last()), s.last());
        assert(s.drop_last().push(s.last()) == s);
    }
}

/// Sorting leaves what is in order as it is.
pub proof fn lemma_sorted_id<T: Ranked>(s: Seq<T::V>)
    requires
        ordered::<T>(s),
    ensures
        sorted::<T>(s) == s,
    decreases s.len(),
{
    if s.len() > 0 {
        let init = s.drop_last();
        assert forall|i: int, j: int| 0 <= i < j < init.len() implies !T::precedes(
            #[trigger] init[j],
            #[trigger] init[i],
        ) by {
            assert(init[j] == s[j] && init[i] == s[i]);
        }
        lemma_sorted_id::<T>(init);
        if init.len() > 0 {
            assert(!T::precedes(s[s.len() - 1], s[s.len() - 2]));
            assert(init.last() == s[s.len() - 2]);
        }
        assert(init.push(s.last()) =~= s);
    }
}

/// Sorts `v`.
pub fn sort<T: Ranked>(v: &mut Vec<T>)
    ensures
        views(final(v)@) == sorted::<T>(views(old(v)@)),
{
    let ghost all = views(v@);
    let n = v.len();
    let mut i: usize = 0;
    assert(all.take(0) == Seq::<T::V>::empty());
    assert(all == sorted::<T>(all.take(0)) + all.skip(0));
    while i < n
        invariant
            n == v@.len(),
            n == all.len(),
            i <= n,
            views(v@) == sorted::<T>(all.take(i as int)) + all.skip(i as int),
            sorted::<T>(all.take(i as int)).len() == i,
        decreases n - i,
    {
        let ghost done = sorted::<T>(all.take(i as int));
        let ghost x = all[i as int];
        let ghost rest = all.skip(i + 1);
        let mut j: usize = i;
        proof {
            assert(all.take(i + 1).drop_last() == all.take(i as int));
            assert(done.take(i as int) == done);
            assert(inserted::<T>(done.take(j as int), x) + done.skip(j as int) =~= inserted::<T>(
                done,
                x,
            ));
            assert(views(v@)[i as int] == x);
        }
        while j > 0 && v[i].is_ahead_of(&v[j - 1])
            invariant
                n == v@.len(),
                j <= i < n,
                done.len() == i,
                views(v@)[i as int] == x,
                forall|k: int| 0 <= k < i ==> views(v@)[k] == done[k],
                inserted::<T>(done.take(j as int), x) + done.skip(j as int) == inserted::<T>(
                    done,
                    x,
                ),
            decreases j,
        {
            proof {
                let a = done.take(j as int);
                let b = done.take(j - 1);
                assert(a.drop_last() == b);
                assert(views(v@)[j - 1] == a.last());
                assert(inserted::<T>(a, x) + done.skip(j as int) =~= inserted::<T>(b, x)
                    + done.skip(j - 1));
            }
            j -= 1;
        }
        let ghost items = v@;
        let item = v.remove(i);
        v.insert(j, item);
        proof {
            let a = done.take(j as int);
            if j > 0 {
                assert(views(items)[j - 1] == a.last());
            }
            assert(inserted::<T>(a, x) == a.push(x));
            lemma_inserted::<T>(done, x);
            assert(views(items) =~= done.push(x) + rest);
            let target = a.push(x) + done.skip(j as int) + rest;
            assert(inserted::<T>(done, x) + rest =~= target);
            assert(v@ == items.remove(i as int).insert(j as int, items[i as int]));
            assert forall|k: int| 0 <= k < n implies views(v@)[k] == target[k] by {
                if k < j {
                    assert(v@[k] == items[k]);
                    assert(views(items)[k] == done[k]);
                } else if j < k <= i {
                    assert(v@[k] == items[k - 1]);
                    assert(views(items)[k - 1] == done[k - 1]);
                } else if k > i {
                    assert(v@[k] == items[k]);
                    assert(views(items)[k] == rest[k - i - 1]);
                }
            }
            assert(views(v@) =~= target);
        }
        i += 1;
    }
    assert(all.take(all.len() as int) == all);
    assert(views(v@) =~= sorted::<T>(all));
}

/// Texts are ordered by the bytes that encode them.
impl Ranked for String {
    open spec fn precedes(a: Seq<char>, b: Seq<char>) -> bool {
        path::bytes_before(vstd::utf8::encode_utf8(a), vstd::utf8::encode_utf8(b))
    }

    proof fn one_way(a: Seq<char>, b: Seq<char>) {
        path::lemma_bytes_one_way(vstd::utf8::encode_utf8(a), vstd::utf8::encode_utf8(b));
    }

    proof fn chained(a: Seq<char>, b: Seq<char>, c: Seq<char>) {
        path::lemma_bytes_chained(
            vstd::utf8::encode_utf8(a),
            vstd::utf8::encode_utf8(b),
            vstd::utf8::encode_utf8(c),
        );
    }

    fn is_ahead_of(&self, other: &Self) -> (r: bool) {
        path::bytes_less(self.as_str().as_bytes(), other.as_str().as_bytes())
    }
}

/// Paths are ordered by their steps.
impl Ranked for path::FsPath {
    open spec fn precedes(a: Seq<u8>, b: Seq<u8>) -> bool {
        path::before(a, b)
    }

    proof fn one_way(a: Seq<u8>, b: Seq<u8>) {
        path::lemma_before_one_way(a, b);
    }

    proof fn chained(a: Seq<u8>, b: Seq<u8>, c: Seq<u8>) {
        path::lemma_before_chained(a, b, c);
    }

    fn is_ahead_of(&self, other: &Self) -> (r: bool) {
        self.is_before(other)
    }
}

/// A filter that lets everything through changes nothing.
pub proof fn lemma_filter_all<A>(s: Seq<A>, keep: spec_fn(A) -> bool)
    requires
        forall|i: int| 0 <= i < s.len() ==> keep(#[trigger] s[i]),
    ensures
        s.filter(keep) == s,
    decreases s.len(),
{
    reveal(Seq::filter);
    if s.len() > 0 {
        let init = s.drop_last();
        assert forall|i: int| 0 <= i < init.len() implies keep(#[trigger] init[i]) by {
            assert(init[i] == s[i]);
        }
        lemma_filter_all(init, keep);
        assert(keep(s[s.len() - 1]));
        assert(init.push(s.last()) =~= s);
    } else {
        assert(s.filter(keep) =~= s);
    }
}

/// Filters that agree on a list give the same.
pub proof fn lemma_filter_same<A>(s: Seq<A>, f: spec_fn(A) -> bool, g: spec_fn(A) -> bool)
    requires
        forall|i: int| 0 <= i < s.len() ==> f(#[trigger] s[i]) == g(s[i]),
    ensures
        s.filter(f) == s.filter(g),
    decreases s.len(),
{
    reveal(Seq::filter);
    if s.len() > 0 {
        let init = s.drop_last();
        assert forall|i: int| 0 <= i < init.len() implies f(#[trigger] init[i]) == g(init[i]) by {
            assert(init[i] == s[i]);
        }
        lemma_filter_same(init, f, g);
        assert(f(s[s.len() - 1]) == g(s[s.len() - 1]));
    }
}

/// Two filters in turn are one.
pub proof fn lemma_filter_twice<A>(s: Seq<A>, f: spec_fn(A) -> bool, g: spec_fn(A) -> bool)
    ensures
        s.filter(f).filter(g) == s.filter(|x: A| f(x) && g(x)),
    decreases s.len(),
{
    reveal(Seq::filter);
    let both = |x: A| f(x) && g(x);
    if s.len() > 0 {
        let init = s.drop_last();
        lemma_filter_twice(init, f, g);
        if f(s.last()) {
            assert(init.filter(f).push(s.last()).drop_last() =~= init.filter(f));
        }
        assert(s.filter(f).filter(g) =~= s.filter(both));
    } else {
        assert(s.filter(f).filter(g) =~= s.filter(both));
    }
}

/// Everything that a filter gives is in the list and passes.
pub proof fn lemma_filter_index<A>(s: Seq<A>, keep: spec_fn(A) -> bool, k: int) -> (i: int)
    requires
        0 <= k < s.filter(keep).len(),
    ensures
        0 <= i < s.len(),
        s[i] == s.filter(keep)[k],
        keep(s[i]),
    decreases s.len(),
{
    reveal(Seq::filter);
    let init = s.drop_last();
    if keep(s.last()) && k == init.filter(keep).len() {
        s.len() - 1
    } else {
        let i = lemma_filter_index(init, keep, k);
        assert(init[i] == s[i]);
        i
    }
}

/// Sorting keeps the items, and no item comes behind one that it precedes.
pub proof fn law_sorted_items(s: Seq<path::FsPath>)
    ensures
        ({
            let all = views(s);
            let r = sorted::<path::FsPath>(all);
            &&& r.len() == s.len()
            &&& forall|p: Seq<u8>| #[trigger] r.contains(p) <==> all.contains(p)
            &&& forall|i: int, j: int|
                0 <= i < j < r.len() ==> !path::before(#[trigger] r[j], #[trigger] r[i])
        }),
{
    broadcast use vstd::seq_lib::group_to_multiset_ensures;

    let all = views(s);
    law_sorted::<path::FsPath>(all);
    let r = sorted::<path::FsPath>(all);
    assert forall|p: Seq<u8>| #[trigger] r.contains(p) <==> all.contains(p) by {
        assert(r.to_multiset().contains(p) <==> all.to_multiset().contains(p));
    }
    assert forall|i: int, j: int| 0 <= i < j < r.len() implies !path::before(
        #[trigger] r[j],
        #[trigger] r[i],
    ) by {
        assert(!path::FsPath::precedes(r[j], r[i]));
    }
}

proof fn lemma_filter_push<A>(s: Seq<A>, x: A, keep: spec_fn(A) -> bool)
    ensures
        s.push(x).filter(keep) == (if keep(x) {
            s.filter(keep).push(x)
        } else {
            s.filter(keep)
        }),
{
    reveal(Seq::filter);
    assert(s.push(x).drop_last() =~= s);
}

proof fn lemma_inserted_filter<T: Ranked>(s: Seq<T::V>, x: T::V, keep: spec_fn(T::V) -> bool)
    requires
        keep(x) ==> forall|i: int|
            0 <= i < s.len() && keep(#[trigger] s[i]) ==> !T::precedes(x, s[i]),
    ensures
        inserted::<T>(s, x).filter(keep) == s.push(x).filter(keep),
    decreases s.len(),
{
    lemma_filter_push(s, x, keep);
    if s.len() > 0 && T::precedes(x, s.last()) {
        let init = s.drop_last();
        let last = s.last();
        assert forall|i: int| keep(x) && 0 <= i < init.len() && keep(
            #[trigger] init[i],
        ) implies !T::precedes(x, init[i]) by {
            assert(init[i] == s[i]);
        }
        lemma_inserted_filter::<T>(init, x, keep);
        lemma_filter_push(inserted::<T>(init, x), last, keep);
        lemma_filter_push(init, x, keep);
        lemma_filter_push(init, last, keep);
        assert(init.push(last) =~= s);
        if keep(x) {
            assert(last == s[s.len() - 1]);
            assert(!keep(last));
        }
    }
}

/// Sorting is stable: items of the same rank keep their order.
pub proof fn law_sorting_is_stable<T: Ranked>(s: Seq<T::V>, x: T::V)
    ensures
        ({
            let same = |y: T::V| !T::precedes(x, y) && !T::precedes(y, x);
            sorted::<T>(s).filter(same) == s.filter(same)
        }),
    decreases s.len(),
{
    let same = |y: T::V| !T::precedes(x, y) && !T::precedes(y, x);
    if s.len() > 0 {
        let init = s.drop_last();
        let last = s.last();
        law_sorting_is_stable::<T>(init, x);
        let t = sorted::<T>(init);
        assert forall|i: int| same(last) && 0 <= i < t.len() && same(
            #[trigger] t[i],
        ) implies !T::precedes(last, t[i]) by {
            T::chained(t[i], x, last);
        }
        lemma_inserted_filter::<T>(t, last, same);
        lemma_filter_push(t, last, same);
        lemma_filter_push(init, last, same);
        assert(init.push(last) =~= s);
    }
}

/// Names are sorted by the bytes of their text.
pub proof fn law_names_sort_by_bytes(a: Seq<char>, b: Seq<char>)
    ensures
        String::precedes(a, b) <==> path::bytes_before(
            vstd::utf8::encode_utf8(a),
            vstd::utf8::encode_utf8(b),
        ),
{
}

} // verus!
