use vstd::prelude::*;

use super::{approx_eq, within_tolerance};
use crate::models::result::{results_view, Result, ResultView, WaveScore};

verus! {

/// Inserts `x` in front of the first element that it goes `before`.
pub open spec fn insert_ranked<T>(s: Seq<T>, x: T, before: spec_fn(T, T) -> bool) -> Seq<T>
    decreases s.len(),
{
    if s.len() == 0 {
        seq![x]
    } else if before(x, s[0]) {
        seq![x] + s
    } else {
        seq![s[0]] + insert_ranked(s.drop_first(), x, before)
    }
}

/// Stable sort: elements enter in turn, each in front of the first one it goes `before`.
pub open spec fn stable_sort<T>(s: Seq<T>, before: spec_fn(T, T) -> bool) -> Seq<T>
    decreases s.len(),
{
    if s.len() == 0 {
        s
    } else {
        insert_ranked(stable_sort(s.drop_last(), before), s.last(), before)
    }
}

/// No element goes `before` the one in front of it.
pub open spec fn ordered<T>(s: Seq<T>, before: spec_fn(T, T) -> bool) -> bool {
    forall|i: int| 0 < i < s.len() ==> !before(#[trigger] s[i], s[i - 1])
}

/// `before` never holds both ways.
pub open spec fn asymmetric<T>(before: spec_fn(T, T) -> bool) -> bool {
    forall|a: T, b: T| #[trigger] before(a, b) ==> !before(b, a)
}

/// Inserting at the first position where `x` goes before.
pub proof fn lemma_insert_at<T>(s: Seq<T>, x: T, before: spec_fn(T, T) -> bool, p: int)
    requires
        0 <= p <= s.len(),
        forall|i: int| 0 <= i < p ==> !before(x, #[trigger] s[i]),
        p < s.len() ==> before(x, s[p]),
    ensures
        insert_ranked(s, x, before) == s.take(p).push(x) + s.skip(p),
    decreases p,
{
    if p == 0 {
        if s.len() == 0 {
            assert(s.take(0).push(x) + s.skip(0) =~= seq![x]);
        } else {
            assert(s.take(0).push(x) + s.skip(0) =~= seq![x] + s);
        }
    } else {
        let t = s.drop_first();
        assert forall|i: int| 0 <= i < p - 1 implies !before(x, #[trigger] t[i]) by {
            assert(t[i] == s[i + 1]);
        }
        assert(!before(x, s[0]));
        lemma_insert_at(t, x, before, p - 1);
        assert(seq![s[0]] + (t.take(p - 1).push(x) + t.skip(p - 1)) =~= s.take(p).push(x) + s.skip(p));
    }
}

/// Insertion adds one element, and takes no other in.
pub proof fn lemma_insert_elements<T>(s: Seq<T>, x: T, before: spec_fn(T, T) -> bool)
    ensures
        insert_ranked(s, x, before).len() == s.len() + 1,
        forall|y: T| #[trigger] insert_ranked(s, x, before).contains(y) ==> y == x || s.contains(y),
        insert_ranked(s, x, before)[0] == x || insert_ranked(s, x, before)[0] == s[0],
    decreases s.len(),
{
    if s.len() > 0 && !before(x, s[0]) {
        let t = s.drop_first();
        lemma_insert_elements(t, x, before);
        let r = insert_ranked(s, x, before);
        assert forall|y: T| r.contains(y) implies y == x || s.contains(y) by {
            let k = choose|k: int| 0 <= k < r.len() && r[k] == y;
            if k > 0 {
                assert(insert_ranked(t, x, before)[k - 1] == y);
                assert(insert_ranked(t, x, before).contains(y));
                if y != x {
                    let m = choose|m: int| 0 <= m < t.len() && t[m] == y;
                    assert(s[m + 1] == y);
                }
            } else {
                assert(s[0] == y);
            }
        }
    } else if s.len() > 0 {
        let r = insert_ranked(s, x, before);
        assert forall|y: T| r.contains(y) implies y == x || s.contains(y) by {
            let k = choose|k: int| 0 <= k < r.len() && r[k] == y;
            if k > 0 {
                assert(s[k - 1] == y);
            }
        }
    } else {
        let r = insert_ranked(s, x, before);
        assert forall|y: T| r.contains(y) implies y == x || s.contains(y) by {
            let k = choose|k: int| 0 <= k < r.len() && r[k] == y;
        }
    }
}

/// Sorting keeps the length, and takes no element in.
pub proof fn lemma_sort_elements<T>(s: Seq<T>, before: spec_fn(T, T) -> bool)
    ensures
        stable_sort(s, before).len() == s.len(),
        forall|y: T| #[trigger] stable_sort(s, before).contains(y) ==> s.contains(y),
    decreases s.len(),
{
    if s.len() > 0 {
        let p = s.drop_last();
        lemma_sort_elements(p, before);
        lemma_insert_elements(stable_sort(p, before), s.last(), before);
        assert forall|y: T| #[trigger] stable_sort(s, before).contains(y) implies s.contains(y) by {
            if y != s.last() {
                assert(stable_sort(p, before).contains(y));
                let m = choose|m: int| 0 <= m < p.len() && p[m] == y;
                assert(s[m] == y);
            } else {
                assert(s[s.len() - 1] == y);
            }
        }
    }
}

/// Inserting into an ordered sequence keeps it ordered.
pub proof fn lemma_insert_ordered<T>(s: Seq<T>, x: T, before: spec_fn(T, T) -> bool)
    requires
        asymmetric(before),
        ordered(s, before),
    ensures
        ordered(insert_ranked(s, x, before), before),
    decreases s.len(),
{
    let r = insert_ranked(s, x, before);
    if s.len() == 0 {
    } else if before(x, s[0]) {
        assert forall|i: int| 0 < i < r.len() implies !before(#[trigger] r[i], r[i - 1]) by {
            assert(r[i] == s[i - 1]);
            if i > 1 {
                assert(r[i - 1] == s[i - 2]);
            } else {
                assert(r[0] == x);
            }
        }
    } else {
        let t = s.drop_first();
        assert(ordered(t, before)) by {
            assert forall|i: int| 0 < i < t.len() implies !before(#[trigger] t[i], t[i - 1]) by {
                assert(t[i] == s[i + 1] && t[i - 1] == s[i]);
            }
        }
        lemma_insert_ordered(t, x, before);
        lemma_insert_elements(t, x, before);
        let rt = insert_ranked(t, x, before);
        assert forall|i: int| 0 < i < r.len() implies !before(#[trigger] r[i], r[i - 1]) by {
            assert(r[i] == rt[i - 1]);
            if i > 1 {
                assert(r[i - 1] == rt[i - 2]);
            } else {
                assert(r[0] == s[0]);
                if rt[0] != x {
                    assert(rt[0] == t[0] && t[0] == s[1]);
                }
            }
        }
    }
}

/// A stable sort by an asymmetric relation gives an ordered sequence.
pub proof fn lemma_sort_ordered<T>(s: Seq<T>, before: spec_fn(T, T) -> bool)
    requires
        asymmetric(before),
    ensures
        ordered(stable_sort(s, before), before),
    decreases s.len(),
{
    if s.len() > 0 {
        lemma_sort_ordered(s.drop_last(), before);
        lemma_insert_ordered(stable_sort(s.drop_last(), before), s.last(), before);
    }
}

/// No two elements at different positions `clash`.
pub open spec fn apart<T>(s: Seq<T>, clash: spec_fn(T, T) -> bool) -> bool {
    forall|a: int, b: int| 0 <= a < s.len() && 0 <= b < s.len() && a != b ==> !clash(#[trigger] s[a], #[trigger] s[b])
}

proof fn lemma_insert_apart<T>(s: Seq<T>, x: T, before: spec_fn(T, T) -> bool, clash: spec_fn(T, T) -> bool)
    requires
        apart(s, clash),
        forall|a: int| 0 <= a < s.len() ==> !clash(#[trigger] s[a], x) && !clash(x, s[a]),
    ensures
        apart(insert_ranked(s, x, before), clash),
    decreases s.len(),
{
    let r = insert_ranked(s, x, before);
    if s.len() == 0 {
    } else if before(x, s[0]) {
        assert forall|a: int, b: int| 0 <= a < r.len() && 0 <= b < r.len() && a != b implies !clash(
            #[trigger] r[a],
            #[trigger] r[b],
        ) by {
            if a > 0 {
                assert(r[a] == s[a - 1]);
            }
            if b > 0 {
                assert(r[b] == s[b - 1]);
            }
        }
    } else {
        let t = s.drop_first();
        assert(apart(t, clash)) by {
            assert forall|a: int, b: int| 0 <= a < t.len() && 0 <= b < t.len() && a != b implies !clash(
                #[trigger] t[a],
                #[trigger] t[b],
            ) by {
                assert(t[a] == s[a + 1] && t[b] == s[b + 1]);
            }
        }
        assert forall|a: int| 0 <= a < t.len() implies !clash(#[trigger] t[a], x) && !clash(x, t[a]) by {
            assert(t[a] == s[a + 1]);
        }
        lemma_insert_apart(t, x, before, clash);
        lemma_insert_elements(t, x, before);
        let rt = insert_ranked(t, x, before);
        assert forall|a: int, b: int| 0 <= a < r.len() && 0 <= b < r.len() && a != b implies !clash(
            #[trigger] r[a],
            #[trigger] r[b],
        ) by {
            if a > 0 && b > 0 {
                assert(r[a] == rt[a - 1] && r[b] == rt[b - 1]);
            } else {
                let c = if a == 0 { b } else { a };
                assert(r[c] == rt[c - 1]);
                assert(rt.contains(rt[c - 1]));
                if rt[c - 1] != x {
                    let k = choose|k: int| 0 <= k < t.len() && t[k] == rt[c - 1];
                    assert(t[k] == s[k + 1]);
                }
            }
        }
    }
}

/// Sorting keeps elements that do not clash apart.
pub proof fn lemma_sort_apart<T>(s: Seq<T>, before: spec_fn(T, T) -> bool, clash: spec_fn(T, T) -> bool)
    requires
        apart(s, clash),
    ensures
        apart(stable_sort(s, before), clash),
    decreases s.len(),
{
    if s.len() > 0 {
        let p = s.drop_last();
        assert(apart(p, clash)) by {
            assert forall|a: int, b: int| 0 <= a < p.len() && 0 <= b < p.len() && a != b implies !clash(
                #[trigger] p[a],
                #[trigger] p[b],
            ) by {
                assert(p[a] == s[a] && p[b] == s[b]);
            }
        }
        lemma_sort_apart(p, before, clash);
        lemma_sort_elements(p, before);
        let sp = stable_sort(p, before);
        assert forall|a: int| 0 <= a < sp.len() implies !clash(#[trigger] sp[a], s.last()) && !clash(
            s.last(),
            sp[a],
        ) by {
            assert(sp.contains(sp[a]));
            let k = choose|k: int| 0 <= k < p.len() && p[k] == sp[a];
            assert(s[k] == sp[a]);
            assert(s[s.len() - 1] == s.last());
        }
        lemma_insert_apart(sp, s.last(), before, clash);
    }
}

/// The values of a sequence of wide fixed-point numbers, as integers.
pub open spec fn wide(v: Seq<i128>) -> Seq<int> {
    v.map_values(|x: i128| x as int)
}

/// The values of a sequence of tie-break vectors.
pub open spec fn keys_view(k: Seq<Vec<i128>>) -> Seq<Seq<int>> {
    k.map_values(|v: Vec<i128>| wide(v@))
}

/// Lexicographic comparison from position `i` on, where values within the
/// tolerance count as equal and a longer vector wins over its prefix.
pub open spec fn above_from(a: Seq<int>, b: Seq<int>, i: int) -> bool
    decreases a.len() - i,
{
    if i < 0 || i >= a.len() || i >= b.len() {
        a.len() > b.len()
    } else if !approx_eq(a[i], b[i]) {
        a[i] > b[i]
    } else {
        above_from(a, b, i + 1)
    }
}

/// Tie-break vector `a` ranks strictly above `b`.
pub open spec fn ranks_above(a: Seq<int>, b: Seq<int>) -> bool {
    above_from(a, b, 0)
}

/// Two tie-break vectors are equal within the tolerance.
pub open spec fn tied(a: Seq<int>, b: Seq<int>) -> bool {
    a.len() == b.len() && forall|j: int| 0 <= j < a.len() ==> approx_eq(#[trigger] a[j], b[j])
}

/// Places along a ranking: the first is 0; each next one shares the place of
/// the one before when their vectors are tied, and otherwise gets its index.
pub open spec fn places(ks: Seq<Seq<int>>) -> Seq<int>
    decreases ks.len(),
{
    if ks.len() == 0 {
        seq![]
    } else {
        let p = places(ks.drop_last());
        let i = ks.len() - 1;
        p.push(
            if i > 0 && tied(ks[i - 1], ks[i]) {
                p[i - 1]
            } else {
                i
            },
        )
    }
}

/// Index `a` goes before index `b` when its vector ranks above.
pub open spec fn key_order(keys: Seq<Seq<int>>) -> spec_fn(usize, usize) -> bool {
    |a: usize, b: usize| ranks_above(keys[a as int], keys[b as int])
}

/// The indices `0 .. n`.
pub open spec fn indices(n: nat) -> Seq<usize> {
    Seq::new(n, |i: int| i as usize)
}

/// The indices of the vectors, from the highest ranked to the lowest; ties keep their order.
pub open spec fn rank_order(keys: Seq<Seq<int>>) -> Seq<usize> {
    stable_sort(indices(keys.len()), key_order(keys))
}

/// The vectors picked out by `order`.
pub open spec fn pick(keys: Seq<Seq<int>>, order: Seq<usize>) -> Seq<Seq<int>> {
    order.map_values(|j: usize| keys[j as int])
}

proof fn lemma_above_asymmetric(a: Seq<int>, b: Seq<int>, i: int)
    requires
        0 <= i,
    ensures
        above_from(a, b, i) ==> !above_from(b, a, i),
    decreases a.len() - i,
{
    if i < a.len() && i < b.len() && approx_eq(a[i], b[i]) {
        lemma_above_asymmetric(a, b, i + 1);
    }
}

/// Ranking above is asymmetric, so the ranking is ordered.
pub proof fn lemma_key_order_asymmetric(keys: Seq<Seq<int>>)
    ensures
        asymmetric(key_order(keys)),
{
    assert forall|a: usize, b: usize| #[trigger] key_order(keys)(a, b) implies !key_order(keys)(b, a) by {
        lemma_above_asymmetric(keys[a as int], keys[b as int], 0);
    }
}

/// Compares two tie-break vectors.
pub fn ranks_above_exec(a: &Vec<i128>, b: &Vec<i128>) -> (r: bool)
    ensures
        r == ranks_above(wide(a@), wide(b@)),
{
    let mut i: usize = 0;
    while i < a.len() && i < b.len()
        invariant
            i <= a.len(),
            i <= b.len(),
            above_from(wide(a@), wide(b@), 0) == above_from(wide(a@), wide(b@), i as int),
        decreases a.len() - i,
    {
        if !within_tolerance(a[i], b[i]) {
            return a[i] > b[i];
        }
        i = i + 1;
    }
    a.len() > b.len()
}

/// Whether two tie-break vectors are tied.
pub fn tied_exec(a: &Vec<i128>, b: &Vec<i128>) -> (r: bool)
    ensures
        r == tied(wide(a@), wide(b@)),
{
    if a.len() != b.len() {
        return false;
    }
    let mut i: usize = 0;
    while i < a.len()
        invariant
            i <= a.len() == b.len(),
            forall|j: int| 0 <= j < i ==> approx_eq(#[trigger] wide(a@)[j], wide(b@)[j]),
        decreases a.len() - i,
    {
        if !within_tolerance(a[i], b[i]) {
            assert(!approx_eq(wide(a@)[i as int], wide(b@)[i as int]));
            return false;
        }
        i = i + 1;
    }
    true
}

/// The ranking order of the vectors.
pub fn sort_order(keys: &Vec<Vec<i128>>) -> (r: Vec<usize>)
    ensures
        r@ == rank_order(keys_view(keys@)),
        r.len() == keys.len(),
        forall|i: int| 0 <= i < r.len() ==> #[trigger] r@[i] < keys.len(),
{
    let ghost ks = keys_view(keys@);
    let ghost idx = indices(keys.len() as nat);
    let mut out: Vec<usize> = Vec::new();
    let mut i: usize = 0;
    while i < keys.len()
        invariant
            i <= keys.len(),
            ks == keys_view(keys@),
            idx == indices(keys.len() as nat),
            out@ == stable_sort(idx.take(i as int), key_order(ks)),
            out.len() == i,
            forall|j: int| 0 <= j < out.len() ==> #[trigger] out@[j] < i,
        decreases keys.len() - i,
    {
        let mut p: usize = 0;
        while p < out.len() && !ranks_above_exec(&keys[i], &keys[out[p]])
            invariant
                p <= out.len(),
                i < keys.len(),
                ks == keys_view(keys@),
                forall|j: int| 0 <= j < out.len() ==> #[trigger] out@[j] < i,
                forall|j: int| 0 <= j < p ==> !key_order(ks)(i, #[trigger] out@[j]),
            decreases out.len() - p,
        {
            p = p + 1;
        }
        proof {
            lemma_insert_at(out@, i, key_order(ks), p as int);
            assert(idx.take(i as int + 1).drop_last() =~= idx.take(i as int));
            assert(idx.take(i as int + 1).last() == i);
            lemma_insert_elements(out@, i, key_order(ks));
        }
        let ghost before = out@;
        out.insert(p, i);
        proof {
            assert forall|j: int| 0 <= j < out.len() implies #[trigger] out@[j] < i + 1 by {
                assert(out@.contains(out@[j]));
                if out@[j] != i {
                    let m = choose|m: int| 0 <= m < before.len() && before[m] == out@[j];
                }
            }
        }
        i = i + 1;
    }
    assert(idx.take(i as int) =~= idx);
    out
}

/// The places along a ranking order.
pub fn assign_places(keys: &Vec<Vec<i128>>, order: &Vec<usize>) -> (r: Vec<i32>)
    requires
        order.len() <= i32::MAX,
        forall|i: int| 0 <= i < order.len() ==> #[trigger] order@[i] < keys.len(),
    ensures
        r.len() == order.len(),
        forall|i: int| 0 <= i < r.len() ==> r@[i] as int == #[trigger] places(pick(keys_view(keys@), order@))[i],
{
    let ghost ks = pick(keys_view(keys@), order@);
    let mut out: Vec<i32> = Vec::new();
    let mut i: usize = 0;
    while i < order.len()
        invariant
            i <= order.len() <= i32::MAX,
            ks == pick(keys_view(keys@), order@),
            forall|j: int| 0 <= j < order.len() ==> #[trigger] order@[j] < keys.len(),
            out.len() == i,
            places(ks.take(i as int)).len() == i,
            forall|j: int| 0 <= j < i ==> out@[j] as int == #[trigger] places(ks.take(i as int))[j],
            forall|j: int| 0 <= j < i ==> 0 <= #[trigger] out@[j] <= j,
        decreases order.len() - i,
    {
        let ghost prev = places(ks.take(i as int));
        assert(ks.take(i as int + 1).drop_last() =~= ks.take(i as int));
        let place: i32 = if i > 0 && tied_exec(&keys[order[i - 1]], &keys[order[i]]) {
            assert(ks.take(i as int + 1)[i - 1] == ks[i - 1]);
            out[i - 1]
        } else {
            i as i32
        };
        out.push(place);
        i = i + 1;
    }
    assert(ks.take(i as int) =~= ks);
    out
}

/// `before` is a strict total order.
pub open spec fn strict_total<T>(before: spec_fn(T, T) -> bool) -> bool {
    &&& asymmetric(before)
    &&& forall|a: T, b: T, c: T| #[trigger] before(a, b) && #[trigger] before(b, c) ==> before(a, c)
    &&& forall|a: T, b: T| a != b ==> #[trigger] before(a, b) || before(b, a)
}

/// Insertion adds the inserted element to the multiset, and nothing else.
pub proof fn lemma_insert_multiset<T>(s: Seq<T>, x: T, before: spec_fn(T, T) -> bool)
    ensures
        insert_ranked(s, x, before).to_multiset() =~= s.to_multiset().insert(x),
    decreases s.len(),
{
    broadcast use vstd::seq_lib::group_to_multiset_ensures;

    if s.len() == 0 {
        assert(seq![x] =~= Seq::<T>::empty().push(x));
    } else if before(x, s[0]) {
        vstd::seq_lib::lemma_multiset_commutative(seq![x], s);
        assert(seq![x] =~= Seq::<T>::empty().push(x));
    } else {
        let t = s.drop_first();
        lemma_insert_multiset(t, x, before);
        vstd::seq_lib::lemma_multiset_commutative(seq![s[0]], insert_ranked(t, x, before));
        vstd::seq_lib::lemma_multiset_commutative(seq![s[0]], t);
        assert(seq![s[0]] + t =~= s);
        assert(seq![s[0]] =~= Seq::<T>::empty().push(s[0]));
    }
}

/// Sorting keeps the multiset of elements.
pub proof fn lemma_sort_multiset<T>(s: Seq<T>, before: spec_fn(T, T) -> bool)
    ensures
        stable_sort(s, before).to_multiset() =~= s.to_multiset(),
    decreases s.len(),
{
    broadcast use vstd::seq_lib::group_to_multiset_ensures;

    if s.len() > 0 {
        lemma_sort_multiset(s.drop_last(), before);
        lemma_insert_multiset(stable_sort(s.drop_last(), before), s.last(), before);
        assert(s.drop_last().push(s.last()) =~= s);
    }
}

/// Under a strict total order, an ordered sequence never has a later
/// element before an earlier one.
proof fn lemma_ordered_everywhere<T>(s: Seq<T>, before: spec_fn(T, T) -> bool, i: int, j: int)
    requires
        strict_total(before),
        ordered(s, before),
        0 <= i <= j < s.len(),
    ensures
        s[i] == s[j] || before(s[i], s[j]),
    decreases j - i,
{
    if i < j {
        lemma_ordered_everywhere(s, before, i, j - 1);
        assert(!before(s[j], s[j - 1]));
        if s[j - 1] != s[j] {
            assert(before(s[j - 1], s[j]));
        }
    }
}

/// Under a strict total order, two ordered sequences with the same
/// multiset of elements are equal.
pub proof fn lemma_ordered_unique<T>(a: Seq<T>, b: Seq<T>, before: spec_fn(T, T) -> bool)
    requires
        strict_total(before),
        ordered(a, before),
        ordered(b, before),
        a.to_multiset() == b.to_multiset(),
    ensures
        a == b,
    decreases a.len(),
{
    broadcast use vstd::seq_lib::group_to_multiset_ensures;

    a.to_multiset_ensures();
    b.to_multiset_ensures();
    assert(a.len() == a.to_multiset().len() && b.len() == b.to_multiset().len());
    if a.len() == 0 {
        assert(b.len() == 0);
        assert(a =~= b);
    } else {
        assert(b.len() == a.len());
        assert(a.contains(a[0]));
        assert(a.to_multiset().count(a[0]) > 0);
        assert(b.contains(a[0]));
        assert(b.contains(b[0]));
        assert(b.to_multiset().count(b[0]) > 0);
        assert(a.contains(b[0]));
        let k = choose|k: int| 0 <= k < b.len() && b[k] == a[0];
        let m = choose|m: int| 0 <= m < a.len() && a[m] == b[0];
        lemma_ordered_everywhere(b, before, 0, k);
        lemma_ordered_everywhere(a, before, 0, m);
        assert(a[0] == b[0]);
        let a1 = a.drop_first();
        let b1 = b.drop_first();
        assert(a.remove(0) =~= a1);
        assert(b.remove(0) =~= b1);
        assert(ordered(a1, before)) by {
            assert forall|i: int| 0 < i < a1.len() implies !before(#[trigger] a1[i], a1[i - 1]) by {
                assert(a1[i] == a[i + 1] && a1[i - 1] == a[i]);
            }
        }
        assert(ordered(b1, before)) by {
            assert forall|i: int| 0 < i < b1.len() implies !before(#[trigger] b1[i], b1[i - 1]) by {
                assert(b1[i] == b[i + 1] && b1[i - 1] == b[i]);
            }
        }
        lemma_ordered_unique(a1, b1, before);
        assert(a =~= b) by {
            assert forall|i: int| 0 <= i < a.len() implies a[i] == b[i] by {
                if i > 0 {
                    assert(a[i] == a1[i - 1] && b[i] == b1[i - 1]);
                }
            }
        }
    }
}

/// Sorting by a strict total order depends on the multiset of elements alone.
pub proof fn lemma_sort_ignores_order<T>(a: Seq<T>, b: Seq<T>, before: spec_fn(T, T) -> bool)
    requires
        strict_total(before),
        a.to_multiset() == b.to_multiset(),
    ensures
        stable_sort(a, before) == stable_sort(b, before),
{
    lemma_sort_multiset(a, before);
    lemma_sort_multiset(b, before);
    lemma_sort_ordered(a, before);
    lemma_sort_ordered(b, before);
    lemma_ordered_unique(stable_sort(a, before), stable_sort(b, before), before);
}

/// Wave scores in a fixed order of all their fields: score, surfer, wave,
/// then unpublished before published.
pub open spec fn wave_score_before(x: WaveScore, y: WaveScore) -> bool {
    if x.score != y.score {
        x.score < y.score
    } else if x.surfer_id != y.surfer_id {
        x.surfer_id < y.surfer_id
    } else if x.wave != y.wave {
        x.wave < y.wave
    } else {
        !x.published && y.published
    }
}

/// Entries in a fixed order of all their fields: surfer, wave, entries
/// without a score first, then by wave score.
pub open spec fn entry_before(a: (i32, i32, Option<WaveScore>), b: (i32, i32, Option<WaveScore>)) -> bool {
    if a.0 != b.0 {
        a.0 < b.0
    } else if a.1 != b.1 {
        a.1 < b.1
    } else {
        match (a.2, b.2) {
            (None, Some(_)) => true,
            (Some(x), Some(y)) => wave_score_before(x, y),
            _ => false,
        }
    }
}

/// The order of `entry_before`.
pub open spec fn entry_order() -> spec_fn((i32, i32, Option<WaveScore>), (i32, i32, Option<WaveScore>)) -> bool {
    |a: (i32, i32, Option<WaveScore>), b: (i32, i32, Option<WaveScore>)| entry_before(a, b)
}

/// The entries in their fixed order, whatever order they came in.
pub open spec fn canonical(ws: Seq<(i32, i32, Option<WaveScore>)>) -> Seq<(i32, i32, Option<WaveScore>)> {
    stable_sort(ws, entry_order())
}

/// The wave scores that are present, with their surfer and wave, in the fixed entry order.
pub open spec fn entries(ws: Seq<(i32, i32, Option<WaveScore>)>) -> Seq<(i32, i32, WaveScore)> {
    present(canonical(ws))
}

/// The entry order is a strict total order.
pub proof fn lemma_entry_order_total()
    ensures
        strict_total(entry_order()),
{
    assert forall|a: (i32, i32, Option<WaveScore>), b: (i32, i32, Option<WaveScore>)| #[trigger]
        entry_order()(a, b) implies !entry_order()(b, a) by {}
    assert forall|a: (i32, i32, Option<WaveScore>), b: (i32, i32, Option<WaveScore>), c: (
        i32,
        i32,
        Option<WaveScore>,
    )| #[trigger] entry_order()(a, b) && #[trigger] entry_order()(b, c) implies entry_order()(a, c) by {}
    assert forall|a: (i32, i32, Option<WaveScore>), b: (i32, i32, Option<WaveScore>)| a != b implies #[trigger]
        entry_order()(a, b) || entry_order()(b, a) by {
        if a.0 == b.0 && a.1 == b.1 {
            match (a.2, b.2) {
                (Some(x), Some(y)) => {
                    if x.score == y.score && x.surfer_id == y.surfer_id && x.wave == y.wave && x.published
                        == y.published {
                        assert(x == y);
                    }
                },
                _ => {},
            }
        }
    }
}

/// Whether entry `a` comes before entry `b` in the fixed order.
fn entry_before_exec(a: &(i32, i32, Option<WaveScore>), b: &(i32, i32, Option<WaveScore>)) -> (r: bool)
    ensures
        r == entry_before(*a, *b),
{
    if a.0 != b.0 {
        return a.0 < b.0;
    }
    if a.1 != b.1 {
        return a.1 < b.1;
    }
    match (a.2, b.2) {
        (None, Some(_)) => true,
        (Some(x), Some(y)) => {
            if x.score != y.score {
                x.score < y.score
            } else if x.surfer_id != y.surfer_id {
                x.surfer_id < y.surfer_id
            } else if x.wave != y.wave {
                x.wave < y.wave
            } else {
                !x.published && y.published
            }
        },
        _ => false,
    }
}

/// The entries in their fixed order.
pub fn canonical_entries(ws: &Vec<(i32, i32, Option<WaveScore>)>) -> (r: Vec<(i32, i32, Option<WaveScore>)>)
    ensures
        r@ == canonical(ws@),
        r.len() == ws.len(),
{
    let mut out: Vec<(i32, i32, Option<WaveScore>)> = Vec::new();
    let mut k: usize = 0;
    while k < ws.len()
        invariant
            k <= ws.len(),
            out@ == stable_sort(ws@.take(k as int), entry_order()),
            out.len() == k,
        decreases ws.len() - k,
    {
        let x = ws[k];
        let mut q: usize = 0;
        while q < out.len() && !entry_before_exec(&x, &out[q])
            invariant
                q <= out.len(),
                forall|j: int| 0 <= j < q ==> !entry_order()(x, #[trigger] out@[j]),
            decreases out.len() - q,
        {
            q = q + 1;
        }
        proof {
            lemma_insert_at(out@, x, entry_order(), q as int);
            lemma_insert_elements(out@, x, entry_order());
            assert(ws@.take(k as int + 1).drop_last() =~= ws@.take(k as int));
        }
        out.insert(q, x);
        k = k + 1;
    }
    assert(ws@.take(k as int) =~= ws@);
    out
}

/// The present wave scores, with their surfer and wave, in the fixed entry order.
pub fn collect_entries(ws: &Vec<(i32, i32, Option<WaveScore>)>) -> (r: Vec<(i32, i32, WaveScore)>)
    ensures
        r@ == entries(ws@),
        r.len() <= ws.len(),
{
    let sorted = canonical_entries(ws);
    collect_present(&sorted)
}

/// The wave scores that are present, with the surfer and wave of their entry, in order.
pub open spec fn present(ws: Seq<(i32, i32, Option<WaveScore>)>) -> Seq<(i32, i32, WaveScore)>
    decreases ws.len(),
{
    if ws.len() == 0 {
        seq![]
    } else {
        let p = present(ws.drop_last());
        match ws.last().2 {
            Some(w) => p.push((ws.last().0, ws.last().1, w)),
            None => p,
        }
    }
}

/// No more wave scores are present than there are entries.
pub proof fn lemma_present_len(ws: Seq<(i32, i32, Option<WaveScore>)>)
    ensures
        present(ws).len() <= ws.len(),
    decreases ws.len(),
{
    if ws.len() > 0 {
        lemma_present_len(ws.drop_last());
    }
}

/// The surfers of the entries, each once, in order of first appearance.
pub open spec fn surfers(p: Seq<(i32, i32, WaveScore)>) -> Seq<i32>
    decreases p.len(),
{
    if p.len() == 0 {
        seq![]
    } else {
        let s = surfers(p.drop_last());
        if s.contains(p.last().0) {
            s
        } else {
            s.push(p.last().0)
        }
    }
}

/// The wave scores of one surfer, in order.
pub open spec fn scores_of(p: Seq<(i32, i32, WaveScore)>, id: i32) -> Seq<WaveScore>
    decreases p.len(),
{
    if p.len() == 0 {
        seq![]
    } else {
        let r = scores_of(p.drop_last(), id);
        if p.last().0 == id {
            r.push(p.last().2)
        } else {
            r
        }
    }
}

/// Wave scores ordered by wave index.
pub open spec fn wave_order() -> spec_fn(WaveScore, WaveScore) -> bool {
    |a: WaveScore, b: WaveScore| a.wave < b.wave
}

/// The wave scores of one surfer, by wave index.
pub open spec fn waves_of(p: Seq<(i32, i32, WaveScore)>, id: i32) -> Seq<WaveScore> {
    stable_sort(scores_of(p, id), wave_order())
}

/// The results of a heat, given each surfer's total and tie-break vector:
/// from the highest ranked to the lowest, with their places.
pub open spec fn ranked_results(
    heat_id: i32,
    p: Seq<(i32, i32, WaveScore)>,
    ids: Seq<i32>,
    totals: Seq<int>,
    keys: Seq<Seq<int>>,
) -> Seq<ResultView> {
    let order = rank_order(keys);
    let pl = places(pick(keys, order));
    Seq::new(
        order.len(),
        |i: int|
            ResultView {
                heat_id,
                surfer_id: ids[order[i] as int],
                total_score: totals[order[i] as int],
                place: pl[i],
                wave_scores: waves_of(p, ids[order[i] as int]),
                published: false,
            },
    )
}

/// Keeps the entries that hold a wave score.
pub fn collect_present(ws: &Vec<(i32, i32, Option<WaveScore>)>) -> (r: Vec<(i32, i32, WaveScore)>)
    ensures
        r@ == present(ws@),
        r.len() <= ws.len(),
{
    let mut out: Vec<(i32, i32, WaveScore)> = Vec::new();
    let mut i: usize = 0;
    while i < ws.len()
        invariant
            i <= ws.len(),
            out@ == present(ws@.take(i as int)),
            out.len() <= i,
        decreases ws.len() - i,
    {
        assert(ws@.take(i as int + 1).drop_last() =~= ws@.take(i as int));
        let (surfer_id, wave, score) = ws[i];
        match score {
            Some(w) => {
                out.push((surfer_id, wave, w));
            },
            None => {},
        }
        i = i + 1;
    }
    assert(ws@.take(i as int) =~= ws@);
    out
}

/// The surfers of the entries, each once, in order of first appearance.
pub fn distinct_surfers(p: &Vec<(i32, i32, WaveScore)>) -> (r: Vec<i32>)
    ensures
        r@ == surfers(p@),
        r.len() <= p.len(),
{
    let mut out: Vec<i32> = Vec::new();
    let mut i: usize = 0;
    while i < p.len()
        invariant
            i <= p.len(),
            out@ == surfers(p@.take(i as int)),
            out.len() <= i,
        decreases p.len() - i,
    {
        assert(p@.take(i as int + 1).drop_last() =~= p@.take(i as int));
        let id = p[i].0;
        let mut found = false;
        let mut j: usize = 0;
        while j < out.len()
            invariant
                j <= out.len(),
                found ==> out@.contains(id),
                !found ==> forall|k: int| 0 <= k < j ==> out@[k] != id,
            decreases out.len() - j,
        {
            if out[j] == id {
                found = true;
            }
            j = j + 1;
        }
        if !found {
            out.push(id);
        }
        i = i + 1;
    }
    assert(p@.take(i as int) =~= p@);
    out
}

/// The wave scores of one surfer, by wave index; equal waves keep their order.
pub fn surfer_waves(p: &Vec<(i32, i32, WaveScore)>, id: i32) -> (r: Vec<WaveScore>)
    ensures
        r@ == waves_of(p@, id),
{
    let mut mine: Vec<WaveScore> = Vec::new();
    let mut i: usize = 0;
    while i < p.len()
        invariant
            i <= p.len(),
            mine@ == scores_of(p@.take(i as int), id),
        decreases p.len() - i,
    {
        assert(p@.take(i as int + 1).drop_last() =~= p@.take(i as int));
        if p[i].0 == id {
            mine.push(p[i].2);
        }
        i = i + 1;
    }
    assert(p@.take(i as int) =~= p@);
    let mut out: Vec<WaveScore> = Vec::new();
    let mut k: usize = 0;
    while k < mine.len()
        invariant
            k <= mine.len(),
            out@ == stable_sort(mine@.take(k as int), wave_order()),
        decreases mine.len() - k,
    {
        let x = mine[k];
        let mut q: usize = 0;
        while q < out.len() && !(x.wave < out[q].wave)
            invariant
                q <= out.len(),
                forall|j: int| 0 <= j < q ==> !wave_order()(x, #[trigger] out@[j]),
            decreases out.len() - q,
        {
            q = q + 1;
        }
        proof {
            lemma_insert_at(out@, x, wave_order(), q as int);
            assert(mine@.take(k as int + 1).drop_last() =~= mine@.take(k as int));
        }
        out.insert(q, x);
        k = k + 1;
    }
    assert(mine@.take(k as int) =~= mine@);
    out
}

/// Builds the results of a heat from each surfer's total and tie-break vector.
pub fn rank_surfers(
    heat_id: i32,
    p: &Vec<(i32, i32, WaveScore)>,
    ids: &Vec<i32>,
    totals: &Vec<i128>,
    keys: &Vec<Vec<i128>>,
) -> (r: Vec<Result>)
    requires
        ids.len() == totals.len(),
        ids.len() == keys.len(),
        ids.len() <= i32::MAX,
    ensures
        results_view(r@) == ranked_results(heat_id, p@, ids@, wide(totals@), keys_view(keys@)),
{
    let order = sort_order(keys);
    let pl = assign_places(keys, &order);
    let ghost spec_r = ranked_results(heat_id, p@, ids@, wide(totals@), keys_view(keys@));
    let mut out: Vec<Result> = Vec::new();
    let mut i: usize = 0;
    while i < order.len()
        invariant
            i <= order.len(),
            order@ == rank_order(keys_view(keys@)),
            order.len() == keys.len() == ids.len() == totals.len(),
            pl.len() == order.len(),
            forall|j: int| 0 <= j < order.len() ==> #[trigger] order@[j] < keys.len(),
            forall|j: int| 0 <= j < pl.len() ==> pl@[j] as int == #[trigger] places(pick(keys_view(keys@), order@))[j],
            spec_r == ranked_results(heat_id, p@, ids@, wide(totals@), keys_view(keys@)),
            results_view(out@) == spec_r.take(i as int),
        decreases order.len() - i,
    {
        let j = order[i];
        let wave_scores = surfer_waves(p, ids[j]);
        let r = Result {
            heat_id,
            surfer_id: ids[j],
            total_score: totals[j],
            place: pl[i],
            wave_scores,
            published: false,
        };
        let ghost before = out@;
        out.push(r);
        assert(results_view(out@) =~= results_view(before).push(r@));
        assert(r@ == spec_r[i as int]);
        assert(results_view(out@) =~= spec_r.take(i as int + 1));
        i = i + 1;
    }
    assert(spec_r.take(i as int) =~= spec_r);
    out
}

} // verus!
