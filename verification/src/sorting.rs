//! Stable sorting, adjacent de-duplication and filtering of vectors.

use vstd::prelude::*;
use vstd::multiset::Multiset;

verus! {

/// Places `x` behind the elements of `s`, moving it in front of the trailing
/// elements that it precedes under `lt`.
pub open spec fn insert_back<T>(s: Seq<T>, x: T, lt: spec_fn(T, T) -> bool) -> Seq<T>
    decreases s.len(),
{
    if s.len() > 0 && lt(x, s.last()) {
        insert_back(s.drop_last(), x, lt).push(s.last())
    } else {
        s.push(x)
    }
}

/// The elements of `s` in the order of `lt`; elements that `lt` does not tell
/// apart keep the order in which they came.
pub open spec fn stable_sorted<T>(s: Seq<T>, lt: spec_fn(T, T) -> bool) -> Seq<T>
    decreases s.len(),
{
    if s.len() == 0 {
        s
    } else {
        insert_back(stable_sorted(s.drop_last(), lt), s.last(), lt)
    }
}

/// `lt` is a strict order whose indifference is transitive.
pub open spec fn strict_weak_order<T>(lt: spec_fn(T, T) -> bool) -> bool {
    &&& forall|a: T, b: T| #[trigger] lt(a, b) ==> !lt(b, a)
    &&& forall|a: T, b: T, c: T| #[trigger] lt(a, b) && #[trigger] lt(b, c) ==> lt(a, c)
    &&& forall|a: T, b: T, c: T| !(#[trigger] lt(a, b)) && !(#[trigger] lt(b, c)) ==> !lt(a, c)
}

/// No element of `s` precedes an earlier one.
pub open spec fn in_order<T>(s: Seq<T>, lt: spec_fn(T, T) -> bool) -> bool {
    forall|i: int, j: int| 0 <= i < j < s.len() ==> !lt(#[trigger] s[j], #[trigger] s[i])
}

/// Keeps the first of every run of neighbours that `same` identifies with the
/// element kept last.
pub open spec fn deduped<T>(s: Seq<T>, same: spec_fn(T, T) -> bool) -> Seq<T>
    decreases s.len(),
{
    if s.len() == 0 {
        s
    } else {
        let kept = deduped(s.drop_last(), same);
        if kept.len() > 0 && same(kept.last(), s.last()) {
            kept
        } else {
            kept.push(s.last())
        }
    }
}

/// The first `limit` elements of `s`, or all of them where there are fewer.
pub open spec fn capped<T>(s: Seq<T>, limit: int) -> Seq<T> {
    if s.len() <= limit {
        s
    } else {
        s.take(limit)
    }
}

/// Inserting keeps every element and adds `x` once.
pub proof fn lemma_insert_back_multiset<T>(s: Seq<T>, x: T, lt: spec_fn(T, T) -> bool)
    ensures
        insert_back(s, x, lt).to_multiset() == s.to_multiset().insert(x),
        insert_back(s, x, lt).len() == s.len() + 1,
    decreases s.len(),
{
    broadcast use vstd::seq_lib::group_to_multiset_ensures;

    if s.len() > 0 && lt(x, s.last()) {
        lemma_insert_back_multiset(s.drop_last(), x, lt);
        assert(s.drop_last().push(s.last()) =~= s);
        assert(s.to_multiset() == s.drop_last().to_multiset().insert(s.last()));
        assert(s.drop_last().to_multiset().insert(x).insert(s.last())
            =~= s.drop_last().to_multiset().insert(s.last()).insert(x));
    }
}

/// A sort neither drops, adds nor changes an element.
pub proof fn lemma_sort_multiset<T>(s: Seq<T>, lt: spec_fn(T, T) -> bool)
    ensures
        stable_sorted(s, lt).to_multiset() == s.to_multiset(),
        stable_sorted(s, lt).len() == s.len(),
    decreases s.len(),
{
    broadcast use vstd::seq_lib::group_to_multiset_ensures;

    if s.len() > 0 {
        lemma_sort_multiset(s.drop_last(), lt);
        lemma_insert_back_multiset(stable_sorted(s.drop_last(), lt), s.last(), lt);
        assert(s.drop_last().push(s.last()) =~= s);
    }
}

/// An element of a sequence is an element of its sorted form, and back.
pub proof fn lemma_sort_contains<T>(s: Seq<T>, lt: spec_fn(T, T) -> bool, x: T)
    ensures
        stable_sorted(s, lt).contains(x) <==> s.contains(x),
{
    broadcast use vstd::seq_lib::group_to_multiset_ensures;

    lemma_sort_multiset(s, lt);
    assert(stable_sorted(s, lt).to_multiset().count(x) == s.to_multiset().count(x));
}

proof fn lemma_insert_back_in_order<T>(s: Seq<T>, x: T, lt: spec_fn(T, T) -> bool)
    requires
        strict_weak_order(lt),
        in_order(s, lt),
    ensures
        in_order(insert_back(s, x, lt), lt),
        forall|i: int|
            0 <= i < insert_back(s, x, lt).len() ==> (s.contains(
                #[trigger] insert_back(s, x, lt)[i],
            ) || insert_back(s, x, lt)[i] == x),
    decreases s.len(),
{
    let out = insert_back(s, x, lt);
    if s.len() > 0 && lt(x, s.last()) {
        let front = s.drop_last();
        assert forall|i: int, j: int| 0 <= i < j < front.len() implies !lt(
            #[trigger] front[j],
            #[trigger] front[i],
        ) by {
            assert(front[i] == s[i] && front[j] == s[j]);
        }
        lemma_insert_back_in_order(front, x, lt);
        let inner = insert_back(front, x, lt);
        assert forall|i: int, j: int| 0 <= i < j < out.len() implies !lt(
            #[trigger] out[j],
            #[trigger] out[i],
        ) by {
            if j < inner.len() {
                assert(out[i] == inner[i] && out[j] == inner[j]);
            } else {
                assert(out[i] == inner[i]);
                if inner[i] == x {
                    assert(!lt(s.last(), x));
                } else {
                    assert(front.contains(inner[i]));
                    let k = choose|k: int| 0 <= k < front.len() && front[k] == inner[i];
                    assert(s[k] == inner[i]);
                    assert(!lt(s[s.len() - 1], s[k]));
                }
            }
        }
        assert forall|i: int| 0 <= i < out.len() implies (s.contains(#[trigger] out[i]) || out[i]
            == x) by {
            if i < inner.len() {
                assert(out[i] == inner[i]);
                if front.contains(inner[i]) {
                    let k = choose|k: int| 0 <= k < front.len() && front[k] == inner[i];
                    assert(s[k] == inner[i]);
                }
            } else {
                assert(s[s.len() - 1] == out[i]);
            }
        }
    } else {
        assert forall|i: int, j: int| 0 <= i < j < out.len() implies !lt(
            #[trigger] out[j],
            #[trigger] out[i],
        ) by {
            if j == s.len() {
                if i < s.len() - 1 {
                    assert(!lt(s[s.len() - 1], s[i]));
                    assert(!lt(x, s[s.len() - 1]));
                }
            } else {
                assert(out[i] == s[i] && out[j] == s[j]);
            }
        }
        assert forall|i: int| 0 <= i < out.len() implies (s.contains(#[trigger] out[i]) || out[i]
            == x) by {
            if i < s.len() {
                assert(s[i] == out[i]);
            }
        }
    }
}

/// A sort under a strict weak order leaves no element before one that it follows.
pub proof fn lemma_sort_in_order<T>(s: Seq<T>, lt: spec_fn(T, T) -> bool)
    requires
        strict_weak_order(lt),
    ensures
        in_order(stable_sorted(s, lt), lt),
    decreases s.len(),
{
    if s.len() > 0 {
        lemma_sort_in_order(s.drop_last(), lt);
        lemma_insert_back_in_order(stable_sorted(s.drop_last(), lt), s.last(), lt);
    }
}

/// `lt` puts any two different elements of `s` in an order.
pub open spec fn told_apart<T>(s: Seq<T>, lt: spec_fn(T, T) -> bool) -> bool {
    forall|x: T, y: T|
        s.contains(x) && s.contains(y) && !(#[trigger] lt(x, y)) && !lt(y, x) ==> x == y
}

/// Two sequences in order that hold the same elements are equal, where the
/// order tells any two different elements apart.
pub proof fn lemma_in_order_unique<T>(a: Seq<T>, b: Seq<T>, lt: spec_fn(T, T) -> bool)
    requires
        in_order(a, lt),
        in_order(b, lt),
        a.to_multiset() == b.to_multiset(),
        told_apart(a, lt),
    ensures
        a == b,
    decreases a.len(),
{
    broadcast use vstd::seq_lib::group_to_multiset_ensures;

    assert(a.to_multiset().len() == a.len());
    assert(b.to_multiset().len() == b.len());
    if a.len() > 0 {
        let x = a.last();
        let y = b.last();
        assert(a.to_multiset().count(x) > 0) by {
            assert(a.contains(a[a.len() - 1]));
        }
        assert(b.to_multiset().count(y) > 0) by {
            assert(b.contains(b[b.len() - 1]));
        }
        assert(b.contains(x));
        assert(a.contains(y));
        let i = choose|i: int| 0 <= i < b.len() && b[i] == x;
        let j = choose|j: int| 0 <= j < a.len() && a[j] == y;
        if i < b.len() - 1 && j < a.len() - 1 {
            assert(!lt(b[b.len() - 1], b[i]));
            assert(!lt(a[a.len() - 1], a[j]));
        }
        assert(x == y) by {
            assert(a.contains(a[a.len() - 1]));
            assert(!lt(x, y) && !lt(y, x) || x == y);
        }
        assert(told_apart(a.drop_last(), lt)) by {
            assert forall|u: T, v: T|
                a.drop_last().contains(u) && a.drop_last().contains(v) && !(#[trigger] lt(u, v))
                    && !lt(v, u) implies u == v by {
                let p = choose|p: int| 0 <= p < a.drop_last().len() && a.drop_last()[p] == u;
                let q = choose|q: int| 0 <= q < a.drop_last().len() && a.drop_last()[q] == v;
                assert(a[p] == u && a[q] == v);
            }
        }
        assert(a.drop_last().push(x) =~= a);
        assert(b.drop_last().push(x) =~= b);
        assert(a.drop_last().to_multiset().insert(x) == b.drop_last().to_multiset().insert(x));
        assert(a.drop_last().to_multiset() =~= a.drop_last().to_multiset().insert(x).remove(x));
        assert(b.drop_last().to_multiset() =~= b.drop_last().to_multiset().insert(x).remove(x));
        assert forall|p: int, q: int| 0 <= p < q < a.drop_last().len() implies !lt(
            #[trigger] a.drop_last()[q],
            #[trigger] a.drop_last()[p],
        ) by {
            assert(!lt(a[q], a[p]));
        }
        assert forall|p: int, q: int| 0 <= p < q < b.drop_last().len() implies !lt(
            #[trigger] b.drop_last()[q],
            #[trigger] b.drop_last()[p],
        ) by {
            assert(!lt(b[q], b[p]));
        }
        lemma_in_order_unique(a.drop_last(), b.drop_last(), lt);
    } else {
        assert(a =~= b);
    }
}

/// The sorted form does not depend on the order of arrival, where the order
/// tells any two different elements apart.
pub proof fn lemma_sort_arrival_independent<T>(a: Seq<T>, b: Seq<T>, lt: spec_fn(T, T) -> bool)
    requires
        strict_weak_order(lt),
        a.to_multiset() == b.to_multiset(),
        told_apart(a, lt),
    ensures
        stable_sorted(a, lt) == stable_sorted(b, lt),
{
    lemma_sort_in_order(a, lt);
    lemma_sort_in_order(b, lt);
    lemma_sort_multiset(a, lt);
    lemma_sort_multiset(b, lt);
    let sorted = stable_sorted(a, lt);
    assert forall|x: T, y: T|
        sorted.contains(x) && sorted.contains(y) && !(#[trigger] lt(x, y)) && !lt(y, x) implies x
        == y by {
        lemma_sort_contains(a, lt, x);
        lemma_sort_contains(a, lt, y);
    }
    lemma_in_order_unique(sorted, stable_sorted(b, lt), lt);
}

/// `lt` is a strict order with transitive indifference among the elements of `s`.
pub open spec fn orders<T>(s: Seq<T>, lt: spec_fn(T, T) -> bool) -> bool {
    &&& forall|x: T, y: T| s.contains(x) && s.contains(y) && #[trigger] lt(x, y) ==> !lt(y, x)
    &&& forall|x: T, y: T, z: T|
        s.contains(x) && s.contains(y) && s.contains(z) && #[trigger] lt(x, y) && #[trigger] lt(
            y,
            z,
        ) ==> lt(x, z)
    &&& forall|x: T, y: T, z: T|
        s.contains(x) && s.contains(y) && s.contains(z) && !(#[trigger] lt(x, y)) && !(
        #[trigger] lt(y, z)) ==> !lt(x, z)
}

proof fn lemma_insert_back_same<T>(
    s: Seq<T>,
    x: T,
    lt: spec_fn(T, T) -> bool,
    other: spec_fn(T, T) -> bool,
)
    requires
        forall|y: T| s.contains(y) ==> (#[trigger] lt(x, y) == other(x, y)),
    ensures
        insert_back(s, x, lt) == insert_back(s, x, other),
    decreases s.len(),
{
    if s.len() > 0 {
        assert(s.contains(s.last()));
        assert forall|y: T| s.drop_last().contains(y) implies (#[trigger] lt(x, y) == other(
            x,
            y,
        )) by {
            let i = choose|i: int| 0 <= i < s.drop_last().len() && s.drop_last()[i] == y;
            assert(s[i] == y);
            assert(s.contains(y));
        }
        lemma_insert_back_same(s.drop_last(), x, lt, other);
    }
}

proof fn lemma_sort_same<T>(s: Seq<T>, lt: spec_fn(T, T) -> bool, other: spec_fn(T, T) -> bool)
    requires
        forall|x: T, y: T| s.contains(x) && s.contains(y) ==> (#[trigger] lt(x, y) == other(x, y)),
    ensures
        stable_sorted(s, lt) == stable_sorted(s, other),
    decreases s.len(),
{
    if s.len() > 0 {
        let head = s.drop_last();
        assert forall|x: T| #[trigger] head.contains(x) implies s.contains(x) by {
            let i = choose|i: int| 0 <= i < head.len() && head[i] == x;
            assert(s[i] == x);
        }
        assert(s.contains(s.last()));
        lemma_sort_same(head, lt, other);
        assert forall|y: T| stable_sorted(head, lt).contains(y) implies (#[trigger] lt(
            s.last(),
            y,
        ) == other(s.last(), y)) by {
            lemma_sort_contains(head, lt, y);
        }
        lemma_insert_back_same(stable_sorted(head, lt), s.last(), lt, other);
    }
}

/// The sorted form of some elements does not depend on the order of arrival,
/// where the order is one among these elements and tells them apart.
pub proof fn lemma_sort_converges<T>(a: Seq<T>, b: Seq<T>, lt: spec_fn(T, T) -> bool)
    requires
        orders(a, lt),
        a.to_multiset() == b.to_multiset(),
        told_apart(a, lt),
    ensures
        stable_sorted(a, lt) == stable_sorted(b, lt),
{
    broadcast use vstd::seq_lib::group_to_multiset_ensures;

    let wide = |x: T, y: T|
        if a.contains(x) && a.contains(y) {
            lt(x, y)
        } else {
            a.contains(x) && !a.contains(y)
        };
    assert(strict_weak_order(wide));
    assert(told_apart(a, wide));
    lemma_sort_arrival_independent(a, b, wide);
    lemma_sort_same(a, lt, wide);
    assert forall|x: T| b.contains(x) implies a.contains(x) by {
        assert(b.to_multiset().count(x) > 0);
    }
    lemma_sort_same(b, lt, wide);
}

proof fn lemma_insert_back_at<T>(s: Seq<T>, x: T, lt: spec_fn(T, T) -> bool, p: int)
    requires
        0 <= p <= s.len(),
        p == 0 || !lt(x, s[p - 1]),
        forall|i: int| p <= i < s.len() ==> lt(x, #[trigger] s[i]),
    ensures
        insert_back(s, x, lt) == s.insert(p, x),
    decreases s.len(),
{
    if p < s.len() {
        assert(lt(x, s[s.len() - 1]));
        lemma_insert_back_at(s.drop_last(), x, lt, p);
        assert(s.insert(p, x) =~= s.drop_last().insert(p, x).push(s.last()));
    } else {
        assert(s.insert(p, x) =~= s.push(x));
    }
}

proof fn lemma_insert_back_map<T, U>(
    s: Seq<T>,
    x: T,
    lt: spec_fn(T, T) -> bool,
    f: spec_fn(T) -> U,
    lu: spec_fn(U, U) -> bool,
)
    requires
        forall|a: T, b: T| #[trigger] lt(a, b) == lu(f(a), f(b)),
    ensures
        insert_back(s, x, lt).map_values(f) == insert_back(s.map_values(f), f(x), lu),
    decreases s.len(),
{
    let m = s.map_values(f);
    if s.len() > 0 {
        assert(m.last() == f(s.last()));
        assert(m.drop_last() =~= s.drop_last().map_values(f));
        assert(lt(x, s.last()) == lu(f(x), f(s.last())));
        if lt(x, s.last()) {
            lemma_insert_back_map(s.drop_last(), x, lt, f, lu);
        }
    }
    assert(insert_back(s, x, lt).map_values(f) =~= insert_back(m, f(x), lu));
}

/// Sorting commutes with a change of representation that keeps the order.
pub proof fn lemma_sort_map<T, U>(
    s: Seq<T>,
    lt: spec_fn(T, T) -> bool,
    f: spec_fn(T) -> U,
    lu: spec_fn(U, U) -> bool,
)
    requires
        forall|a: T, b: T| #[trigger] lt(a, b) == lu(f(a), f(b)),
    ensures
        stable_sorted(s, lt).map_values(f) == stable_sorted(s.map_values(f), lu),
    decreases s.len(),
{
    let m = s.map_values(f);
    if s.len() > 0 {
        assert(m.drop_last() =~= s.drop_last().map_values(f));
        lemma_sort_map(s.drop_last(), lt, f, lu);
        lemma_insert_back_map(stable_sorted(s.drop_last(), lt), s.last(), lt, f, lu);
    } else {
        assert(stable_sorted(s, lt).map_values(f) =~= stable_sorted(m, lu));
    }
}

/// Filtering commutes with a change of representation that keeps the predicate.
pub proof fn lemma_filter_map<T, U>(
    s: Seq<T>,
    p: spec_fn(T) -> bool,
    f: spec_fn(T) -> U,
    q: spec_fn(U) -> bool,
)
    requires
        forall|a: T| #[trigger] p(a) == q(f(a)),
    ensures
        s.filter(p).map_values(f) == s.map_values(f).filter(q),
    decreases s.len(),
{
    reveal(Seq::filter);
    let m = s.map_values(f);
    if s.len() > 0 {
        assert(m.drop_last() =~= s.drop_last().map_values(f));
        lemma_filter_map(s.drop_last(), p, f, q);
        assert(p(s.last()) == q(f(s.last())));
        if p(s.last()) {
            assert(s.filter(p).map_values(f) =~= s.drop_last().filter(p).map_values(f).push(
                f(s.last()),
            ));
        }
    } else {
        assert(s.filter(p).map_values(f) =~= m.filter(q));
    }
}

/// A sequence in order is its own sorted form.
pub proof fn lemma_sort_keeps_order<T>(s: Seq<T>, lt: spec_fn(T, T) -> bool)
    requires
        in_order(s, lt),
    ensures
        stable_sorted(s, lt) == s,
    decreases s.len(),
{
    if s.len() > 0 {
        let rest = s.drop_last();
        assert(in_order(rest, lt)) by {
            assert forall|i: int, j: int| 0 <= i < j < rest.len() implies !lt(
                #[trigger] rest[j],
                #[trigger] rest[i],
            ) by {
                assert(rest[i] == s[i] && rest[j] == s[j]);
            }
        }
        lemma_sort_keeps_order(rest, lt);
        if rest.len() > 0 {
            assert(!lt(s[s.len() - 1], s[s.len() - 2]));
        }
        assert(s =~= rest.push(s.last()));
    }
}

proof fn lemma_filter_last<T>(s: Seq<T>, p: spec_fn(T) -> bool) -> (i: int)
    requires
        s.filter(p).len() > 0,
    ensures
        0 <= i < s.len(),
        s.filter(p).last() == s[i],
    decreases s.len(),
{
    reveal(Seq::filter);
    if p(s.last()) {
        s.len() - 1
    } else {
        lemma_filter_last(s.drop_last(), p)
    }
}

proof fn lemma_insert_back_filter<T>(
    s: Seq<T>,
    x: T,
    lt: spec_fn(T, T) -> bool,
    p: spec_fn(T) -> bool,
)
    requires
        strict_weak_order(lt),
        in_order(s, lt),
    ensures
        insert_back(s, x, lt).filter(p) == (if p(x) {
            insert_back(s.filter(p), x, lt)
        } else {
            s.filter(p)
        }),
    decreases s.len(),
{
    reveal(Seq::filter);
    if s.len() > 0 && lt(x, s.last()) {
        let rest = s.drop_last();
        assert(in_order(rest, lt)) by {
            assert forall|i: int, j: int| 0 <= i < j < rest.len() implies !lt(
                #[trigger] rest[j],
                #[trigger] rest[i],
            ) by {
                assert(rest[i] == s[i] && rest[j] == s[j]);
            }
        }
        lemma_insert_back_filter(rest, x, lt, p);
        let placed = insert_back(rest, x, lt);
        assert(placed.push(s.last()).drop_last() =~= placed);
        if p(s.last()) {
            assert(s.filter(p).drop_last() =~= rest.filter(p));
        }
    } else {
        assert(s.push(x).drop_last() =~= s);
        if s.filter(p).len() > 0 {
            let i = lemma_filter_last(s, p);
            if i < s.len() - 1 {
                assert(!lt(s[s.len() - 1], s[i]));
                assert(!lt(x, s[s.len() - 1]));
                assert(!lt(x, s[i]));
            }
        }
    }
}

/// The sorted form of a selection is the selection of the sorted form.
pub proof fn lemma_sort_filter<T>(s: Seq<T>, lt: spec_fn(T, T) -> bool, p: spec_fn(T) -> bool)
    requires
        strict_weak_order(lt),
    ensures
        stable_sorted(s, lt).filter(p) == stable_sorted(s.filter(p), lt),
    decreases s.len(),
{
    reveal(Seq::filter);
    if s.len() > 0 {
        let rest = s.drop_last();
        lemma_sort_filter(rest, lt, p);
        lemma_sort_in_order(rest, lt);
        lemma_insert_back_filter(stable_sorted(rest, lt), s.last(), lt, p);
        if p(s.last()) {
            let f = rest.filter(p).push(s.last());
            assert(s.filter(p) == f);
            assert(f.drop_last() =~= rest.filter(p));
        }
    }
}

/// Nothing is filtered out where every element satisfies the predicate.
pub proof fn lemma_filter_all<T>(s: Seq<T>, p: spec_fn(T) -> bool)
    requires
        forall|i: int| 0 <= i < s.len() ==> p(#[trigger] s[i]),
    ensures
        s.filter(p) == s,
    decreases s.len(),
{
    reveal(Seq::filter);
    if s.len() > 0 {
        let rest = s.drop_last();
        assert forall|i: int| 0 <= i < rest.len() implies p(#[trigger] rest[i]) by {
            assert(rest[i] == s[i]);
        }
        lemma_filter_all(rest, p);
        assert(p(s[s.len() - 1]));
        assert(s =~= rest.push(s.last()));
    } else {
        assert(s.filter(p) =~= s);
    }
}

/// Everything is filtered out where no element satisfies the predicate.
pub proof fn lemma_filter_none<T>(s: Seq<T>, p: spec_fn(T) -> bool)
    requires
        forall|i: int| 0 <= i < s.len() ==> !p(#[trigger] s[i]),
    ensures
        s.filter(p) == Seq::<T>::empty(),
    decreases s.len(),
{
    reveal(Seq::filter);
    if s.len() > 0 {
        let rest = s.drop_last();
        assert forall|i: int| 0 <= i < rest.len() implies !p(#[trigger] rest[i]) by {
            assert(rest[i] == s[i]);
        }
        lemma_filter_none(rest, p);
        assert(!p(s[s.len() - 1]));
    } else {
        assert(s.filter(p) =~= Seq::<T>::empty());
    }
}

/// Exchanges the neighbours at `j - 1` and `j`.
fn swap_back<T>(items: &mut [T], j: usize)
    requires
        0 < j < old(items)@.len(),
    ensures
        final(items)@ == old(items)@.update(j - 1, old(items)@[j as int]).update(
            j as int,
            old(items)@[j - 1],
        ),
{
    let (left, right) = items.split_at_mut(j);
    std::mem::swap(&mut left[j - 1], &mut right[0]);
}

/// Sorts `items` in place by `before`, the computed form of `lt`.
pub(crate) fn sort_stable<T, F: Fn(&T, &T) -> bool>(
    items: &mut [T],
    before: F,
    Ghost(lt): Ghost<spec_fn(T, T) -> bool>,
)
    requires
        forall|a: &T, b: &T| #[trigger] call_requires(before, (a, b)),
        forall|a: &T, b: &T, r: bool| #[trigger] call_ensures(before, (a, b), r) ==> r == lt(*a, *b),
    ensures
        final(items)@ == stable_sorted(old(items)@, lt),
{
    let ghost start = items@;
    let n: usize = items.len();
    let mut i: usize = 0;
    proof {
        assert(start.take(0) =~= Seq::<T>::empty());
    }
    while i < n
        invariant
            forall|a: &T, b: &T| #[trigger] call_requires(before, (a, b)),
            forall|a: &T, b: &T, r: bool| #[trigger]
                call_ensures(before, (a, b), r) ==> r == lt(*a, *b),
            n == start.len(),
            items@.len() == n,
            i <= n,
            items@.take(i as int) == stable_sorted(start.take(i as int), lt),
            items@.skip(i as int) == start.skip(i as int),
        decreases n - i,
    {
        let ghost mid = items@;
        let ghost front = items@.take(i as int);
        let ghost x = items@[i as int];
        proof {
            assert(x == mid.skip(i as int)[0]);
            assert(x == start[i as int]);
        }
        let mut p: usize = i;
        while p > 0 && before(&items[p], &items[p - 1])
            invariant
                forall|a: &T, b: &T| #[trigger] call_requires(before, (a, b)),
                forall|a: &T, b: &T, r: bool| #[trigger]
                    call_ensures(before, (a, b), r) ==> r == lt(*a, *b),
                p <= i < mid.len(),
                front == mid.take(i as int),
                x == mid[i as int],
                items@ == mid.remove(i as int).insert(p as int, x),
                forall|k: int| p <= k < i ==> lt(x, #[trigger] front[k]),
            ensures
                p <= i < mid.len(),
                items@ == mid.remove(i as int).insert(p as int, x),
                forall|k: int| p <= k < i ==> lt(x, #[trigger] front[k]),
                p == 0 || !lt(x, front[p - 1]),
            decreases p,
        {
            proof {
                assert(front[p - 1] == items@[p - 1]);
            }
            swap_back(items, p);
            p = p - 1;
            proof {
                assert(items@ =~= mid.remove(i as int).insert(p as int, x));
            }
        }
        proof {
            lemma_insert_back_at(front, x, lt, p as int);
            assert(items@.take(i + 1) =~= front.insert(p as int, x));
            assert(start.take(i + 1).drop_last() =~= start.take(i as int));
            assert(start.take(i + 1).last() == start[i as int]);
            assert(items@.skip(i + 1) =~= mid.skip(i as int).skip(1));
            assert(start.skip(i + 1) =~= start.skip(i as int).skip(1));
        }
        i = i + 1;
    }
    proof {
        assert(items@.take(n as int) =~= items@);
        assert(start.take(n as int) =~= start);
    }
}

/// Drops in place every element that `same` identifies with the element kept before it.
pub(crate) fn dedup_adjacent<T, F: Fn(&T, &T) -> bool>(
    items: &mut Vec<T>,
    alike: F,
    Ghost(same): Ghost<spec_fn(T, T) -> bool>,
)
    requires
        forall|a: &T, b: &T| #[trigger] call_requires(alike, (a, b)),
        forall|a: &T, b: &T, r: bool| #[trigger] call_ensures(alike, (a, b), r) ==> r == same(*a, *b),
    ensures
        final(items)@ == deduped(old(items)@, same),
{
    let ghost start = items@;
    let mut i: usize = 0;
    let mut seen: Ghost<int> = Ghost(0);
    proof {
        assert(start.take(0) =~= Seq::<T>::empty());
        assert(items@.take(0) =~= Seq::<T>::empty());
        assert(items@.skip(0) =~= start.skip(0));
    }
    while i < items.len()
        invariant
            forall|a: &T, b: &T| #[trigger] call_requires(alike, (a, b)),
            forall|a: &T, b: &T, r: bool| #[trigger]
                call_ensures(alike, (a, b), r) ==> r == same(*a, *b),
            0 <= i <= items@.len(),
            0 <= seen@ <= start.len(),
            items@.len() - i == start.len() - seen@,
            items@.take(i as int) == deduped(start.take(seen@), same),
            items@.skip(i as int) == start.skip(seen@),
        decreases items@.len() - i,
    {
        let ghost mid = items@;
        proof {
            assert(mid[i as int] == mid.skip(i as int)[0]);
            assert(start[seen@] == start.skip(seen@)[0]);
            assert(start.take(seen@ + 1).drop_last() =~= start.take(seen@));
            assert(start.take(seen@ + 1).last() == start[seen@]);
            if i > 0 {
                assert(mid.take(i as int).last() == mid[i - 1]);
            }
        }
        if i > 0 && alike(&items[i - 1], &items[i]) {
            let _dropped = items.remove(i);
            proof {
                assert(items@.take(i as int) =~= mid.take(i as int));
                assert(items@.skip(i as int) =~= mid.skip(i as int).skip(1));
                assert(start.skip(seen@ + 1) =~= start.skip(seen@).skip(1));
            }
        } else {
            i = i + 1;
            proof {
                assert(items@.take(i as int) =~= mid.take(i - 1).push(mid[i - 1]));
                assert(items@.skip(i as int) =~= mid.skip(i - 1).skip(1));
                assert(start.skip(seen@ + 1) =~= start.skip(seen@).skip(1));
            }
        }
        proof {
            seen@ = seen@ + 1;
        }
    }
    proof {
        assert(items@.take(i as int) =~= items@);
        assert(start.take(seen@) =~= start);
    }
}

/// Keeps in place the elements that satisfy `keep`, in their order.
pub(crate) fn retain_where<T, F: Fn(&T) -> bool>(
    items: &mut Vec<T>,
    keep: F,
    Ghost(kept): Ghost<spec_fn(T) -> bool>,
)
    requires
        forall|a: &T| #[trigger] call_requires(keep, (a,)),
        forall|a: &T, r: bool| #[trigger] call_ensures(keep, (a,), r) ==> r == kept(*a),
    ensures
        final(items)@ == old(items)@.filter(kept),
{
    reveal(Seq::filter);
    let ghost start = items@;
    let mut i: usize = 0;
    let mut seen: Ghost<int> = Ghost(0);
    proof {
        assert(start.take(0) =~= Seq::<T>::empty());
        assert(items@.take(0) =~= Seq::<T>::empty());
        assert(items@.skip(0) =~= start.skip(0));
    }
    while i < items.len()
        invariant
            forall|a: &T| #[trigger] call_requires(keep, (a,)),
            forall|a: &T, r: bool| #[trigger] call_ensures(keep, (a,), r) ==> r == kept(*a),
            0 <= i <= items@.len(),
            0 <= seen@ <= start.len(),
            items@.len() - i == start.len() - seen@,
            items@.take(i as int) == start.take(seen@).filter(kept),
            items@.skip(i as int) == start.skip(seen@),
        decreases items@.len() - i,
    {
        reveal(Seq::filter);
        let ghost mid = items@;
        proof {
            assert(mid[i as int] == mid.skip(i as int)[0]);
            assert(start[seen@] == start.skip(seen@)[0]);
            assert(start.take(seen@ + 1).drop_last() =~= start.take(seen@));
            assert(start.take(seen@ + 1).last() == start[seen@]);
        }
        if keep(&items[i]) {
            i = i + 1;
            proof {
                assert(items@.take(i as int) =~= mid.take(i - 1).push(mid[i - 1]));
                assert(items@.skip(i as int) =~= mid.skip(i - 1).skip(1));
                assert(start.skip(seen@ + 1) =~= start.skip(seen@).skip(1));
            }
        } else {
            let _dropped = items.remove(i);
            proof {
                assert(items@.take(i as int) =~= mid.take(i as int));
                assert(items@.skip(i as int) =~= mid.skip(i as int).skip(1));
                assert(start.skip(seen@ + 1) =~= start.skip(seen@).skip(1));
            }
        }
        proof {
            seen@ = seen@ + 1;
        }
    }
    proof {
        assert(items@.take(i as int) =~= items@);
        assert(start.take(seen@) =~= start);
    }
}

/// One more element is dropped exactly if it is the same as the element kept
/// last, and is appended otherwise.
pub proof fn lemma_dedup_next<T>(s: Seq<T>, same: spec_fn(T, T) -> bool, x: T)
    ensures
        deduped(Seq::<T>::empty(), same) == Seq::<T>::empty(),
        ({
            let kept = deduped(s, same);
            deduped(s.push(x), same) == (if kept.len() > 0 && same(kept.last(), x) {
                kept
            } else {
                kept.push(x)
            })
        }),
{
    assert(s.push(x).drop_last() =~= s);
}

/// Dropping repetitions keeps only elements that were there, starts with the
/// first one, and leaves no two neighbours that are the same.
pub proof fn lemma_dedup_keeps_elements<T>(s: Seq<T>, same: spec_fn(T, T) -> bool)
    ensures
        forall|i: int|
            0 <= i < deduped(s, same).len() ==> s.contains(#[trigger] deduped(s, same)[i]),
        forall|i: int|
            0 < i < deduped(s, same).len() ==> !same(
                deduped(s, same)[i - 1],
                #[trigger] deduped(s, same)[i],
            ),
        s.len() > 0 ==> deduped(s, same).len() > 0 && deduped(s, same)[0] == s[0],
        deduped(s, same).len() <= s.len(),
    decreases s.len(),
{
    if s.len() > 0 {
        let head = s.drop_last();
        let kept = deduped(head, same);
        lemma_dedup_keeps_elements(head, same);
        assert forall|i: int| 0 <= i < deduped(s, same).len() implies s.contains(
            #[trigger] deduped(s, same)[i],
        ) by {
            if i < kept.len() {
                assert(head.contains(kept[i]));
                let j = choose|j: int| 0 <= j < head.len() && head[j] == kept[i];
                assert(s[j] == kept[i]);
            } else {
                assert(s[s.len() - 1] == s.last());
            }
        }
        assert forall|i: int| 0 < i < deduped(s, same).len() implies !same(
            deduped(s, same)[i - 1],
            #[trigger] deduped(s, same)[i],
        ) by {
            if i < kept.len() {
                assert(!same(kept[i - 1], kept[i]));
            }
        }
        if head.len() > 0 {
            assert(head[0] == s[0]);
        }
    }
}

/// Of everything that is dropped as a repetition, one that is the same is kept.
pub proof fn lemma_dedup_represents<T>(s: Seq<T>, same: spec_fn(T, T) -> bool, i: int)
    requires
        forall|x: T| #[trigger] same(x, x),
        0 <= i < s.len(),
    ensures
        exists|k: int| 0 <= k < deduped(s, same).len() && same(#[trigger] deduped(s, same)[k], s[i]),
    decreases s.len(),
{
    let head = s.drop_last();
    let kept = deduped(head, same);
    let all = deduped(s, same);
    if i < s.len() - 1 {
        lemma_dedup_represents(head, same, i);
        let k = choose|k: int| 0 <= k < kept.len() && same(#[trigger] kept[k], head[i]);
        assert(all[k] == kept[k]);
    } else if kept.len() > 0 && same(kept.last(), s.last()) {
        assert(same(all[kept.len() - 1], s[i]));
    } else {
        assert(same(all[kept.len() as int], s[i]));
    }
}

/// A capped sequence is as long as the original but no longer than the limit,
/// and starts as the original does.
pub proof fn lemma_cap_keeps_the_start<T>(s: Seq<T>, limit: int)
    requires
        0 <= limit,
    ensures
        capped(s, limit).len() == (if s.len() < limit {
            s.len() as int
        } else {
            limit
        }),
        forall|i: int| 0 <= i < capped(s, limit).len() ==> #[trigger] capped(s, limit)[i] == s[i],
{
}

/// Dropping repetitions keeps a sequence in order.
pub proof fn lemma_dedup_in_order<T>(
    s: Seq<T>,
    lt: spec_fn(T, T) -> bool,
    same: spec_fn(T, T) -> bool,
)
    requires
        in_order(s, lt),
    ensures
        in_order(deduped(s, same), lt),
    decreases s.len(),
{
    if s.len() > 0 {
        let head = s.drop_last();
        let kept = deduped(head, same);
        assert forall|i: int, j: int| 0 <= i < j < head.len() implies !lt(
            #[trigger] head[j],
            #[trigger] head[i],
        ) by {
            assert(head[i] == s[i] && head[j] == s[j]);
        }
        lemma_dedup_in_order(head, lt, same);
        lemma_dedup_keeps_elements(head, same);
        assert forall|i: int, j: int| 0 <= i < j < deduped(s, same).len() implies !lt(
            #[trigger] deduped(s, same)[j],
            #[trigger] deduped(s, same)[i],
        ) by {
            assert(head.contains(kept[i]));
            let a = choose|a: int| 0 <= a < head.len() && head[a] == kept[i];
            assert(s[a] == kept[i]);
            if j < kept.len() {
                assert(!lt(kept[j], kept[i]));
            } else {
                assert(!lt(s[s.len() - 1], s[a]));
            }
        }
    }
}

/// A list that was sorted, freed of repetitions and capped holds only elements
/// that were there, in order, no two neighbours that are the same, and not more
/// than the limit. Of every element it holds one that is the same, unless there
/// were too many.
pub proof fn lemma_tidied<T>(
    s: Seq<T>,
    lt: spec_fn(T, T) -> bool,
    same: spec_fn(T, T) -> bool,
    limit: int,
)
    requires
        strict_weak_order(lt),
        forall|x: T| #[trigger] same(x, x),
        0 <= limit,
    ensures
        ({
            let t = capped(deduped(stable_sorted(s, lt), same), limit);
            &&& t.len() <= limit
            &&& t.len() <= s.len()
            &&& forall|k: int| 0 <= k < t.len() ==> s.contains(#[trigger] t[k])
            &&& forall|k: int| 0 < k < t.len() ==> !same(t[k - 1], #[trigger] t[k])
            &&& in_order(t, lt)
            &&& s.len() <= limit ==> forall|i: int|
                0 <= i < s.len() ==> exists|k: int|
                    0 <= k < t.len() && same(#[trigger] t[k], #[trigger] s[i])
        }),
{
    let sorted = stable_sorted(s, lt);
    let all = deduped(sorted, same);
    let t = capped(all, limit);
    lemma_dedup_keeps_elements(sorted, same);
    lemma_cap_keeps_the_start(all, limit);
    lemma_sort_in_order(s, lt);
    lemma_dedup_in_order(sorted, lt, same);
    lemma_sort_multiset(s, lt);
    broadcast use vstd::seq_lib::group_to_multiset_ensures;
    assert(sorted.to_multiset().len() == s.to_multiset().len());
    assert forall|k: int| 0 <= k < t.len() implies s.contains(#[trigger] t[k]) by {
        assert(sorted.contains(all[k]));
        lemma_sort_contains(s, lt, all[k]);
    }
    assert forall|k: int| 0 < k < t.len() implies !same(t[k - 1], #[trigger] t[k]) by {
        assert(!same(all[k - 1], all[k]));
    }
    assert forall|i: int, j: int| 0 <= i < j < t.len() implies !lt(
        #[trigger] t[j],
        #[trigger] t[i],
    ) by {
        assert(!lt(all[j], all[i]));
    }
    if s.len() <= limit {
        assert forall|i: int| 0 <= i < s.len() implies exists|k: int|
            0 <= k < t.len() && same(#[trigger] t[k], #[trigger] s[i]) by {
            assert(s.contains(s[i]));
            lemma_sort_contains(s, lt, s[i]);
            let j = choose|j: int| 0 <= j < sorted.len() && sorted[j] == s[i];
            lemma_dedup_represents(sorted, same, j);
            let k = choose|k: int| 0 <= k < all.len() && same(#[trigger] all[k], sorted[j]);
            assert(same(t[k], s[i]));
        }
    }
}

/// What [`lemma_tidied`] says, of a list that was first freed of the elements
/// that are not to be kept.
pub proof fn lemma_tidied_filter<T>(
    s: Seq<T>,
    kept: spec_fn(T) -> bool,
    lt: spec_fn(T, T) -> bool,
    same: spec_fn(T, T) -> bool,
    limit: int,
)
    requires
        strict_weak_order(lt),
        forall|x: T| #[trigger] same(x, x),
        0 <= limit,
    ensures
        ({
            let t = capped(deduped(stable_sorted(s.filter(kept), lt), same), limit);
            &&& t.len() <= limit
            &&& forall|k: int| 0 <= k < t.len() ==> s.contains(#[trigger] t[k]) && kept(t[k])
            &&& forall|k: int| 0 < k < t.len() ==> !same(t[k - 1], #[trigger] t[k])
            &&& in_order(t, lt)
            &&& s.len() <= limit ==> forall|i: int|
                0 <= i < s.len() && kept(#[trigger] s[i]) ==> exists|k: int|
                    0 <= k < t.len() && same(#[trigger] t[k], s[i])
        }),
{
    let sound = s.filter(kept);
    let t = capped(deduped(stable_sorted(sound, lt), same), limit);
    lemma_tidied(sound, lt, same, limit);
    broadcast use vstd::seq_lib::group_filter_ensures;
    assert forall|k: int| 0 <= k < t.len() implies s.contains(#[trigger] t[k]) && kept(t[k]) by {
        assert(sound.contains(t[k]));
        let j = choose|j: int| 0 <= j < sound.len() && sound[j] == t[k];
        assert(kept(sound[j]));
        s.lemma_filter_contains_rev(kept, t[k]);
    }
    if s.len() <= limit {
        assert forall|i: int| 0 <= i < s.len() && kept(#[trigger] s[i]) implies exists|k: int|
            0 <= k < t.len() && same(#[trigger] t[k], s[i]) by {
            assert(sound.contains(s[i]));
            let j = choose|j: int| 0 <= j < sound.len() && sound[j] == s[i];
            let k = choose|k: int| 0 <= k < t.len() && same(#[trigger] t[k], sound[j]);
            assert(same(t[k], s[i]));
        }
    }
}

} // verus!
