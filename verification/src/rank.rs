//! Putting items in order, items of equal rank in the order they came in.

use vstd::prelude::*;

verus! {

/// Items with an order of rank, in which different items may rank equally.
pub trait Ranked: View + Sized {
    /// Whether `a` ranks before `b`.
    spec fn before(a: Self::V, b: Self::V) -> bool;

    /// No two items rank before each other.
    proof fn before_is_strict(a: Self::V, b: Self::V)
        ensures
            Self::before(a, b) ==> !Self::before(b, a),
    ;

    /// Any third item ranks after the first of two or before the second.
    proof fn before_is_weak(a: Self::V, b: Self::V, c: Self::V)
        ensures
            Self::before(a, b) ==> Self::before(a, c) || Self::before(c, b),
    ;

    /// Whether this item ranks before `other`.
    fn goes_before(&self, other: &Self) -> (r: bool)
        ensures
            r == Self::before(self@, other@),
    ;
}

/// How many items at the beginning of `s` rank before `x`.
pub open spec fn leading<T: Ranked>(s: Seq<T::V>, x: T::V) -> nat
    decreases s.len(),
{
    if s.len() > 0 && T::before(s[0], x) {
        1 + leading::<T>(s.skip(1), x)
    } else {
        0
    }
}

/// The items of `s` from first rank to last; those of equal rank as they stand in `s`.
pub open spec fn arrange<T: Ranked>(s: Seq<T::V>) -> Seq<T::V>
    decreases s.len(),
{
    if s.len() == 0 {
        s
    } else {
        let rest = arrange::<T>(s.skip(1));
        rest.insert(leading::<T>(rest, s[0]) as int, s[0])
    }
}

/// Whether no item of `s` ranks before one that stands earlier.
pub open spec fn in_order<T: Ranked>(s: Seq<T::V>) -> bool {
    forall|i: int, j: int|
        0 <= i < j < s.len() ==> !T::before(#[trigger] s[j], #[trigger] s[i])
}

/// The items of equal rank with `x`.
pub open spec fn ties_with<T: Ranked>(x: T::V) -> spec_fn(T::V) -> bool {
    |y: T::V| !T::before(x, y) && !T::before(y, x)
}

/// The models of the items `v`.
pub open spec fn views<T: View>(v: Seq<T>) -> Seq<T::V> {
    v.map_values(|t: T| t@)
}

proof fn lemma_leading<T: Ranked>(s: Seq<T::V>, x: T::V)
    ensures
        leading::<T>(s, x) <= s.len(),
        forall|i: int| 0 <= i < leading::<T>(s, x) ==> T::before(#[trigger] s[i], x),
        leading::<T>(s, x) < s.len() ==> !T::before(s[leading::<T>(s, x) as int], x),
    decreases s.len(),
{
    if s.len() > 0 && T::before(s[0], x) {
        let rest = s.skip(1);
        lemma_leading::<T>(rest, x);
        assert forall|i: int| 0 <= i < leading::<T>(s, x) implies T::before(#[trigger] s[i], x) by {
            if i > 0 {
                assert(rest[i - 1] == s[i]);
            }
        }
    }
}

proof fn lemma_leading_is<T: Ranked>(s: Seq<T::V>, x: T::V, n: int)
    requires
        0 <= n <= s.len(),
        forall|i: int| 0 <= i < n ==> T::before(#[trigger] s[i], x),
        n == s.len() || !T::before(s[n], x),
    ensures
        leading::<T>(s, x) == n,
    decreases s.len(),
{
    if n > 0 {
        let rest = s.skip(1);
        assert forall|i: int| 0 <= i < n - 1 implies T::before(#[trigger] rest[i], x) by {
            assert(rest[i] == s[i + 1]);
        }
        lemma_leading_is::<T>(rest, x, n - 1);
    }
}

/// An arrangement holds the same items as often as they came.
pub proof fn arrangement_keeps_items<T: Ranked>(s: Seq<T::V>)
    ensures
        arrange::<T>(s).to_multiset() == s.to_multiset(),
        arrange::<T>(s).len() == s.len(),
    decreases s.len(),
{
    broadcast use vstd::seq_lib::group_to_multiset_ensures;

    if s.len() > 0 {
        let rest = arrange::<T>(s.skip(1));
        arrangement_keeps_items::<T>(s.skip(1));
        lemma_leading::<T>(rest, s[0]);
        let n = leading::<T>(rest, s[0]) as int;
        vstd::seq_lib::to_multiset_insert(rest, n, s[0]);
        vstd::seq_lib::to_multiset_insert(s.skip(1), 0, s[0]);
        assert(s.skip(1).insert(0, s[0]) == s);
    }
}

/// Every item of an arrangement came in.
pub proof fn lemma_arranged_came_in<T: Ranked>(s: Seq<T::V>, i: int)
    requires
        0 <= i < arrange::<T>(s).len(),
    ensures
        s.contains(arrange::<T>(s)[i]),
{
    broadcast use vstd::seq_lib::group_to_multiset_ensures;

    arrangement_keeps_items::<T>(s);
    let x = arrange::<T>(s)[i];
    assert(arrange::<T>(s).contains(x));
    assert(s.to_multiset().count(x) > 0);
}

/// In an arrangement no item ranks before one that stands earlier.
pub proof fn arrangement_is_in_order<T: Ranked>(s: Seq<T::V>)
    ensures
        in_order::<T>(arrange::<T>(s)),
    decreases s.len(),
{
    if s.len() > 0 {
        let x = s[0];
        let rest = arrange::<T>(s.skip(1));
        arrangement_is_in_order::<T>(s.skip(1));
        lemma_leading::<T>(rest, x);
        let n = leading::<T>(rest, x) as int;
        let out = rest.insert(n, x);
        assert forall|i: int, j: int| 0 <= i < j < out.len() implies !T::before(
            #[trigger] out[j],
            #[trigger] out[i],
        ) by {
            if j < n {
                assert(out[j] == rest[j] && out[i] == rest[i]);
            } else if j == n {
                T::before_is_strict(rest[i], x);
            } else if i == n {
                // `rest[n]` does not rank before `x`, and nothing after it ranks before it
                let y = rest[j - 1];
                if n < j - 1 {
                    assert(!T::before(y, rest[n]));
                    T::before_is_weak(y, x, rest[n]);
                }
            } else if i < n {
                assert(out[j] == rest[j - 1] && out[i] == rest[i]);
            } else {
                assert(out[j] == rest[j - 1] && out[i] == rest[i - 1]);
            }
        }
    }
}

/// Items of equal rank stand in an arrangement as they came.
pub proof fn arrangement_is_stable<T: Ranked>(s: Seq<T::V>, x: T::V)
    ensures
        arrange::<T>(s).filter(ties_with::<T>(x)) == s.filter(ties_with::<T>(x)),
    decreases s.len(),
{
    if s.len() > 0 {
        let p = ties_with::<T>(x);
        let first = s[0];
        let rest = arrange::<T>(s.skip(1));
        arrangement_is_stable::<T>(s.skip(1), x);
        arrangement_is_in_order::<T>(s.skip(1));
        lemma_leading::<T>(rest, first);
        let n = leading::<T>(rest, first) as int;
        let head = rest.take(n);
        let tail = rest.skip(n);
        let one = seq![first];
        assert(rest == head + tail);
        assert(rest.insert(n, first) == head + (one + tail));
        assert(s == one + s.skip(1));
        Seq::filter_distributes_over_add(one, s.skip(1), p);
        Seq::filter_distributes_over_add(head, one + tail, p);
        Seq::filter_distributes_over_add(one, tail, p);
        Seq::filter_distributes_over_add(head, tail, p);
        lemma_filter_one(first, p);
        if p(first) {
            assert forall|i: int| 0 <= i < head.len() implies !p(#[trigger] head[i]) by {
                assert(head[i] == rest[i]);
                T::before_is_weak(rest[i], first, x);
            }
            lemma_filter_none(head, p);
            assert(head.filter(p) == Seq::<T::V>::empty());
            assert(arrange::<T>(s).filter(p) == one + tail.filter(p));
            assert(rest.filter(p) == tail.filter(p));
        } else {
            assert(one.filter(p) + tail.filter(p) == tail.filter(p));
            assert(one.filter(p) + s.skip(1).filter(p) == s.skip(1).filter(p));
        }
    }
}

proof fn lemma_filter_one<V>(x: V, p: spec_fn(V) -> bool)
    ensures
        seq![x].filter(p) == (if p(x) {
            seq![x]
        } else {
            Seq::<V>::empty()
        }),
{
    reveal_with_fuel(Seq::filter, 2);
    assert(seq![x].drop_last() == Seq::<V>::empty());
    assert(Seq::<V>::empty().push(x) == seq![x]);
}

proof fn lemma_filter_none<V>(s: Seq<V>, p: spec_fn(V) -> bool)
    requires
        forall|i: int| 0 <= i < s.len() ==> !p(#[trigger] s[i]),
    ensures
        s.filter(p) == Seq::<V>::empty(),
    decreases s.len(),
{
    reveal(Seq::filter);
    if s.len() > 0 {
        assert forall|i: int| 0 <= i < s.drop_last().len() implies !p(
            #[trigger] s.drop_last()[i],
        ) by {
            assert(s.drop_last()[i] == s[i]);
        }
        lemma_filter_none(s.drop_last(), p);
        assert(!p(s[s.len() - 1]));
    }
}

/// `items` from first rank to last; those of equal rank as they came.
pub fn arranged<T: Ranked>(items: Vec<T>) -> (r: Vec<T>)
    ensures
        views(r@) == arrange::<T>(views(items@)),
        r@.len() == items@.len(),
{
    let mut items: Vec<T> = items;
    let ghost all = views(items@);
    let mut out: Vec<T> = Vec::new();
    assert(all.skip(all.len() as int) == views(out@));
    while items.len() > 0
        invariant
            items@.len() <= all.len(),
            views(items@) == all.take(items@.len() as int),
            views(out@) == arrange::<T>(all.skip(items@.len() as int)),
            out@.len() + items@.len() == all.len(),
        decreases items@.len(),
    {
        let ghost len = items@.len() as int;
        let ghost before = items@;
        let item: T = items.pop().unwrap();
        assert(item@ == views(before)[len - 1]);
        assert(views(items@) == all.take(len - 1));
        let mut n: usize = 0;
        while n < out.len() && out[n].goes_before(&item)
            invariant
                n <= out@.len(),
                forall|i: int| 0 <= i < n ==> T::before(#[trigger] views(out@)[i], item@),
            decreases out.len() - n,
        {
            assert(views(out@)[n as int] == out@[n as int]@);
            n = n + 1;
        }
        let ghost placed = views(out@);
        assert(n < out@.len() ==> placed[n as int] == out@[n as int]@);
        out.insert(n, item);
        proof {
            lemma_leading_is::<T>(placed, item@, n as int);
            assert(views(out@) == placed.insert(n as int, item@));
            let now = all.skip(len - 1);
            assert(now.skip(1) == all.skip(len));
            assert(now[0] == item@);
        }
    }
    assert(all.skip(0) == all);
    out
}

} // verus!
