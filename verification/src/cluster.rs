//! Taking together the items that go by one name.

use vstd::prelude::*;

verus! {

/// The items that go by `name`.
pub open spec fn goes_by<V>(name_of: spec_fn(V) -> Seq<char>, name: Seq<char>) -> spec_fn(
    V,
) -> bool {
    |v: V| name_of(v) == name
}

/// The items of `s` that go by `name`, as they stand in `s`.
pub open spec fn members<V>(
    s: Seq<V>,
    name_of: spec_fn(V) -> Seq<char>,
    name: Seq<char>,
) -> Seq<V> {
    s.filter(goes_by(name_of, name))
}

/// The names that occur in `s`, each once, as they first occur.
pub open spec fn names_in<V>(s: Seq<V>, name_of: spec_fn(V) -> Seq<char>) -> Seq<Seq<char>>
    decreases s.len(),
{
    if s.len() == 0 {
        seq![]
    } else {
        let before = names_in(s.drop_last(), name_of);
        if before.contains(name_of(s.last())) {
            before
        } else {
            before.push(name_of(s.last()))
        }
    }
}

/// For each name in `s`, as it first occurs, what `make` makes of the items that go
/// by it.
pub open spec fn clusters<V, G>(
    s: Seq<V>,
    name_of: spec_fn(V) -> Seq<char>,
    make: spec_fn(Seq<V>, Seq<char>) -> G,
) -> Seq<G> {
    names_in(s, name_of).map_values(
        |name: Seq<char>| make(members(s, name_of, name), name),
    )
}

/// The names in `s` stand once each, are the names of its items, and no others.
pub proof fn names_are_those_of_items<V>(s: Seq<V>, name_of: spec_fn(V) -> Seq<char>)
    ensures
        names_in(s, name_of).no_duplicates(),
        forall|i: int|
            0 <= i < s.len() ==> names_in(s, name_of).contains(name_of(#[trigger] s[i])),
        forall|k: int|
            0 <= k < names_in(s, name_of).len() ==> members(
                s,
                name_of,
                #[trigger] names_in(s, name_of)[k],
            ).len() > 0,
    decreases s.len(),
{
    if s.len() > 0 {
        let rest = s.drop_last();
        let before = names_in(rest, name_of);
        let now = names_in(s, name_of);
        let name = name_of(s.last());
        names_are_those_of_items(rest, name_of);
        assert(s == rest.push(s.last()));
        assert forall|i: int| 0 <= i < s.len() implies now.contains(name_of(#[trigger] s[i])) by {
            if i < rest.len() {
                assert(rest[i] == s[i]);
                let k = choose|k: int| 0 <= k < before.len() && before[k] == name_of(rest[i]);
                assert(now[k] == name_of(rest[i]));
            } else if !before.contains(name) {
                assert(now[now.len() - 1] == name);
            }
        }
        assert forall|k: int| 0 <= k < now.len() implies members(
            s,
            name_of,
            #[trigger] now[k],
        ).len() > 0 by {
            rest.lemma_filter_push(s.last(), goes_by(name_of, now[k]));
            if k < before.len() {
                assert(before[k] == now[k]);
            }
        }
    }
}

/// One more item joins the cluster of its name, or makes a cluster of its own.
pub proof fn lemma_one_more<V, G>(
    s: Seq<V>,
    name_of: spec_fn(V) -> Seq<char>,
    make: spec_fn(Seq<V>, Seq<char>) -> G,
    v: V,
)
    ensures
        ({
            let names = names_in(s, name_of);
            let before = clusters(s, name_of, make);
            let now = clusters(s.push(v), name_of, make);
            &&& names.len() == before.len()
            &&& forall|k: int|
                0 <= k < before.len() ==> #[trigger] now[k] == (if names[k] == name_of(v) {
                    make(members(s, name_of, names[k]).push(v), names[k])
                } else {
                    before[k]
                })
            &&& forall|k: int|
                0 <= k < before.len() ==> #[trigger] before[k] == make(
                    members(s, name_of, names[k]),
                    names[k],
                )
            &&& if names.contains(name_of(v)) {
                now.len() == before.len()
            } else {
                now == before.push(make(seq![v], name_of(v)))
            }
        }),
{
    let next = s.push(v);
    let before = clusters(s, name_of, make);
    let now = clusters(next, name_of, make);
    let names = names_in(s, name_of);
    let name = name_of(v);
    names_are_those_of_items(s, name_of);
    assert(next.drop_last() == s);
    assert forall|k: int| 0 <= k < before.len() implies #[trigger] now[k] == (if names[k] == name {
        make(members(s, name_of, names[k]).push(v), names[k])
    } else {
        before[k]
    }) by {
        assert(names_in(next, name_of)[k] == names[k]);
        s.lemma_filter_push(v, goes_by(name_of, names[k]));
    }
    if !names.contains(name) {
        s.lemma_filter_push(v, goes_by(name_of, name));
        assert forall|i: int| 0 <= i < s.len() implies !goes_by(name_of, name)(
            #[trigger] s[i],
        ) by {
            assert(names.contains(name_of(s[i])));
        }
        s.lemma_all_neg_filter_empty(goes_by(name_of, name));
        assert(members(next, name_of, name) == seq![v]);
        assert(names_in(next, name_of) == names.push(name));
        assert forall|k: int| 0 <= k < before.len() implies now[k] == before[k] by {
            assert(names.contains(names[k]));
        }
        assert(now == before.push(make(seq![v], name)));
    }
}

/// What the items that go by each name weigh, over all the names, is what all items weigh.
pub proof fn weights_add_up<V>(s: Seq<V>, name_of: spec_fn(V) -> Seq<char>, f: spec_fn(V) -> nat)
    ensures
        sum(
            names_in(s, name_of),
            |name: Seq<char>| sum(members(s, name_of, name), f),
        ) == sum(s, f),
    decreases s.len(),
{
    let now = |name: Seq<char>| sum(members(s, name_of, name), f);
    if s.len() > 0 {
        let rest = s.drop_last();
        let before = |name: Seq<char>| sum(members(rest, name_of, name), f);
        let v = s.last();
        let name = name_of(v);
        let names = names_in(rest, name_of);
        weights_add_up(rest, name_of, f);
        names_are_those_of_items(rest, name_of);
        assert(s == rest.push(v));
        assert forall|n: Seq<char>| #[trigger] now(n) == before(n) + (if n == name {
            f(v)
        } else {
            0nat
        }) by {
            let was = members(rest, name_of, n);
            rest.lemma_filter_push(v, goes_by(name_of, n));
            assert(was.push(v).drop_last() == was);
        }
        lemma_sum_with_more(names, now, before, name, f(v));
        if !names.contains(name) {
            assert forall|i: int| 0 <= i < rest.len() implies !goes_by(name_of, name)(
                #[trigger] rest[i],
            ) by {
                assert(names.contains(name_of(rest[i])));
            }
            rest.lemma_all_neg_filter_empty(goes_by(name_of, name));
            assert(names_in(s, name_of).drop_last() == names);
        }
    }
}

/// A weight that comes out of each cluster adds up over the clusters to what all items
/// weigh.
pub proof fn clusters_add_up<V, G>(
    s: Seq<V>,
    name_of: spec_fn(V) -> Seq<char>,
    make: spec_fn(Seq<V>, Seq<char>) -> G,
    f: spec_fn(V) -> nat,
    weight: spec_fn(G) -> nat,
)
    requires
        forall|ms: Seq<V>, name: Seq<char>| weight(#[trigger] make(ms, name)) == sum(ms, f),
    ensures
        sum(clusters(s, name_of, make), weight) == sum(s, f),
{
    let names = names_in(s, name_of);
    let by_name = |name: Seq<char>| sum(members(s, name_of, name), f);
    weights_add_up(s, name_of, f);
    lemma_sum_mapped(
        names,
        |name: Seq<char>| make(members(s, name_of, name), name),
        weight,
        by_name,
    );
}

/// The sum over what `make` makes of the items of `s` is that of the items.
proof fn lemma_sum_mapped<A, B>(
    s: Seq<A>,
    make: spec_fn(A) -> B,
    f: spec_fn(B) -> nat,
    g: spec_fn(A) -> nat,
)
    requires
        forall|a: A| f(#[trigger] make(a)) == g(a),
    ensures
        sum(s.map_values(make), f) == sum(s, g),
    decreases s.len(),
{
    if s.len() > 0 {
        lemma_sum_mapped(s.drop_last(), make, f, g);
        assert(s.map_values(make).drop_last() == s.drop_last().map_values(make));
        assert(f(make(s.last())) == g(s.last()));
    }
}

/// Items that weigh nothing each weigh nothing together.
pub proof fn lemma_sum_of_nothing<V>(s: Seq<V>, f: spec_fn(V) -> nat)
    requires
        forall|i: int| 0 <= i < s.len() ==> f(#[trigger] s[i]) == 0,
    ensures
        sum(s, f) == 0,
    decreases s.len(),
{
    if s.len() > 0 {
        assert forall|i: int| 0 <= i < s.drop_last().len() implies f(
            #[trigger] s.drop_last()[i],
        ) == 0 by {
            assert(s.drop_last()[i] == s[i]);
        }
        lemma_sum_of_nothing(s.drop_last(), f);
        assert(f(s[s.len() - 1]) == 0);
    }
}

/// What two lists weigh together is what each of them weighs, added.
pub proof fn lemma_sum_together<V>(a: Seq<V>, b: Seq<V>, f: spec_fn(V) -> nat)
    ensures
        sum(a + b, f) == sum(a, f) + sum(b, f),
    decreases b.len(),
{
    if b.len() == 0 {
        assert(a + b == a);
    } else {
        lemma_sum_together(a, b.drop_last(), f);
        assert((a + b).drop_last() == a + b.drop_last());
    }
}

/// Every item weighs one.
pub open spec fn one<V>() -> spec_fn(V) -> nat {
    |v: V| 1nat
}

/// Items that weigh one each weigh as much together as there are.
pub proof fn lemma_sum_of_ones<V>(s: Seq<V>)
    ensures
        sum(s, one()) == s.len(),
    decreases s.len(),
{
    if s.len() > 0 {
        lemma_sum_of_ones(s.drop_last());
    }
}

/// Every member of a cluster is one of the items, and goes by its name.
pub proof fn lemma_members<V>(s: Seq<V>, name_of: spec_fn(V) -> Seq<char>, name: Seq<char>, i: int)
    requires
        0 <= i < members(s, name_of, name).len(),
    ensures
        s.contains(members(s, name_of, name)[i]),
        name_of(members(s, name_of, name)[i]) == name,
{
    broadcast use vstd::seq_lib::group_filter_ensures;

    let p = goes_by(name_of, name);
    s.lemma_filter_contains_rev(p, members(s, name_of, name)[i]);
    assert(p(s.filter(p)[i]));
}

/// Two functions that differ by `more`, and at one item only, have sums that differ by
/// as much, if the item occurs.
proof fn lemma_sum_with_more(
    s: Seq<Seq<char>>,
    f: spec_fn(Seq<char>) -> nat,
    g: spec_fn(Seq<char>) -> nat,
    at: Seq<char>,
    more: nat,
)
    requires
        s.no_duplicates(),
        forall|n: Seq<char>| #[trigger]
            f(n) == g(n) + (if n == at {
                more
            } else {
                0nat
            }),
    ensures
        sum(s, f) == sum(s, g) + (if s.contains(at) {
            more
        } else {
            0nat
        }),
    decreases s.len(),
{
    if s.len() > 0 {
        let rest = s.drop_last();
        lemma_sum_with_more(rest, f, g, at, more);
        assert(f(s.last()) == g(s.last()) + (if s.last() == at {
            more
        } else {
            0nat
        }));
        if s.last() == at {
            assert(s[s.len() - 1] == at);
            assert(!rest.contains(at)) by {
                if rest.contains(at) {
                    let k = choose|k: int| 0 <= k < rest.len() && rest[k] == at;
                    assert(s[k] == s[s.len() - 1]);
                }
            }
        } else if s.contains(at) {
            let k = choose|k: int| 0 <= k < s.len() && s[k] == at;
            assert(rest[k] == at);
        } else if rest.contains(at) {
            let k = choose|k: int| 0 <= k < rest.len() && rest[k] == at;
            assert(s[k] == at);
        }
    }
}

/// The sum of `f` over `s`.
pub open spec fn sum<V>(s: Seq<V>, f: spec_fn(V) -> nat) -> nat
    decreases s.len(),
{
    if s.len() == 0 {
        0
    } else {
        sum(s.drop_last(), f) + f(s.last())
    }
}

/// The first `n` items of `s`, or all of them.
pub open spec fn first<V>(s: Seq<V>, n: int) -> Seq<V> {
    if s.len() > n {
        s.take(n)
    } else {
        s
    }
}

} // verus!
