//! A table from texts to values, looked through entry by entry.

use crate::text::same_str;
use vstd::prelude::*;

verus! {

/// Values by text, no text twice.
#[derive(Debug)]
pub struct TextMap<V> {
    entries: Vec<(String, V)>,
}

/// What a list of entries holds, the last entry of a text counting.
spec fn held<V>(entries: Seq<(String, V)>) -> Map<Seq<char>, V>
    decreases entries.len(),
{
    if entries.len() == 0 {
        Map::empty()
    } else {
        held(entries.drop_last()).insert(entries.last().0@, entries.last().1)
    }
}

/// Whether no text stands twice in `entries`.
spec fn distinct<V>(entries: Seq<(String, V)>) -> bool {
    forall|i: int, j: int|
        0 <= i < j < entries.len() ==> (#[trigger] entries[i]).0@ != (#[trigger] entries[j]).0@
}

proof fn lemma_held<V>(entries: Seq<(String, V)>)
    requires
        distinct(entries),
    ensures
        forall|i: int|
            0 <= i < entries.len() ==> #[trigger] held(entries).contains_pair(
                entries[i].0@,
                entries[i].1,
            ),
        forall|k: Seq<char>| #[trigger]
            held(entries).contains_key(k) ==> exists|i: int|
                0 <= i < entries.len() && (#[trigger] entries[i]).0@ == k,
        held(entries).dom().finite(),
        held(entries).len() == entries.len(),
    decreases entries.len(),
{
    if entries.len() > 0 {
        let rest = entries.drop_last();
        let last = entries.last();
        lemma_held(rest);
        assert forall|i: int| 0 <= i < entries.len() implies #[trigger] held(
            entries,
        ).contains_pair(entries[i].0@, entries[i].1) by {
            if i < rest.len() {
                assert(rest[i] == entries[i]);
                assert(held(rest).contains_pair(rest[i].0@, rest[i].1));
                assert(entries[i].0@ != entries[entries.len() - 1].0@);
            }
        }
        assert forall|k: Seq<char>| #[trigger] held(entries).contains_key(k) implies exists|i: int|
            0 <= i < entries.len() && (#[trigger] entries[i]).0@ == k by {
            if k == last.0@ {
                assert(entries[entries.len() - 1].0@ == k);
            } else {
                assert(held(rest).contains_key(k));
                let i = choose|i: int| 0 <= i < rest.len() && (#[trigger] rest[i]).0@ == k;
                assert(entries[i].0@ == k);
            }
        }
        if held(rest).contains_key(last.0@) {
            let i = choose|i: int| 0 <= i < rest.len() && (#[trigger] rest[i]).0@ == last.0@;
            assert(entries[i].0@ == entries[entries.len() - 1].0@);
        }
    }
}

/// Two lists of entries with the same texts and values hold the same.
proof fn lemma_held_same<V>(a: Seq<(String, V)>, b: Map<Seq<char>, V>)
    requires
        distinct(a),
        forall|i: int| 0 <= i < a.len() ==> b.contains_pair((#[trigger] a[i]).0@, a[i].1),
        forall|k: Seq<char>| #[trigger]
            b.contains_key(k) ==> exists|i: int| 0 <= i < a.len() && (#[trigger] a[i]).0@ == k,
    ensures
        held(a) == b,
{
    lemma_held(a);
    assert forall|k: Seq<char>| held(a).contains_key(k) == b.contains_key(k) && (held(
        a,
    ).contains_key(k) ==> held(a)[k] == b[k]) by {
        if held(a).contains_key(k) {
            let i = choose|i: int| 0 <= i < a.len() && (#[trigger] a[i]).0@ == k;
            assert(b.contains_pair(a[i].0@, a[i].1));
            assert(held(a).contains_pair(a[i].0@, a[i].1));
        }
        if b.contains_key(k) {
            let i = choose|i: int| 0 <= i < a.len() && (#[trigger] a[i]).0@ == k;
            assert(held(a).contains_pair(a[i].0@, a[i].1));
        }
    }
    assert(held(a) =~= b);
}

impl<V> View for TextMap<V> {
    type V = Map<Seq<char>, V>;

    closed spec fn view(&self) -> Map<Seq<char>, V> {
        held(self.entries@)
    }
}

impl<V> TextMap<V> {
    #[verifier::type_invariant]
    spec fn no_text_twice(self) -> bool {
        distinct(self.entries@)
    }

    /// The texts of the table, each once.
    pub closed spec fn keys(self) -> Seq<Seq<char>> {
        self.entries@.map_values(|e: (String, V)| e.0@)
    }

    /// An empty table.
    pub fn new() -> (r: Self)
        ensures
            r@ == Map::<Seq<char>, V>::empty(),
    {
        TextMap { entries: Vec::new() }
    }

    /// How many texts have a value.
    pub fn len(&self) -> (r: usize)
        ensures
            self@.dom().finite(),
            r == self@.len(),
            r == self.keys().len(),
            forall|k: Seq<char>| #[trigger]
                self@.contains_key(k) ==> exists|i: int|
                    0 <= i < self.keys().len() && #[trigger] self.keys()[i] == k,
    {
        proof {
            use_type_invariant(self);
            lemma_held(self.entries@);
            assert forall|k: Seq<char>| #[trigger] self@.contains_key(k) implies exists|i: int|
                0 <= i < self.keys().len() && #[trigger] self.keys()[i] == k by {
                let i = choose|i: int|
                    0 <= i < self.entries@.len() && (#[trigger] self.entries@[i]).0@ == k;
                assert(self.keys()[i] == k);
            }
        }
        self.entries.len()
    }

    /// The text and the value of the entry at `i`.
    pub fn entry(&self, i: usize) -> (r: (&str, &V))
        requires
            i < self.keys().len(),
        ensures
            r.0@ == self.keys()[i as int],
            self@.contains_pair(r.0@, *r.1),
    {
        proof {
            use_type_invariant(self);
            lemma_held(self.entries@);
            assert(held(self.entries@).contains_pair(
                self.entries@[i as int].0@,
                self.entries@[i as int].1,
            ));
        }
        (self.entries[i].0.as_str(), &self.entries[i].1)
    }

    /// Where `key` stands among the entries.
    fn position(&self, key: &str) -> (r: Option<usize>)
        ensures
            r is Some <==> self@.contains_key(key@),
            r is Some ==> r->0 < self.entries@.len() && self.entries@[r->0 as int].0@ == key@
                && self@.contains_pair(key@, self.entries@[r->0 as int].1),
    {
        proof {
            use_type_invariant(self);
            lemma_held(self.entries@);
        }
        let mut i: usize = 0;
        while i < self.entries.len()
            invariant
                i <= self.entries@.len(),
                forall|j: int| 0 <= j < i ==> (#[trigger] self.entries@[j]).0@ != key@,
            decreases self.entries.len() - i,
        {
            if same_str(self.entries[i].0.as_str(), key) {
                proof {
                    use_type_invariant(self);
                    lemma_held(self.entries@);
                    assert(held(self.entries@).contains_pair(
                        self.entries@[i as int].0@,
                        self.entries@[i as int].1,
                    ));
                }
                return Some(i);
            }
            i = i + 1;
        }
        None
    }

    /// The value of `key`.
    pub fn get(&self, key: &str) -> (r: Option<&V>)
        ensures
            r == (if self@.contains_key(key@) {
                Some(&self@[key@])
            } else {
                None
            }),
    {
        match self.position(key) {
            Some(i) => Some(&self.entries[i].1),
            None => None,
        }
    }

    /// Gives `key` the value `value`, in place of any that it had.
    pub fn insert(&mut self, key: String, value: V)
        ensures
            final(self)@ == old(self)@.insert(key@, value),
    {
        let found: Option<usize> = self.position(key.as_str());
        let ghost before = self.entries@;
        let ghost was = self@;
        proof {
            use_type_invariant(&*self);
            lemma_held(before);
        }
        let mut entries: Vec<(String, V)> = Vec::new();
        std::mem::swap(&mut entries, &mut self.entries);
        match found {
            Some(i) => {
                let ghost name = key@;
                entries.set(i, (key, value));
                proof {
                    let now = entries@;
                    assert forall|a: int, b: int| 0 <= a < b < now.len() implies (
                    #[trigger] now[a]).0@ != (#[trigger] now[b]).0@ by {
                        assert(before[a].0@ != before[b].0@);
                    }
                    let then = was.insert(name, value);
                    assert forall|a: int| 0 <= a < now.len() implies then.contains_pair(
                        (#[trigger] now[a]).0@,
                        now[a].1,
                    ) by {
                        if a != i {
                            assert(held(before).contains_pair(before[a].0@, before[a].1));
                            if a < i {
                                assert(before[a].0@ != before[i as int].0@);
                            } else {
                                assert(before[i as int].0@ != before[a].0@);
                            }
                        }
                    }
                    assert forall|k: Seq<char>| #[trigger] then.contains_key(k) implies exists|a: int|
                        0 <= a < now.len() && (#[trigger] now[a]).0@ == k by {
                        if k == name {
                            assert(now[i as int].0@ == k);
                        } else {
                            assert(held(before).contains_key(k));
                            let a = choose|a: int|
                                0 <= a < before.len() && (#[trigger] before[a]).0@ == k;
                            assert(now[a].0@ == k);
                        }
                    }
                    lemma_held_same(now, then);
                }
            },
            None => {
                let ghost name = key@;
                entries.push((key, value));
                proof {
                    let now = entries@;
                    assert(now.drop_last() == before);
                    assert forall|a: int, b: int| 0 <= a < b < now.len() implies (
                    #[trigger] now[a]).0@ != (#[trigger] now[b]).0@ by {
                        if b < before.len() {
                            assert(before[a].0@ != before[b].0@);
                        } else {
                            assert(held(before).contains_pair(before[a].0@, before[a].1));
                        }
                    }
                }
            },
        }
        self.entries = entries;
    }
}

/// Two tables are equal when they hold the same values for the same texts, whatever the
/// order in which these came in.
impl PartialEq for TextMap<u64> {
    fn eq(&self, other: &Self) -> (r: bool) {
        let n: usize = self.len();
        if n != other.len() {
            return false;
        }
        let mut i: usize = 0;
        while i < n
            invariant
                i <= n == self.keys().len(),
                forall|k: int|
                    0 <= k < i ==> other@.contains_key(#[trigger] self.keys()[k])
                        && self@.contains_key(self.keys()[k]) && other@[self.keys()[k]]
                        == self@[self.keys()[k]],
            decreases n - i,
        {
            let (key, value) = self.entry(i);
            match other.get(key) {
                Some(theirs) => {
                    if *theirs != *value {
                        return false;
                    }
                },
                None => {
                    return false;
                },
            }
            i = i + 1;
        }
        proof {
            let mine = self@.dom();
            let theirs = other@.dom();
            assert forall|k: Seq<char>| #[trigger] self@.contains_key(k) implies other@.contains_key(
                k,
            ) && other@[k] == self@[k] by {
                let j = choose|j: int| 0 <= j < self.keys().len() && #[trigger] self.keys()[j] == k;
                assert(self.keys()[j] == k);
            }
            vstd::set_lib::lemma_subset_equality(mine, theirs);
            assert(self@ == other@);
        }
        true
    }
}

impl vstd::std_specs::cmp::PartialEqSpecImpl for TextMap<u64> {
    open spec fn obeys_eq_spec() -> bool {
        true
    }

    open spec fn eq_spec(&self, other: &Self) -> bool {
        self@ == other@
    }
}

} // verus!
