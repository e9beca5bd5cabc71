//! Association lists: sequences of entries that are read as finite maps.
//!
//! The relay keeps its tables in vectors.  An entry carries a key and a
//! value; as long as no key occurs twice, the vector denotes a map, and the
//! usual vector edits (push, remove, update) are the usual map edits
//! (insert, remove).  The lemmas of this module make that precise once, for
//! every table of the crate.

use vstd::prelude::*;

verus! {

/// An entry of a table: something with a key and a value.
pub trait Keyed {
    type Key;

    type Value;

    spec fn key(&self) -> Self::Key;

    spec fn value(&self) -> Self::Value;
}

/// Entry `i` of `s` is stored under key `k`.
pub open spec fn at<A: Keyed>(s: Seq<A>, k: A::Key, i: int) -> bool {
    0 <= i < s.len() && s[i].key() == k
}

/// Some entry of `s` is stored under key `k`.
pub open spec fn has_key<A: Keyed>(s: Seq<A>, k: A::Key) -> bool {
    exists|i: int| at(s, k, i)
}

/// No key occurs twice in `s`.
pub open spec fn distinct_keys<A: Keyed>(s: Seq<A>) -> bool {
    forall|i: int, j: int| 0 <= i < j < s.len() ==> s[i].key() != s[j].key()
}

/// The map that `s` denotes: each key that occurs, with the value stored
/// under it.
pub open spec fn as_map<A: Keyed>(s: Seq<A>) -> Map<A::Key, A::Value> {
    Map::new(|k: A::Key| has_key(s, k), |k: A::Key| s[choose|i: int| at(s, k, i)].value())
}

/// With distinct keys, every entry is found in the map under its own key.
pub proof fn lemma_entry<A: Keyed>(s: Seq<A>, i: int)
    requires
        distinct_keys(s),
        0 <= i < s.len(),
    ensures
        as_map(s).contains_key(s[i].key()),
        as_map(s)[s[i].key()] == s[i].value(),
{
    let k = s[i].key();
    assert(at(s, k, i));
    let j = choose|j: int| at(s, k, j);
    assert(at(s, k, j));
    assert(i == j);
}

/// The empty table denotes the empty map.
pub proof fn lemma_empty<A: Keyed>()
    ensures
        distinct_keys(Seq::<A>::empty()),
        as_map(Seq::<A>::empty()) == Map::<A::Key, A::Value>::empty(),
{
    assert forall|k: A::Key| !has_key(Seq::<A>::empty(), k) by {
        if has_key(Seq::<A>::empty(), k) {
            let i = choose|i: int| at(Seq::<A>::empty(), k, i);
            assert(at(Seq::<A>::empty(), k, i));
        }
    }
    assert(as_map(Seq::<A>::empty()) =~= Map::<A::Key, A::Value>::empty());
}

/// Pushing an entry with a fresh key inserts it into the map.
pub proof fn lemma_push<A: Keyed>(s: Seq<A>, a: A)
    requires
        distinct_keys(s),
        !has_key(s, a.key()),
    ensures
        distinct_keys(s.push(a)),
        as_map(s.push(a)) == as_map(s).insert(a.key(), a.value()),
{
    let t = s.push(a);
    assert forall|i: int, j: int| 0 <= i < j < t.len() implies t[i].key() != t[j].key() by {
        if j == s.len() {
            assert(!at(s, a.key(), i));
        }
    }
    assert forall|k: A::Key| has_key(t, k) <==> (k == a.key() || has_key(s, k)) by {
        if has_key(t, k) {
            let i = choose|i: int| at(t, k, i);
            assert(at(t, k, i));
            if i < s.len() {
                assert(at(s, k, i));
            }
        }
        if k == a.key() {
            assert(at(t, k, s.len() as int));
        }
        if has_key(s, k) {
            let i = choose|i: int| at(s, k, i);
            assert(at(s, k, i));
            assert(at(t, k, i));
        }
    }
    assert forall|k: A::Key| has_key(t, k) implies as_map(t)[k] == as_map(s).insert(
        a.key(),
        a.value(),
    )[k] by {
        let i = choose|i: int| at(t, k, i);
        assert(at(t, k, i));
        lemma_entry(t, i);
        if i < s.len() {
            assert(at(s, k, i));
            lemma_entry(s, i);
        }
    }
    assert(as_map(t) =~= as_map(s).insert(a.key(), a.value()));
}

/// Removing an entry removes its key from the map.
pub proof fn lemma_remove<A: Keyed>(s: Seq<A>, i: int)
    requires
        distinct_keys(s),
        0 <= i < s.len(),
    ensures
        distinct_keys(s.remove(i)),
        as_map(s.remove(i)) == as_map(s).remove(s[i].key()),
{
    let t = s.remove(i);
    assert forall|x: int, y: int| 0 <= x < y < t.len() implies t[x].key() != t[y].key() by {
        let x0 = if x < i { x } else { x + 1 };
        let y0 = if y < i { y } else { y + 1 };
        assert(t[x] == s[x0] && t[y] == s[y0]);
    }
    assert forall|k: A::Key| has_key(t, k) <==> (k != s[i].key() && has_key(s, k)) by {
        if has_key(t, k) {
            let x = choose|x: int| at(t, k, x);
            assert(at(t, k, x));
            let x0 = if x < i { x } else { x + 1 };
            assert(at(s, k, x0));
        }
        if k != s[i].key() && has_key(s, k) {
            let x0 = choose|x0: int| at(s, k, x0);
            assert(at(s, k, x0));
            let x = if x0 < i { x0 } else { x0 - 1 };
            assert(at(t, k, x));
        }
    }
    assert forall|k: A::Key| has_key(t, k) implies as_map(t)[k] == as_map(s)[k] by {
        let x = choose|x: int| at(t, k, x);
        assert(at(t, k, x));
        lemma_entry(t, x);
        let x0 = if x < i { x } else { x + 1 };
        assert(t[x] == s[x0]);
        lemma_entry(s, x0);
    }
    assert(as_map(t) =~= as_map(s).remove(s[i].key()));
}

/// Replacing an entry by one with the same key overwrites its value in the
/// map.
pub proof fn lemma_update<A: Keyed>(s: Seq<A>, i: int, a: A)
    requires
        distinct_keys(s),
        0 <= i < s.len(),
        a.key() == s[i].key(),
    ensures
        distinct_keys(s.update(i, a)),
        as_map(s.update(i, a)) == as_map(s).insert(a.key(), a.value()),
{
    let t = s.update(i, a);
    assert forall|x: int, y: int| 0 <= x < y < t.len() implies t[x].key() != t[y].key() by {
        assert(t[x].key() == s[x].key() && t[y].key() == s[y].key());
    }
    assert forall|k: A::Key| has_key(t, k) <==> has_key(s, k) by {
        if has_key(t, k) {
            let x = choose|x: int| at(t, k, x);
            assert(at(t, k, x));
            assert(at(s, k, x));
        }
        if has_key(s, k) {
            let x = choose|x: int| at(s, k, x);
            assert(at(s, k, x));
            assert(at(t, k, x));
        }
    }
    assert(at(s, a.key(), i));
    assert forall|k: A::Key| has_key(t, k) implies as_map(t)[k] == as_map(s).insert(
        a.key(),
        a.value(),
    )[k] by {
        let x = choose|x: int| at(t, k, x);
        assert(at(t, k, x));
        lemma_entry(t, x);
        if x != i {
            assert(at(s, k, x));
            lemma_entry(s, x);
        }
    }
    assert(as_map(t) =~= as_map(s).insert(a.key(), a.value()));
}

/// A prefix of a table with distinct keys has distinct keys, and the entry
/// that follows the prefix is not in it.
pub proof fn lemma_take<A: Keyed>(s: Seq<A>, n: int)
    requires
        distinct_keys(s),
        0 <= n <= s.len(),
    ensures
        distinct_keys(s.take(n)),
        n < s.len() ==> !has_key(s.take(n), s[n].key()),
        n < s.len() ==> s.take(n + 1) == s.take(n).push(s[n]),
{
    let t = s.take(n);
    assert forall|x: int, y: int| 0 <= x < y < t.len() implies t[x].key() != t[y].key() by {
        assert(t[x] == s[x] && t[y] == s[y]);
    }
    if n < s.len() {
        if has_key(t, s[n].key()) {
            let x = choose|x: int| at(t, s[n].key(), x);
            assert(at(t, s[n].key(), x));
            assert(t[x] == s[x]);
        }
        assert(s.take(n + 1) =~= s.take(n).push(s[n]));
    }
}

/// What a prefix of a table holds under a key, the table holds under it too.
pub proof fn lemma_submap<A: Keyed>(s: Seq<A>, n: int, k: A::Key)
    requires
        distinct_keys(s),
        0 <= n <= s.len(),
        as_map(s.take(n)).contains_key(k),
    ensures
        as_map(s).contains_key(k),
        as_map(s)[k] == as_map(s.take(n))[k],
{
    let t = s.take(n);
    lemma_take(s, n);
    let x = choose|x: int| at(t, k, x);
    assert(at(t, k, x));
    assert(t[x] == s[x]);
    assert(at(s, k, x));
    lemma_entry(t, x);
    lemma_entry(s, x);
}

/// A table with distinct keys has as many keys as entries.
pub proof fn lemma_len<A: Keyed>(s: Seq<A>)
    requires
        distinct_keys(s),
    ensures
        as_map(s).dom().finite(),
        as_map(s).dom().len() == s.len(),
    decreases s.len(),
{
    if s.len() == 0 {
        assert(s =~= Seq::<A>::empty());
        lemma_empty::<A>();
    } else {
        let n = s.len() - 1;
        lemma_take(s, n);
        lemma_len(s.take(n));
        lemma_push(s.take(n), s[n]);
        assert(s.take(n + 1) =~= s);
        assert(!as_map(s.take(n)).dom().contains(s[n].key()));
    }
}

} // verus!
