//! Facts about sequences of insertions and lookups on a table, stated over
//! the map that `Trie::view` gives.
use vstd::prelude::*;

verus! {

/// The map reached from `m` by storing each `(key, value)` pair of `entries`,
/// first to last, as `Trie::insert` does.
pub open spec fn after_inserts<T>(m: Map<Seq<char>, T>, entries: Seq<(Seq<char>, T)>) -> Map<
    Seq<char>,
    T,
>
    decreases entries.len(),
{
    if entries.len() == 0 {
        m
    } else {
        let last = entries.last();
        after_inserts(m, entries.drop_last()).insert(last.0, last.1)
    }
}

/// After a run of insertions, a key stored at position `j` and not stored
/// again later maps to the value stored at position `j`: the most recent
/// insertion of a key is the one a lookup sees.
pub proof fn lemma_last_insert_wins<T>(
    m: Map<Seq<char>, T>,
    entries: Seq<(Seq<char>, T)>,
    j: int,
)
    requires
        0 <= j < entries.len(),
        forall|l: int| j < l < entries.len() ==> (#[trigger] entries[l]).0 != entries[j].0,
    ensures
        after_inserts(m, entries).contains_key(entries[j].0),
        after_inserts(m, entries)[entries[j].0] == entries[j].1,
    decreases entries.len(),
{
    let init = entries.drop_last();
    if j < entries.len() - 1 {
        assert forall|l: int| j < l < init.len() implies (#[trigger] init[l]).0 != init[j].0 by {
            assert(init[l] == entries[l]);
        }
        lemma_last_insert_wins(m, init, j);
        assert(entries.last() == entries[entries.len() - 1]);
    }
}

/// A key that no insertion of a run stored, on a table that was empty, is
/// absent after the run.
pub proof fn lemma_never_inserted_is_absent<T>(entries: Seq<(Seq<char>, T)>, key: Seq<char>)
    requires
        forall|l: int| 0 <= l < entries.len() ==> (#[trigger] entries[l]).0 != key,
    ensures
        !after_inserts(Map::<Seq<char>, T>::empty(), entries).contains_key(key),
    decreases entries.len(),
{
    if entries.len() > 0 {
        let init = entries.drop_last();
        assert forall|l: int| 0 <= l < init.len() implies (#[trigger] init[l]).0 != key by {
            assert(init[l] == entries[l]);
        }
        lemma_never_inserted_is_absent(init, key);
        assert(entries.last() == entries[entries.len() - 1]);
    }
}

/// Storing twice under one key leaves only the second value: the table is
/// the same as after the second insertion alone.
pub proof fn lemma_overwrite<T>(m: Map<Seq<char>, T>, key: Seq<char>, first: T, second: T)
    ensures
        m.insert(key, first).insert(key, second) == m.insert(key, second),
        m.insert(key, first).insert(key, second)[key] == second,
{
    assert(m.insert(key, first).insert(key, second) =~= m.insert(key, second));
}

/// Storing under the empty key makes the empty key map to that value and
/// leaves every other key as it was.
pub proof fn lemma_empty_key<T>(m: Map<Seq<char>, T>, value: T)
    ensures
        m.insert(Seq::empty(), value).contains_key(Seq::empty()),
        m.insert(Seq::empty(), value)[Seq::empty()] == value,
        forall|k: Seq<char>|
            k != Seq::<char>::empty() ==> (#[trigger] m.insert(Seq::empty(), value).contains_key(k)
                == m.contains_key(k) && (m.contains_key(k) ==> m.insert(Seq::empty(), value)[k]
                == m[k])),
{
}

/// The results of two lookups of one key on one table agree: both are
/// absent, or both are clones of the stored value. Where cloning a `T`
/// yields an equal value, the two results are equal.
pub proof fn lemma_lookup_is_stable<T: Clone>(
    m: Map<Seq<char>, T>,
    key: Seq<char>,
    first: Option<T>,
    second: Option<T>,
)
    requires
        first is Some <==> m.contains_key(key),
        first is Some ==> cloned(m[key], first->Some_0),
        second is Some <==> m.contains_key(key),
        second is Some ==> cloned(m[key], second->Some_0),
    ensures
        first is Some <==> second is Some,
        (forall|a: T, b: T| #[trigger] cloned(a, b) ==> a == b) ==> first == second,
{
}

} // verus!
