//! Sequences of named entries read as maps from name to value.
use vstd::prelude::*;

verus! {

/// An entry that is identified by a name and carries a value.
pub trait KeyedEntry: Sized {
    type Value;

    spec fn entry_key(&self) -> Seq<char>;

    spec fn entry_value(&self) -> Self::Value;
}

/// The map that a sequence of entries describes; a later entry with the same
/// name overrides an earlier one.
pub open spec fn keyed_map<T: KeyedEntry>(s: Seq<T>) -> Map<Seq<char>, T::Value>
    decreases s.len(),
{
    if s.len() == 0 {
        Map::empty()
    } else {
        keyed_map(s.drop_last()).insert(s.last().entry_key(), s.last().entry_value())
    }
}

/// No two entries share a name.
pub open spec fn unique_keys<T: KeyedEntry>(s: Seq<T>) -> bool {
    forall|i: int, j: int|
        0 <= i < s.len() && 0 <= j < s.len() && i != j ==> #[trigger] s[i].entry_key()
            != #[trigger] s[j].entry_key()
}

/// The names in the map are exactly the names of the entries.
pub proof fn lemma_keyed_map_domain<T: KeyedEntry>(s: Seq<T>, k: Seq<char>)
    ensures
        keyed_map(s).contains_key(k) <==> exists|i: int| 0 <= i < s.len() && #[trigger] s[i].entry_key() == k,
    decreases s.len(),
{
    if s.len() > 0 {
        lemma_keyed_map_domain(s.drop_last(), k);
        if keyed_map(s).contains_key(k) && k != s.last().entry_key() {
            let i = choose|i: int| 0 <= i < s.len() - 1 && #[trigger] s.drop_last()[i].entry_key() == k;
            assert(s[i].entry_key() == k);
        }
        if exists|i: int| 0 <= i < s.len() && #[trigger] s[i].entry_key() == k {
            let i = choose|i: int| 0 <= i < s.len() && #[trigger] s[i].entry_key() == k;
            if i < s.len() - 1 {
                assert(s.drop_last()[i].entry_key() == k);
            }
        }
    }
}

/// With unique names, the map gives each entry's value under its name.
pub proof fn lemma_keyed_map_index<T: KeyedEntry>(s: Seq<T>, i: int)
    requires
        unique_keys(s),
        0 <= i < s.len(),
    ensures
        keyed_map(s).contains_key(s[i].entry_key()),
        keyed_map(s)[s[i].entry_key()] == s[i].entry_value(),
    decreases s.len(),
{
    if i < s.len() - 1 {
        let t = s.drop_last();
        assert forall|a: int, b: int|
            0 <= a < t.len() && 0 <= b < t.len() && a != b implies #[trigger] t[a].entry_key()
            != #[trigger] t[b].entry_key() by {
            assert(s[a].entry_key() != s[b].entry_key());
        }
        lemma_keyed_map_index(t, i);
        assert(s[i].entry_key() != s[s.len() - 1].entry_key());
    }
}

/// Replacing the entry that holds a name updates the map under that name.
pub proof fn lemma_keyed_map_update<T: KeyedEntry>(s: Seq<T>, i: int, e: T)
    requires
        unique_keys(s),
        0 <= i < s.len(),
        s[i].entry_key() == e.entry_key(),
    ensures
        keyed_map(s.update(i, e)) == keyed_map(s).insert(e.entry_key(), e.entry_value()),
        unique_keys(s.update(i, e)),
    decreases s.len(),
{
    let u = s.update(i, e);
    assert forall|a: int, b: int|
        0 <= a < u.len() && 0 <= b < u.len() && a != b implies #[trigger] u[a].entry_key()
        != #[trigger] u[b].entry_key() by {
        assert(s[a].entry_key() != s[b].entry_key());
    }
    if i == s.len() - 1 {
        assert(u.drop_last() =~= s.drop_last());
        assert(keyed_map(u) =~= keyed_map(s).insert(e.entry_key(), e.entry_value()));
    } else {
        let t = s.drop_last();
        assert forall|a: int, b: int|
            0 <= a < t.len() && 0 <= b < t.len() && a != b implies #[trigger] t[a].entry_key()
            != #[trigger] t[b].entry_key() by {
            assert(s[a].entry_key() != s[b].entry_key());
        }
        lemma_keyed_map_update(t, i, e);
        assert(u.drop_last() =~= t.update(i, e));
        assert(s[i].entry_key() != s[s.len() - 1].entry_key());
        assert(keyed_map(u) =~= keyed_map(s).insert(e.entry_key(), e.entry_value()));
    }
}

/// Appending an entry under a fresh name keeps the names unique.
pub proof fn lemma_keyed_push_unique<T: KeyedEntry>(s: Seq<T>, e: T)
    requires
        unique_keys(s),
        forall|i: int| 0 <= i < s.len() ==> #[trigger] s[i].entry_key() != e.entry_key(),
    ensures
        unique_keys(s.push(e)),
        keyed_map(s.push(e)) == keyed_map(s).insert(e.entry_key(), e.entry_value()),
{
    let u = s.push(e);
    assert(u.drop_last() =~= s);
    assert forall|a: int, b: int|
        0 <= a < u.len() && 0 <= b < u.len() && a != b implies #[trigger] u[a].entry_key()
        != #[trigger] u[b].entry_key() by {
        if a < s.len() && b < s.len() {
            assert(s[a].entry_key() != s[b].entry_key());
        } else if a < s.len() {
            assert(s[a].entry_key() != e.entry_key());
        } else {
            assert(s[b].entry_key() != e.entry_key());
        }
    }
}

/// Two sequences whose entries agree one by one, in name and value, describe
/// the same map.
pub proof fn lemma_keyed_map_congruent<T: KeyedEntry>(s: Seq<T>, t: Seq<T>)
    requires
        s.len() == t.len(),
        forall|i: int| 0 <= i < s.len() ==> #[trigger] s[i].entry_key() == t[i].entry_key()
            && s[i].entry_value() == t[i].entry_value(),
    ensures
        keyed_map(s) == keyed_map(t),
    decreases s.len(),
{
    if s.len() > 0 {
        assert forall|i: int| 0 <= i < s.len() - 1 implies #[trigger] s.drop_last()[i].entry_key()
            == t.drop_last()[i].entry_key() && s.drop_last()[i].entry_value()
            == t.drop_last()[i].entry_value() by {
            assert(s[i].entry_key() == t[i].entry_key());
        }
        lemma_keyed_map_congruent(s.drop_last(), t.drop_last());
        assert(s[s.len() - 1].entry_key() == t[t.len() - 1].entry_key());
    }
}

/// Two sequences with unique names that hold the same (name, value) pairs, in
/// any order, describe the same map.
pub proof fn lemma_keyed_map_reordered<T: KeyedEntry>(s: Seq<T>, t: Seq<T>)
    requires
        unique_keys(s),
        unique_keys(t),
        forall|i: int| #![trigger s[i]] 0 <= i < s.len() ==> exists|j: int| 0 <= j < t.len()
            && #[trigger] s[i].entry_key() == #[trigger] t[j].entry_key()
            && s[i].entry_value() == t[j].entry_value(),
        forall|j: int| #![trigger t[j]] 0 <= j < t.len() ==> exists|i: int| 0 <= i < s.len()
            && #[trigger] s[i].entry_key() == #[trigger] t[j].entry_key(),
    ensures
        keyed_map(s) == keyed_map(t),
{
    assert forall|k: Seq<char>| #[trigger] keyed_map(s).contains_key(k) <==> keyed_map(t).contains_key(k) by {
        lemma_keyed_map_domain(s, k);
        lemma_keyed_map_domain(t, k);
        if keyed_map(s).contains_key(k) {
            let i = choose|i: int| 0 <= i < s.len() && #[trigger] s[i].entry_key() == k;
            let j = choose|j: int| 0 <= j < t.len()
                && #[trigger] s[i].entry_key() == #[trigger] t[j].entry_key()
                && s[i].entry_value() == t[j].entry_value();
            assert(t[j].entry_key() == k);
        }
        if keyed_map(t).contains_key(k) {
            let j = choose|j: int| 0 <= j < t.len() && #[trigger] t[j].entry_key() == k;
            let i = choose|i: int| 0 <= i < s.len()
                && #[trigger] s[i].entry_key() == #[trigger] t[j].entry_key();
            assert(s[i].entry_key() == k);
        }
    }
    assert forall|k: Seq<char>| #[trigger] keyed_map(s).contains_key(k) implies keyed_map(s)[k]
        == keyed_map(t)[k] by {
        lemma_keyed_map_domain(s, k);
        let i = choose|i: int| 0 <= i < s.len() && #[trigger] s[i].entry_key() == k;
        let j = choose|j: int| 0 <= j < t.len()
            && #[trigger] s[i].entry_key() == #[trigger] t[j].entry_key()
            && s[i].entry_value() == t[j].entry_value();
        lemma_keyed_map_index(s, i);
        lemma_keyed_map_index(t, j);
    }
    assert(keyed_map(s) =~= keyed_map(t));
}

} // verus!
