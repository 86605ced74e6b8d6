//! Which entities every one of several component maps holds.
use vstd::prelude::*;

verus! {

/// `k` is among the keys.
pub open spec fn has_key(keys: Seq<String>, k: Seq<char>) -> bool {
    exists|j: int| 0 <= j < keys.len() && (#[trigger] keys[j])@ == k
}

/// `k` is among the keys of every map.
pub open spec fn in_every(maps: Seq<Vec<String>>, k: Seq<char>) -> bool {
    forall|i: int| 0 <= i < maps.len() ==> has_key((#[trigger] maps[i])@, k)
}

/// No key is listed twice.
pub open spec fn distinct_keys(keys: Seq<String>) -> bool {
    forall|a: int, b: int| 0 <= a < keys.len() && 0 <= b < keys.len() && a != b ==> (#[trigger] keys[a])@ != (#[trigger] keys[b])@
}

fn contains_key(keys: &Vec<String>, k: &String) -> (r: bool)
    ensures
        r == has_key(keys@, k@),
{
    let mut j: usize = 0;
    while j < keys.len()
        invariant
            j <= keys@.len(),
            forall|m: int| 0 <= m < j ==> (#[trigger] keys@[m])@ != k@,
        decreases keys@.len() - j,
    {
        if keys[j] == *k {
            return true;
        }
        j = j + 1;
    }
    false
}

/// The entities, given as the key lists of several component maps, that every
/// map holds: `None` where no map is given, else each such key once.
pub fn get_entities_in_all_map(maps: &Vec<Vec<String>>) -> (r: Option<Vec<String>>)
    ensures
        maps@.len() == 0 <==> r is None,
        r matches Some(v) ==> distinct_keys(v@) && forall|k: Seq<char>| #[trigger] has_key(v@, k) <==> in_every(maps@, k),
{
    if maps.len() == 0 {
        return None;
    }
    let first = &maps[0];
    let mut out: Vec<String> = Vec::new();
    let mut i: usize = 0;
    while i < first.len()
        invariant
            maps@.len() > 0,
            first == maps@[0],
            i <= first@.len(),
            distinct_keys(out@),
            forall|k: Seq<char>| #[trigger] has_key(out@, k) <==> (has_key(first@.take(i as int), k) && in_every(maps@, k)),
        decreases first@.len() - i,
    {
        let k = &first[i];
        let mut every = true;
        let mut m: usize = 1;
        while m < maps.len()
            invariant
                maps@.len() > 0,
                first == maps@[0],
                i < first@.len(),
                *k == first@[i as int],
                1 <= m <= maps@.len(),
                every == forall|n: int| 0 <= n < m ==> has_key((#[trigger] maps@[n])@, k@),
            decreases maps@.len() - m,
        {
            if !contains_key(&maps[m], k) {
                every = false;
            }
            m = m + 1;
        }
        proof {
            assert(has_key(maps@[0]@, k@));
            assert(every == in_every(maps@, k@));
            assert forall|key: Seq<char>| has_key(first@.take(i + 1), key) <==> (has_key(first@.take(i as int), key) || key == k@) by {
                if has_key(first@.take(i + 1), key) {
                    let j = choose|j: int| 0 <= j < i + 1 && (#[trigger] first@.take(i + 1)[j])@ == key;
                    if j < i {
                        assert(first@.take(i as int)[j] == first@.take(i + 1)[j]);
                    }
                }
                if has_key(first@.take(i as int), key) {
                    let j = choose|j: int| 0 <= j < i && (#[trigger] first@.take(i as int)[j])@ == key;
                    assert(first@.take(i + 1)[j] == first@.take(i as int)[j]);
                }
                if key == k@ {
                    assert(first@.take(i + 1)[i as int] == *k);
                }
            }
        }
        if every && !contains_key(&out, k) {
            let ghost before = out@;
            out.push(k.clone());
            proof {
                assert forall|key: Seq<char>| #[trigger] has_key(out@, key) <==> (has_key(before, key) || key == k@) by {
                    if has_key(out@, key) {
                        let j = choose|j: int| 0 <= j < out@.len() && (#[trigger] out@[j])@ == key;
                        if j < before.len() {
                            assert(before[j] == out@[j]);
                        }
                    }
                    if has_key(before, key) {
                        let j = choose|j: int| 0 <= j < before.len() && (#[trigger] before[j])@ == key;
                        assert(out@[j] == before[j]);
                    }
                    assert(out@[before.len() as int] == *k);
                }
                assert forall|a: int, b: int| 0 <= a < out@.len() && 0 <= b < out@.len() && a != b implies (#[trigger] out@[a])@ != (#[trigger] out@[b])@ by {
                    if a < before.len() && b < before.len() {
                        assert(before[a] == out@[a] && before[b] == out@[b]);
                    } else if a < before.len() {
                        assert(before[a] == out@[a]);
                    } else {
                        assert(before[b] == out@[b]);
                    }
                }
            }
        }
        i = i + 1;
    }
    proof {
        assert(first@.take(i as int) =~= first@);
        assert forall|k: Seq<char>| in_every(maps@, k) implies has_key(first@, k) by {
            assert(has_key(maps@[0]@, k));
        }
    }
    Some(out)
}

} // verus!
