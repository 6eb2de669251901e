//! Lists of keys and values, read as maps.

use vstd::prelude::*;

verus! {

/// Where a key stands first in a list, or the length of the list.
pub open spec fn place<K, V>(list: Seq<(K, V)>, key: K) -> int
    decreases list.len(),
{
    if list.len() == 0 || list[0].0 == key {
        0
    } else {
        1 + place(list.skip(1), key)
    }
}

/// Whether no key stands twice.
pub open spec fn keys_differ<K, V>(list: Seq<(K, V)>) -> bool {
    forall|i: int, j: int|
        0 <= i < j < list.len() ==> (#[trigger] list[i]).0 != (#[trigger] list[j]).0
}

/// The map that a list is: each key with its first value.
pub open spec fn as_map<K, V>(list: Seq<(K, V)>) -> Map<K, V> {
    Map::new(|key: K| place(list, key) < list.len(), |key: K| list[place(list, key)].1)
}

pub proof fn lemma_place<K, V>(list: Seq<(K, V)>, key: K)
    ensures
        0 <= place(list, key) <= list.len(),
        place(list, key) < list.len() ==> list[place(list, key)].0 == key,
        forall|i: int| 0 <= i < place(list, key) ==> (#[trigger] list[i]).0 != key,
    decreases list.len(),
{
    if list.len() > 0 && list[0].0 != key {
        let rest = list.skip(1);
        lemma_place(rest, key);
        assert forall|i: int| 0 <= i < place(list, key) implies (#[trigger] list[i]).0 != key by {
            if i > 0 {
                assert(rest[i - 1] == list[i]);
            }
        }
    }
}

pub proof fn lemma_found<K, V>(list: Seq<(K, V)>, key: K, i: int)
    requires
        keys_differ(list),
        0 <= i < list.len(),
        list[i].0 == key,
    ensures
        place(list, key) == i,
        as_map(list).contains_key(key),
        as_map(list)[key] == list[i].1,
{
    lemma_place(list, key);
    let k = place(list, key);
    if k < i {
        assert(list[k].0 != list[i].0);
    }
}

pub proof fn lemma_absent<K, V>(list: Seq<(K, V)>, key: K)
    requires
        forall|i: int| 0 <= i < list.len() ==> (#[trigger] list[i]).0 != key,
    ensures
        place(list, key) == list.len(),
        !as_map(list).contains_key(key),
{
    lemma_place(list, key);
}

/// Replacing the value of a key that is there.
pub proof fn lemma_replaced<K, V>(list: Seq<(K, V)>, key: K, value: V)
    requires
        keys_differ(list),
        place(list, key) < list.len(),
    ensures
        keys_differ(list.update(place(list, key), (key, value))),
        as_map(list.update(place(list, key), (key, value))) == as_map(list).insert(key, value),
{
    let i = place(list, key);
    lemma_place(list, key);
    let after = list.update(i, (key, value));
    assert forall|a: int, b: int| 0 <= a < b < after.len() implies (#[trigger] after[a]).0 != (
    #[trigger] after[b]).0 by {
        assert(list[a].0 != list[b].0);
    }
    let want = as_map(list).insert(key, value);
    assert forall|k: K| #[trigger] as_map(after).contains_key(k) <==> want.contains_key(k) by {
        lemma_same_place(list, after, k);
    }
    assert forall|k: K| #[trigger] as_map(after).contains_key(k) implies as_map(after)[k]
        == want[k] by {
        lemma_same_place(list, after, k);
        lemma_place(after, k);
    }
    assert(as_map(after) =~= want);
}

proof fn lemma_same_place<K, V>(a: Seq<(K, V)>, b: Seq<(K, V)>, key: K)
    requires
        keys_differ(a),
        keys_differ(b),
        a.len() == b.len(),
        forall|i: int| 0 <= i < a.len() ==> (#[trigger] a[i]).0 == b[i].0,
    ensures
        place(a, key) == place(b, key),
{
    lemma_place(a, key);
    let i = place(a, key);
    if i < a.len() {
        lemma_found(b, key, i);
    } else {
        assert forall|j: int| 0 <= j < b.len() implies (#[trigger] b[j]).0 != key by {
            assert(a[j].0 != key);
        }
        lemma_absent(b, key);
    }
}

/// Adding a key that is not there.
pub proof fn lemma_added<K, V>(list: Seq<(K, V)>, key: K, value: V)
    requires
        keys_differ(list),
        place(list, key) == list.len(),
    ensures
        keys_differ(list.push((key, value))),
        as_map(list.push((key, value))) == as_map(list).insert(key, value),
{
    lemma_place(list, key);
    let after = list.push((key, value));
    assert forall|a: int, b: int| 0 <= a < b < after.len() implies (#[trigger] after[a]).0 != (
    #[trigger] after[b]).0 by {
        assert(list[a] == after[a]);
        if b < list.len() {
            assert(list[b] == after[b]);
        }
    }
    let want = as_map(list).insert(key, value);
    assert forall|k: K| #[trigger] as_map(after).contains_key(k) <==> want.contains_key(k) by {
        lemma_added_place(list, key, value, k);
    }
    assert forall|k: K| #[trigger] as_map(after).contains_key(k) implies as_map(after)[k]
        == want[k] by {
        lemma_added_place(list, key, value, k);
        lemma_place(list, k);
        if k != key {
            assert(after[place(list, k)] == list[place(list, k)]);
        }
    }
    assert(as_map(after) =~= want);
}

proof fn lemma_added_place<K, V>(list: Seq<(K, V)>, key: K, value: V, k: K)
    requires
        keys_differ(list),
        place(list, key) == list.len(),
        keys_differ(list.push((key, value))),
    ensures
        ({
            let at = place(list.push((key, value)), k);
            if k == key {
                at == list.len()
            } else if place(list, k) < list.len() {
                at == place(list, k)
            } else {
                at == list.len() + 1
            }
        }),
{
    let after = list.push((key, value));
    lemma_place(list, k);
    if k == key {
        lemma_found(after, k, list.len() as int);
    } else if place(list, k) < list.len() {
        assert(after[place(list, k)] == list[place(list, k)]);
        lemma_found(after, k, place(list, k));
    } else {
        assert forall|j: int| 0 <= j < after.len() implies (#[trigger] after[j]).0 != k by {
            if j < list.len() {
                assert(after[j] == list[j]);
            }
        }
        lemma_absent(after, k);
    }
}

/// A list without repeated keys has as many keys as places.
pub proof fn lemma_size<K, V>(list: Seq<(K, V)>)
    requires
        keys_differ(list),
    ensures
        as_map(list).dom().finite(),
        as_map(list).len() == list.len(),
    decreases list.len(),
{
    if list.len() == 0 {
        assert(as_map(list) =~= Map::<K, V>::empty());
    } else {
        let less = list.drop_last();
        let (key, value) = list.last();
        lemma_size(less);
        assert forall|j: int| 0 <= j < less.len() implies (#[trigger] less[j]).0 != key by {
            assert(list[j].0 != list[list.len() - 1].0);
        }
        lemma_absent(less, key);
        lemma_added(less, key, value);
        assert(less.push((key, value)) =~= list);
        assert(as_map(list).dom() =~= as_map(less).dom().insert(key));
    }
}

/// Taking out the key at a place.
pub proof fn lemma_removed<K, V>(list: Seq<(K, V)>, i: int)
    requires
        keys_differ(list),
        0 <= i < list.len(),
    ensures
        keys_differ(list.remove(i)),
        as_map(list.remove(i)) == as_map(list).remove(list[i].0),
{
    let after = list.remove(i);
    assert forall|a: int, b: int| 0 <= a < b < after.len() implies (#[trigger] after[a]).0 != (
    #[trigger] after[b]).0 by {
        let x = if a < i { a } else { a + 1 };
        let y = if b < i { b } else { b + 1 };
        assert(after[a] == list[x] && after[b] == list[y]);
    }
    let want = as_map(list).remove(list[i].0);
    assert forall|k: K| #[trigger] as_map(after).contains_key(k) <==> want.contains_key(k) by {
        lemma_removed_place(list, i, k);
    }
    assert forall|k: K| #[trigger] as_map(after).contains_key(k) implies as_map(after)[k]
        == want[k] by {
        lemma_removed_place(list, i, k);
    }
    assert(as_map(after) =~= want);
}

proof fn lemma_removed_place<K, V>(list: Seq<(K, V)>, i: int, k: K)
    requires
        keys_differ(list),
        0 <= i < list.len(),
        keys_differ(list.remove(i)),
    ensures
        ({
            let after = list.remove(i);
            let was = place(list, k);
            let at = place(after, k);
            if k == list[i].0 || was == list.len() {
                at == after.len()
            } else if was < i {
                at == was && after[at] == list[was]
            } else {
                at == was - 1 && after[at] == list[was]
            }
        }),
{
    let after = list.remove(i);
    lemma_place(list, k);
    let was = place(list, k);
    if k == list[i].0 || was == list.len() {
        assert forall|j: int| 0 <= j < after.len() implies (#[trigger] after[j]).0 != k by {
            let x = if j < i { j } else { j + 1 };
            assert(after[j] == list[x]);
            if k == list[i].0 {
                assert(list[x].0 != list[i].0);
            }
        }
        lemma_absent(after, k);
    } else {
        let at = if was < i { was } else { was - 1 };
        assert(was != i);
        assert(after[at] == list[was]);
        lemma_found(after, k, at);
    }
}

} // verus!
