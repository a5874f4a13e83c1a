use vstd::prelude::*;

verus! {

/// What a list of pairs holds under key `k`: the value of the last pair with
/// that key, so that a pair added later replaces an earlier one.
pub open spec fn latest<K, V>(list: Seq<(K, V)>, k: K) -> Option<V>
    decreases list.len(),
{
    if list.len() == 0 {
        None
    } else if list.last().0 == k {
        Some(list.last().1)
    } else {
        latest(list.drop_last(), k)
    }
}

/// The list read as a map.
pub open spec fn as_map<K, V>(list: Seq<(K, V)>) -> Map<K, V> {
    Map::new(|k: K| latest(list, k) is Some, |k: K| latest(list, k)->Some_0)
}

/// Adding a pair binds its key and leaves the other keys alone.
pub proof fn lemma_latest_push<K, V>(list: Seq<(K, V)>, k: K, v: V)
    ensures
        forall|j: K| #[trigger] latest(list.push((k, v)), j) == (if j == k {
            Some(v)
        } else {
            latest(list, j)
        }),
        as_map(list.push((k, v))) == as_map(list).insert(k, v),
{
    assert(list.push((k, v)).drop_last() =~= list);
    assert forall|j: K| #[trigger] latest(list.push((k, v)), j) == (if j == k {
        Some(v)
    } else {
        latest(list, j)
    }) by {}
    assert(as_map(list.push((k, v))) =~= as_map(list).insert(k, v));
}

/// Looking a key up from the end: what the first `i` pairs hold decides,
/// once the pairs behind them are known not to bear the key.
pub proof fn lemma_latest_step<K, V>(list: Seq<(K, V)>, k: K, i: int)
    requires
        0 <= i < list.len(),
    ensures
        latest(list.take(i + 1), k) == (if list[i].0 == k {
            Some(list[i].1)
        } else {
            latest(list.take(i), k)
        }),
{
    assert(list.take(i + 1).drop_last() =~= list.take(i));
    assert(list.take(i + 1).last() == list[i]);
}

/// The empty list holds nothing.
pub proof fn lemma_latest_empty<K, V>(k: K)
    ensures
        latest(Seq::<(K, V)>::empty(), k) is None,
        as_map(Seq::<(K, V)>::empty()) == Map::<K, V>::empty(),
{
    assert(as_map(Seq::<(K, V)>::empty()) =~= Map::<K, V>::empty());
}

} // verus!
