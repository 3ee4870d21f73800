//! The map from column key to slot index, and what keeps its slot indices a
//! gapless run from zero.

use std::collections::HashMap;
use std::hash::Hash;
use crate::model::{
    first_from, has_key, lemma_first_value, lemma_first_value_distinct, pair_keys, row_covers,
    row_in_slot_order, slot_after_removal, RowFault,
};
use vstd::prelude::*;
use std::collections::hash_map::Keys;
use vstd::std_specs::hash::{obeys_key_model, spec_hash_map_iter, spec_keys_iter};
use vstd::std_specs::iter::IteratorSpec;

verus! {

broadcast use vstd::std_specs::hash::group_hash_axioms;

/// The map holds exactly the keys of `order`, each under its position in
/// `order`: the slot indices are `0..order.len()`, each used once.
pub open spec fn slots_agree<K>(slots: Map<K, usize>, order: Seq<K>) -> bool {
    &&& slots.dom().finite()
    &&& slots.len() == order.len()
    &&& forall|i: int|
        0 <= i < order.len() ==> slots.contains_key(#[trigger] order[i]) && slots[order[i]] == i
    &&& forall|k: K| #[trigger]
        slots.contains_key(k) ==> slots[k] < order.len() && order[slots[k] as int] == k
}

/// Where the map agrees with `order`, no key occurs twice in `order`, the
/// keys of both are the same, and a key's slot is its position in `order`.
pub proof fn lemma_slots_agree<K>(slots: Map<K, usize>, order: Seq<K>)
    requires
        slots_agree(slots, order),
    ensures
        order.no_duplicates(),
        forall|k: K| slots.contains_key(k) <==> #[trigger] order.contains(k),
        forall|k: K| #[trigger] order.contains(k) ==> order.index_of(k) == slots[k],
{
    assert forall|i: int, j: int| 0 <= i < order.len() && 0 <= j < order.len() && i != j implies order[i]
        != order[j] by {
        if order[i] == order[j] {
            assert(slots[order[i]] == i);
            assert(slots[order[j]] == j);
        }
    }
    assert forall|k: K| slots.contains_key(k) <==> #[trigger] order.contains(k) by {
        if slots.contains_key(k) {
            assert(order[slots[k] as int] == k);
        }
    }
    assert forall|k: K| #[trigger] order.contains(k) implies order.index_of(k) == slots[k] by {
        let i = order.index_of(k);
        assert(order[i] == k);
        assert(slots[order[i]] == i);
    }
}

/// A new key put under the next free slot index keeps the agreement.
pub proof fn lemma_slots_agree_push<K>(slots: Map<K, usize>, order: Seq<K>, key: K)
    requires
        slots_agree(slots, order),
        !slots.contains_key(key),
        order.len() <= usize::MAX,
    ensures
        slots_agree(slots.insert(key, order.len() as usize), order.push(key)),
{
    let slots2 = slots.insert(key, order.len() as usize);
    let order2 = order.push(key);
    assert forall|i: int| 0 <= i < order2.len() implies slots2.contains_key(#[trigger] order2[i])
        && slots2[order2[i]] == i by {
        if i < order.len() {
            assert(order2[i] == order[i]);
            assert(slots.contains_key(order[i]));
        }
    }
    assert forall|k: K| #[trigger] slots2.contains_key(k) implies slots2[k] < order2.len()
        && order2[slots2[k] as int] == k by {
        if k != key {
            assert(slots.contains_key(k));
        }
    }
}

/// The slot index stored for `key`, or `None` where the map has no such key.
pub fn lookup_slot<K: Hash + Eq>(slots: &HashMap<K, usize>, key: &K) -> (r: Option<usize>)
    requires
        obeys_key_model::<K>(),
    ensures
        r == (if slots@.contains_key(*key) {
            Some(slots@[*key])
        } else {
            None
        }),
{
    match slots.get(key) {
        Some(i) => Some(*i),
        None => None,
    }
}

/// A vector of `n` empty places.
pub fn empty_places<T>(n: usize) -> (places: Vec<Option<T>>)
    ensures
        places@.len() == n,
        forall|i: int| 0 <= i < n ==> (#[trigger] places@[i]) is None,
{
    let mut places: Vec<Option<T>> = Vec::with_capacity(n);
    while places.len() < n
        invariant
            places@.len() <= n,
            forall|i: int| 0 <= i < places@.len() ==> (#[trigger] places@[i]) is None,
        decreases n - places@.len(),
    {
        places.push(None);
    }
    places
}

/// Takes the values out of places that are all filled, in order.
pub fn take_all<T>(places: Vec<Option<T>>) -> (values: Vec<T>)
    requires
        forall|i: int| 0 <= i < places@.len() ==> (#[trigger] places@[i]) is Some,
    ensures
        values@.len() == places@.len(),
        forall|i: int| 0 <= i < places@.len() ==> (#[trigger] values@[i]) == places@[i]->0,
{
    let mut values: Vec<T> = Vec::with_capacity(places.len());
    for place in it: places
        invariant
            it.seq() == places@,
            forall|i: int| 0 <= i < places@.len() ==> (#[trigger] places@[i]) is Some,
            values@.len() == it.index(),
            forall|i: int| 0 <= i < it.index() ==> (#[trigger] values@[i]) == places@[i]->0,
    {
        assert(place == places@[it.index()]);
        values.push(place.unwrap());
    }
    values
}

/// Puts the values of a row given as `(key, value)` pairs in slot order,
/// or says what keeps the pairs from being a row: a key that is no column
/// key, or a column key without a pair. Where a key occurs more than once,
/// its first pair gives the value.
pub(crate) fn try_arrange_row<K: Hash + Eq, V>(
    slots: &HashMap<K, usize>,
    order: Ghost<Seq<K>>,
    row: Vec<(K, V)>,
) -> (r: Result<Vec<V>, RowFault>)
    requires
        obeys_key_model::<K>(),
        slots_agree(slots@, order@),
    ensures
        match r {
            Ok(values) => row_covers(order@, row@) && values@ == row_in_slot_order(order@, row@),
            Err(RowFault::UnknownKey) => exists|i: int| 0 <= i < row@.len() && !order@.contains((#[trigger] row@[i]).0),
            Err(RowFault::MissingKey) => (forall|i: int| 0 <= i < row@.len() ==> order@.contains((#[trigger] row@[i]).0))
                && exists|s: int| 0 <= s < order@.len() && !has_key(row@, #[trigger] order@[s]),
        },
{
    let ghost pairs = row@;
    let n = slots.len();
    let mut rest = row;
    let mut placed: Vec<Option<V>> = empty_places(n);
    proof {
        lemma_slots_agree(slots@, order@);
    }
    while rest.len() > 0
        invariant
            obeys_key_model::<K>(),
            pairs == row@,
            slots_agree(slots@, order@),
            n == order@.len(),
            placed@.len() == n,
            rest@.len() <= pairs.len(),
            rest@ == pairs.subrange(0, rest@.len() as int),
            forall|i: int| rest@.len() <= i < pairs.len() ==> order@.contains((#[trigger] pairs[i]).0),
            forall|s: int|
                0 <= s < n ==> match #[trigger] placed@[s] {
                    Some(v) => exists|i: int| first_from(pairs, order@[s], rest@.len() as int, i) && pairs[i].1 == v,
                    None => forall|i: int| rest@.len() <= i < pairs.len() ==> (#[trigger] pairs[i]).0 != order@[s],
                },
        decreases rest@.len(),
    {
        let ghost before = placed@;
        let ghost at = rest@.len() - 1;
        let (key, value) = rest.pop().unwrap();
        proof {
            assert(pairs[at] == (key, value));
            lemma_slots_agree(slots@, order@);
        }
        let slot = match lookup_slot(slots, &key) {
            Some(slot) => slot,
            None => {
                proof {
                    assert(!order@.contains(pairs[at].0));
                }
                return Err(RowFault::UnknownKey);
            },
        };
        placed[slot] = Some(value);
        proof {
            assert(rest@ =~= pairs.subrange(0, at));
            assert forall|s: int| 0 <= s < n implies match #[trigger] placed@[s] {
                Some(v) => exists|i: int| first_from(pairs, order@[s], at, i) && pairs[i].1 == v,
                None => forall|i: int| at <= i < pairs.len() ==> (#[trigger] pairs[i]).0 != order@[s],
            } by {
                if s == slot {
                    assert(order@[s] == key);
                    assert(first_from(pairs, order@[s], at, at));
                } else {
                    assert(placed@[s] == before[s]);
                    assert(order@[s] != key);
                    match before[s] {
                        Some(v) => {
                            let i = choose|i: int| first_from(pairs, order@[s], at + 1, i) && pairs[i].1 == v;
                            assert(first_from(pairs, order@[s], at, i));
                        },
                        None => {},
                    }
                }
            }
        }
    }
    let mut s: usize = 0;
    while s < n
        invariant
            s <= n,
            n == order@.len(),
            placed@.len() == n,
            rest@.len() == 0,
            pairs == row@,
            forall|i: int| 0 <= i < pairs.len() ==> order@.contains((#[trigger] pairs[i]).0),
            forall|s: int|
                0 <= s < n ==> match #[trigger] placed@[s] {
                    Some(v) => exists|i: int| first_from(pairs, order@[s], 0, i) && pairs[i].1 == v,
                    None => forall|i: int| 0 <= i < pairs.len() ==> (#[trigger] pairs[i]).0 != order@[s],
                },
            forall|t: int| 0 <= t < s ==> (#[trigger] placed@[t]) is Some,
        decreases n - s,
    {
        if placed[s].is_none() {
            proof {
                assert(!has_key(pairs, order@[s as int]));
            }
            return Err(RowFault::MissingKey);
        }
        s = s + 1;
    }
    proof {
        assert forall|s: int| 0 <= s < n implies has_key(pairs, #[trigger] order@[s]) && placed@[s]->0
            == row_in_slot_order(order@, pairs)[s] by {
            let v = placed@[s]->0;
            let i = choose|i: int| first_from(pairs, order@[s], 0, i) && pairs[i].1 == v;
            assert(pairs[i].0 == order@[s]);
            lemma_first_value(pairs, order@[s], i);
        }
    }
    let values = take_all(placed);
    assert(values@ =~= row_in_slot_order(order@, pairs));
    Ok(values)
}

/// Puts the values of a row given as `(key, value)` pairs in slot order.
/// Where a key occurs more than once, its first pair gives the value.
pub(crate) fn arrange_row<K: Hash + Eq, V>(
    slots: &HashMap<K, usize>,
    order: Ghost<Seq<K>>,
    row: Vec<(K, V)>,
) -> (values: Vec<V>)
    requires
        obeys_key_model::<K>(),
        slots_agree(slots@, order@),
        row_covers(order@, row@),
    ensures
        values@ == row_in_slot_order(order@, row@),
{
    match try_arrange_row(slots, order, row) {
        Ok(values) => values,
        Err(_) => vstd::pervasive::unreached(),
    }
}

/// Makes the map from column key to slot index, each key of `columns` under
/// its position, or `None` where a key occurs twice.
pub fn try_indices_table<K: Hash + Eq>(columns: Vec<K>) -> (r: Option<HashMap<K, usize>>)
    requires
        obeys_key_model::<K>(),
    ensures
        match r {
            Some(slots) => columns@.no_duplicates() && slots_agree(slots@, columns@),
            None => !columns@.no_duplicates(),
        },
{
    let mut slots: HashMap<K, usize> = HashMap::with_capacity(columns.len());
    let mut i: usize = 0;
    proof {
        assert(columns@.subrange(0, 0) =~= Seq::<K>::empty());
        assert(columns.len() == columns@.len());
    }
    for key in it: columns
        invariant
            obeys_key_model::<K>(),
            it.seq() == columns@,
            columns@.len() <= usize::MAX,
            i == it.index(),
            slots_agree(slots@, columns@.subrange(0, i as int)),
    {
        let ghost before = slots@;
        let ghost order = columns@.subrange(0, i as int);
        let ghost k = key;
        proof {
            lemma_slots_agree(before, order);
            if before.contains_key(k) {
                let at = before[k] as int;
                assert(order[at] == k);
                assert(columns@[at] == columns@[i as int]);
            } else {
                lemma_slots_agree_push(before, order, k);
                assert(order.push(k) =~= columns@.subrange(0, i + 1));
            }
        }
        match slots.insert(key, i) {
            Some(_) => {
                return None;
            },
            None => {},
        }
        i = i + 1;
    }
    proof {
        assert(columns@.subrange(0, columns@.len() as int) =~= columns@);
        lemma_slots_agree(slots@, columns@);
    }
    Some(slots)
}

/// Parts a row given as `(key, value)` pairs into its keys and its values,
/// both in the order of the pairs.
pub fn split_pairs<K, V>(pairs: Vec<(K, V)>) -> (parts: (Vec<K>, Vec<V>))
    ensures
        parts.0@ == pair_keys(pairs@),
        parts.1@.len() == pairs@.len(),
        forall|i: int| 0 <= i < pairs@.len() ==> (#[trigger] parts.1@[i]) == pairs@[i].1,
{
    let mut keys: Vec<K> = Vec::with_capacity(pairs.len());
    let mut values: Vec<V> = Vec::with_capacity(pairs.len());
    for pair in it: pairs
        invariant
            it.seq() == pairs@,
            keys@.len() == it.index(),
            values@.len() == it.index(),
            forall|i: int| 0 <= i < it.index() ==> (#[trigger] keys@[i]) == pairs@[i].0,
            forall|i: int| 0 <= i < it.index() ==> (#[trigger] values@[i]) == pairs@[i].1,
    {
        let (key, value) = pair;
        keys.push(key);
        values.push(value);
    }
    assert(keys@ =~= pair_keys(pairs@));
    (keys, values)
}

/// Makes the map from column key to slot index: each key of `columns` under
/// its position.
pub fn indices_table_from_iterator<K: Hash + Eq>(columns: Vec<K>) -> (slots: HashMap<K, usize>)
    requires
        obeys_key_model::<K>(),
        columns@.no_duplicates(),
    ensures
        slots_agree(slots@, columns@),
{
    match try_indices_table(columns) {
        Some(slots) => slots,
        None => vstd::pervasive::unreached(),
    }
}

/// Makes the slot map and the first row of values from the first row of a
/// table given as `(key, value)` pairs, the key of pair `i` getting slot
/// `i`, or `None` where a key occurs twice.
pub fn try_first_row<K: Hash + Eq, V>(row: Vec<(K, V)>) -> (r: Option<(HashMap<K, usize>, Vec<V>)>)
    requires
        obeys_key_model::<K>(),
    ensures
        match r {
            Some(parts) => pair_keys(row@).no_duplicates() && slots_agree(parts.0@, pair_keys(row@)) && parts.1@
                == row_in_slot_order(pair_keys(row@), row@),
            None => !pair_keys(row@).no_duplicates(),
        },
{
    let (keys, values) = split_pairs(row);
    match try_indices_table(keys) {
        Some(slots) => {
            proof {
                assert forall|i: int| 0 <= i < row@.len() implies values@[i] == row_in_slot_order(
                    pair_keys(row@),
                    row@,
                )[i] by {
                    lemma_first_value_distinct(row@, i);
                }
                assert(values@ =~= row_in_slot_order(pair_keys(row@), row@));
            }
            Some((slots, values))
        },
        None => None,
    }
}

/// The pairs are the entries of the map, each once, in some order.
pub open spec fn pairs_of<K>(slots: Map<K, usize>, pairs: Seq<(K, usize)>) -> bool {
    &&& pairs.len() == slots.len()
    &&& forall|i: int|
        0 <= i < pairs.len() ==> slots.contains_key((#[trigger] pairs[i]).0) && slots[pairs[i].0]
            == pairs[i].1
    &&& forall|i: int, j: int|
        0 <= i < j < pairs.len() ==> (#[trigger] pairs[i]).0 != (#[trigger] pairs[j]).0
    &&& forall|k: K| #[trigger] slots.contains_key(k) ==> has_key(pairs, k)
}

/// Calls `HashMap::into_iter` and collects what it yields. The standard
/// library promises that the iterator moves every entry out of the map, in
/// arbitrary order; so the result holds each entry of the map once, and
/// nothing is said of the order.
#[verifier::external_body]
pub(crate) fn into_pairs<K>(slots: HashMap<K, usize>) -> (pairs: Vec<(K, usize)>)
    ensures
        obeys_key_model::<K>() ==> pairs_of(slots@, pairs@),
{
    slots.into_iter().collect()
}

/// An empty buffer with room for `columns * rows` values, as far as that
/// count fits the machine and the room can be had.
pub fn buffer_with_capacity<V>(columns: usize, rows: usize) -> (values: Vec<V>)
    ensures
        values@ == Seq::<V>::empty(),
{
    let mut values: Vec<V> = Vec::new();
    match columns.checked_mul(rows) {
        Some(n) => {
            let _ = values.try_reserve(n);
        },
        None => {},
    }
    values
}

/// What the rebuilt map holds after the pairs from `from` on were handled:
/// each of them but the one of the removed slot, under its new slot index.
pub open spec fn rebuilt<K>(
    slots: Map<K, usize>,
    pairs: Seq<(K, usize)>,
    from: int,
    removed: usize,
) -> bool {
    &&& slots.dom().finite()
    &&& forall|j: int|
        from <= j < pairs.len() && (#[trigger] pairs[j]).1 != removed ==> slots.contains_key(pairs[j].0)
            && slots[pairs[j].0] == slot_after_removal(pairs[j].1 as int, removed as int)
    &&& forall|k: K| #[trigger]
        slots.contains_key(k) ==> exists|j: int|
            from <= j < pairs.len() && (#[trigger] pairs[j]).0 == k && pairs[j].1 != removed
}

/// Takes the key of slot `removed` out of the map and lowers every slot
/// index above `removed` by one, so that the slot indices stay a gapless
/// run from zero.
pub(crate) fn remove_slot<K: Hash + Eq>(slots: &mut HashMap<K, usize>, order: Ghost<Seq<K>>, removed: usize) -> (key: K)
    requires
        obeys_key_model::<K>(),
        slots_agree(old(slots)@, order@),
        removed < order@.len(),
    ensures
        key == order@[removed as int],
        slots_agree(final(slots)@, order@.remove(removed as int)),
        forall|k: K| #[trigger]
            final(slots)@.contains_key(k) ==> old(slots)@.contains_key(k) && final(slots)@[k]
                == slot_after_removal(old(slots)@[k] as int, removed as int),
{
    let ghost before = slots@;
    let mut taken: HashMap<K, usize> = HashMap::new();
    std::mem::swap(slots, &mut taken);
    let mut pairs = into_pairs(taken);
    let ghost all = pairs@;
    let mut found: Option<K> = None;
    while pairs.len() > 0
        invariant
            obeys_key_model::<K>(),
            slots_agree(before, order@),
            removed < order@.len(),
            pairs_of(before, all),
            pairs@.len() <= all.len(),
            pairs@ == all.subrange(0, pairs@.len() as int),
            rebuilt(slots@, all, pairs@.len() as int, removed),
            slots@.len() == all.len() - pairs@.len() - (if found is Some {
                1int
            } else {
                0int
            }),
            found matches Some(k) ==> k == order@[removed as int] && exists|j: int|
                pairs@.len() <= j < all.len() && (#[trigger] all[j]).0 == k,
            found is None ==> forall|j: int| pairs@.len() <= j < all.len() ==> (#[trigger] all[j]).1 != removed,
        decreases pairs@.len(),
    {
        let ghost had = slots@;
        let ghost at = pairs@.len() - 1;
        let (key, slot) = pairs.pop().unwrap();
        proof {
            assert(all[at] == (key, slot));
            assert(before.contains_key(all[at].0));
            assert(pairs@ =~= all.subrange(0, at));
            if had.contains_key(key) {
                let j = choose|j: int| at + 1 <= j < all.len() && (#[trigger] all[j]).0 == key && all[j].1 != removed;
                assert(all[at].0 != all[j].0);
            }
        }
        if slot == removed {
            proof {
                assert(order@[before[key] as int] == key);
                if found is Some {
                    let k = found->0;
                    let j = choose|j: int| at + 1 <= j < all.len() && (#[trigger] all[j]).0 == k;
                    assert(all[at].0 != all[j].0);
                }
                assert(all[at].0 == key);
            }
            found = Some(key);
        } else {
            let moved: usize = if slot > removed {
                slot - 1
            } else {
                slot
            };
            slots.insert(key, moved);
            proof {
                if found is Some {
                    let k = found->0;
                    let j = choose|j: int| at + 1 <= j < all.len() && (#[trigger] all[j]).0 == k;
                    assert(all[j].0 == k);
                }
                assert forall|j: int| at <= j < all.len() && (#[trigger] all[j]).1 != removed implies slots@.contains_key(
                    all[j].0,
                ) && slots@[all[j].0] == slot_after_removal(all[j].1 as int, removed as int) by {
                    if j > at {
                        assert(had.contains_key(all[j].0));
                        assert(all[at].0 != all[j].0);
                    }
                }
                assert forall|k: K| #[trigger] slots@.contains_key(k) implies exists|j: int|
                    at <= j < all.len() && (#[trigger] all[j]).0 == k && all[j].1 != removed by {
                    if k == key {
                        assert(all[at].0 == k);
                    } else {
                        assert(had.contains_key(k));
                        let j = choose|j: int| at + 1 <= j < all.len() && (#[trigger] all[j]).0 == k && all[j].1 != removed;
                        assert(all[j].0 == k);
                    }
                }
            }
        }
        proof {
            if slot == removed {
                assert forall|k: K| #[trigger] slots@.contains_key(k) implies exists|j: int|
                    at <= j < all.len() && (#[trigger] all[j]).0 == k && all[j].1 != removed by {
                    let j = choose|j: int| at + 1 <= j < all.len() && (#[trigger] all[j]).0 == k && all[j].1 != removed;
                    assert(all[j].0 == k);
                }
            }
        }
    }
    proof {
        let order2 = order@.remove(removed as int);
        let gone = order@[removed as int];
        assert(before.contains_key(gone));
        assert(has_key(all, gone));
        let jg = choose|j: int| 0 <= j < all.len() && (#[trigger] all[j]).0 == gone;
        assert(all[jg].1 == removed);
        assert(found is Some);
        assert forall|i: int| 0 <= i < order2.len() implies slots@.contains_key(#[trigger] order2[i]) && slots@[order2[i]]
            == i by {
            let old_slot = if i < removed {
                i
            } else {
                i + 1
            };
            let k = order@[old_slot];
            assert(order2[i] == k);
            assert(before.contains_key(k));
            assert(has_key(all, k));
            let j = choose|j: int| 0 <= j < all.len() && (#[trigger] all[j]).0 == k;
            assert(all[j].1 == old_slot);
        }
        assert forall|k: K| #[trigger] slots@.contains_key(k) implies slots@[k] < order2.len() && order2[slots@[k] as int]
            == k && before.contains_key(k) && slots@[k] == slot_after_removal(before[k] as int, removed as int) by {
            let j = choose|j: int| 0 <= j < all.len() && (#[trigger] all[j]).0 == k && all[j].1 != removed;
            assert(before.contains_key(all[j].0));
            assert(order@[before[k] as int] == k);
        }
    }
    found.unwrap()
}

/// The keys of the map by slot index: the key at position `i` is the key
/// of slot `i`.
pub(crate) fn slot_keys<'t, K>(slots: &'t HashMap<K, usize>, order: Ghost<Seq<K>>) -> (keys: Vec<&'t K>)
    requires
        obeys_key_model::<K>(),
        slots_agree(slots@, order@),
    ensures
        keys@.len() == order@.len(),
        forall|i: int| 0 <= i < keys@.len() ==> *(#[trigger] keys@[i]) == order@[i],
{
    let n = slots.len();
    let ghost order = order@;
    let mut found: Vec<Option<&K>> = empty_places(n);
    for pair in it: slots.iter()
        invariant
            obeys_key_model::<K>(),
            n == order.len(),
            found@.len() == n,
            slots_agree(slots@, order),
            it.seq() == spec_hash_map_iter(slots).remaining(),
            forall|i: int| 0 <= i < n ==> ((#[trigger] found@[i]) matches Some(k) ==> *k == order[i]),
            forall|j: int|
                0 <= j < it.index() ==> 0 <= *(#[trigger] it.seq()[j]).1 < n && found@[*it.seq()[j].1 as int] is Some,
    {
        let (key, slot) = pair;
        proof {
            assert(pair == it.seq()[it.index()]);
            assert(slots@.contains_key(*key));
        }
        found[*slot] = Some(key);
    }
    proof {
        let pairs = spec_hash_map_iter(slots).remaining();
        assert forall|i: int| 0 <= i < n implies (#[trigger] found@[i]) is Some && *found@[i]->0 == order[i] by {
            assert(slots@.contains_key(order[i]));
            assert(pairs.contains((&order[i], &slots@[order[i]])));
            let j = choose|j: int| 0 <= j < pairs.len() && pairs[j] == (&order[i], &slots@[order[i]]);
            assert(*pairs[j].1 == i);
        }
    }
    let keys = take_all(found);
    keys
}

/// The pairs with their keys taken out of the references.
pub open spec fn owned_pairs<K>(pairs: Seq<(&K, usize)>) -> Seq<(K, usize)> {
    Seq::new(pairs.len(), |i: int| (*pairs[i].0, pairs[i].1))
}

/// The entries of the map in the order in which the map yields them: each
/// entry once, the order being the map's own.
pub fn pairs_in_map_order<'t, K>(slots: &'t HashMap<K, usize>) -> (pairs: Vec<(&'t K, usize)>)
    requires
        obeys_key_model::<K>(),
    ensures
        pairs_of(slots@, owned_pairs(pairs@)),
{
    let mut pairs: Vec<(&K, usize)> = Vec::with_capacity(slots.len());
    for pair in it: slots.iter()
        invariant
            obeys_key_model::<K>(),
            it.seq() == spec_hash_map_iter(slots).remaining(),
            it.seq().no_duplicates(),
            pairs@.len() == it.index(),
            forall|j: int| 0 <= j < it.index() ==> (#[trigger] pairs@[j]) == (it.seq()[j].0, *it.seq()[j].1),
    {
        let (key, slot) = pair;
        pairs.push((key, *slot));
    }
    proof {
        let seen = spec_hash_map_iter(slots).remaining();
        let owned = owned_pairs(pairs@);
        assert(slots@.dom().finite());
        assert forall|i: int| 0 <= i < owned.len() implies slots@.contains_key((#[trigger] owned[i]).0) && slots@[owned[i].0]
            == owned[i].1 by {
            assert(pairs@[i] == (seen[i].0, *seen[i].1));
            assert(slots@.contains_key(*seen[i].0));
        }
        assert forall|i: int, j: int| 0 <= i < j < owned.len() implies (#[trigger] owned[i]).0 != (#[trigger] owned[j]).0 by {
            assert(pairs@[i] == (seen[i].0, *seen[i].1));
            assert(pairs@[j] == (seen[j].0, *seen[j].1));
            assert(slots@.contains_key(*seen[i].0));
            assert(slots@.contains_key(*seen[j].0));
            if owned[i].0 == owned[j].0 {
                assert(seen[i] == seen[j]);
            }
        }
        assert forall|k: K| #[trigger] slots@.contains_key(k) implies has_key(owned, k) by {
            assert(seen.contains((&k, &slots@[k])));
            let j = choose|j: int| 0 <= j < seen.len() && seen[j] == (&k, &slots@[k]);
            assert(pairs@[j] == (seen[j].0, *seen[j].1));
            assert(owned[j].0 == k);
        }
    }
    pairs
}

/// Puts every value in a filled place, in order.
pub fn wrap_all<T>(values: Vec<T>) -> (places: Vec<Option<T>>)
    ensures
        places@.len() == values@.len(),
        forall|i: int| 0 <= i < values@.len() ==> (#[trigger] places@[i]) == Some(values@[i]),
{
    let mut places: Vec<Option<T>> = Vec::with_capacity(values.len());
    for value in it: values
        invariant
            it.seq() == values@,
            places@.len() == it.index(),
            forall|i: int| 0 <= i < it.index() ==> (#[trigger] places@[i]) == Some(values@[i]),
    {
        places.push(Some(value));
    }
    places
}

/// The slot index of the entry that the map yields first, or `None` where
/// the map is empty. Which entry comes first is the map's own choice.
pub fn first_slot<K>(slots: &HashMap<K, usize>) -> (r: Option<usize>)
    requires
        obeys_key_model::<K>(),
    ensures
        match r {
            Some(slot) => exists|k: K| #[trigger] slots@.contains_key(k) && slots@[k] == slot,
            None => slots@.len() == 0,
        },
{
    assert(slots@.dom().finite());
    for pair in it: slots.iter()
        invariant
            obeys_key_model::<K>(),
            it.seq() == spec_hash_map_iter(slots).remaining(),
            it.index() == 0,
    {
        proof {
            assert(pair == it.seq()[0]);
            assert(slots@.contains_key(*pair.0));
        }
        return Some(*pair.1);
    }
    None
}

/// The keys hold every key of `order` once, and nothing else.
pub open spec fn each_key_once<K>(keys: Seq<K>, order: Seq<K>) -> bool {
    &&& keys.len() == order.len()
    &&& keys.no_duplicates()
    &&& forall|i: int| 0 <= i < keys.len() ==> order.contains(#[trigger] keys[i])
    &&& forall|s: int| 0 <= s < order.len() ==> keys.contains(#[trigger] order[s])
}

/// The iterator of the map over its keys. It yields every column key once,
/// in the map's own order.
pub(crate) fn map_keys<'t, K>(slots: &'t HashMap<K, usize>, order: Ghost<Seq<K>>) -> (keys: Keys<'t, K, usize>)
    requires
        obeys_key_model::<K>(),
        slots_agree(slots@, order@),
    ensures
        each_key_once(IteratorSpec::remaining(&keys).unref(), order@),
{
    let keys = slots.keys();
    proof {
        lemma_slots_agree(slots@, order@);
        let seen = spec_keys_iter(slots).remaining();
        let plain = seen.unref();
        assert(plain.to_set() == slots@.dom());
        assert forall|i: int, j: int| 0 <= i < plain.len() && 0 <= j < plain.len() && i != j implies plain[i]
            != plain[j] by {
            assert(seen[i] != seen[j]);
        }
        assert forall|i: int| 0 <= i < plain.len() implies order@.contains(#[trigger] plain[i]) by {
            assert(plain.to_set().contains(plain[i]));
        }
        assert forall|s: int| 0 <= s < order@.len() implies plain.contains(#[trigger] order@[s]) by {
            assert(slots@.dom().contains(order@[s]));
            assert(plain.to_set().contains(order@[s]));
        }
    }
    keys
}

} // verus!
