//! A walk over the columns of a table in the order in which the map from
//! column key to slot index yields them. That order is the map's own and
//! says nothing of the slot order.

use crate::model::has_key;
use crate::slots::{lemma_slots_agree, owned_pairs, pairs_in_map_order, pairs_of, slots_agree};
use std::collections::HashMap;
use vstd::prelude::*;
use vstd::std_specs::hash::obeys_key_model;

verus! {

/// Every pair holds a column key of `order` with its slot index, and no key
/// occurs twice.
pub open spec fn pairs_walk<K>(pairs: Seq<(K, usize)>, order: Seq<K>) -> bool {
    &&& forall|i: int|
        0 <= i < pairs.len() ==> (#[trigger] pairs[i]).1 < order.len() && order[pairs[i].1 as int]
            == pairs[i].0
    &&& forall|i: int, j: int|
        0 <= i < j < pairs.len() ==> (#[trigger] pairs[i]).1 != (#[trigger] pairs[j]).1
}

/// Every column key of `order` is among the pairs.
pub open spec fn pairs_cover<K>(pairs: Seq<(K, usize)>, order: Seq<K>) -> bool {
    &&& pairs.len() == order.len()
    &&& forall|s: int| 0 <= s < order.len() ==> has_key(pairs, #[trigger] order[s])
}

/// Without its first pair a walk is still a walk.
pub proof fn lemma_pairs_walk_rest<K>(pairs: Seq<(K, usize)>, order: Seq<K>)
    requires
        pairs_walk(pairs, order),
        pairs.len() > 0,
    ensures
        pairs_walk(pairs.drop_first(), order),
        forall|i: int| 0 <= i < pairs.len() - 1 ==> (#[trigger] pairs.drop_first()[i]).1 != pairs[0].1,
{
    let rest = pairs.drop_first();
    assert forall|i: int| 0 <= i < rest.len() implies (#[trigger] rest[i]).1 < order.len() && order[rest[i].1 as int]
        == rest[i].0 by {
        assert(rest[i] == pairs[i + 1]);
    }
    assert forall|i: int, j: int| 0 <= i < j < rest.len() implies (#[trigger] rest[i]).1 != (#[trigger] rest[j]).1 by {
        assert(rest[i] == pairs[i + 1]);
        assert(rest[j] == pairs[j + 1]);
    }
    assert forall|i: int| 0 <= i < pairs.len() - 1 implies (#[trigger] rest[i]).1 != pairs[0].1 by {
        assert(rest[i] == pairs[i + 1]);
    }
}

/// The entries of a slot map, each once, are a walk over all its columns.
pub proof fn lemma_pairs_of_walk<K>(slots: Map<K, usize>, order: Seq<K>, pairs: Seq<(K, usize)>)
    requires
        slots_agree(slots, order),
        pairs_of(slots, pairs),
    ensures
        pairs_walk(pairs, order),
        pairs_cover(pairs, order),
{
    lemma_slots_agree(slots, order);
    assert forall|i: int, j: int| 0 <= i < j < pairs.len() implies (#[trigger] pairs[i]).1 != (#[trigger] pairs[j]).1 by {
        assert(slots.contains_key(pairs[i].0));
        assert(slots.contains_key(pairs[j].0));
    }
    assert forall|i: int| 0 <= i < pairs.len() implies (#[trigger] pairs[i]).1 < order.len() && order[pairs[i].1 as int]
        == pairs[i].0 by {
        assert(slots.contains_key(pairs[i].0));
    }
    assert forall|s: int| 0 <= s < order.len() implies has_key(pairs, #[trigger] order[s]) by {
        assert(slots.contains_key(order[s]));
    }
}

/// The columns of a table still to be visited, as `(key, slot)` pairs.
pub struct ColumnWalk<'t, K> {
    pairs: Vec<(&'t K, usize)>,
    pos: usize,
}

impl<'t, K> ColumnWalk<'t, K> {
    /// The `(key, slot)` pairs still to come, in the order in which they
    /// will come.
    pub closed spec fn upcoming(&self) -> Seq<(K, usize)> {
        owned_pairs(self.pairs@).subrange(self.pos as int, self.pairs@.len() as int)
    }

    /// The position lies inside the walk.
    pub closed spec fn wf(&self) -> bool {
        self.pos <= self.pairs@.len()
    }

    /// Starts a walk over all columns of the map.
    pub(crate) fn new(slots: &'t HashMap<K, usize>, order: Ghost<Seq<K>>) -> (walk: Self)
        requires
            obeys_key_model::<K>(),
            slots_agree(slots@, order@),
        ensures
            walk.wf(),
            pairs_walk(walk.upcoming(), order@),
            pairs_cover(walk.upcoming(), order@),
    {
        let pairs = pairs_in_map_order(slots);
        let walk = ColumnWalk { pairs, pos: 0 };
        proof {
            let all = owned_pairs(pairs@);
            assert(walk.upcoming() =~= all);
            lemma_slots_agree(slots@, order@);
            assert forall|i: int, j: int| 0 <= i < j < all.len() implies (#[trigger] all[i]).1 != (#[trigger] all[j]).1 by {
                assert(slots@.contains_key(all[i].0));
                assert(slots@.contains_key(all[j].0));
            }
            assert forall|i: int| 0 <= i < all.len() implies (#[trigger] all[i]).1 < order@.len() && order@[all[i].1 as int]
                == all[i].0 by {
                assert(slots@.contains_key(all[i].0));
            }
            assert forall|s: int| 0 <= s < order@.len() implies has_key(all, #[trigger] order@[s]) by {
                assert(slots@.contains_key(order@[s]));
            }
        }
        walk
    }

    /// The number of columns still to come.
    pub fn len(&self) -> (n: usize)
        requires
            self.wf(),
        ensures
            n == self.upcoming().len(),
    {
        self.pairs.len() - self.pos
    }

    /// The next column of the walk with its slot index, or `None` where all
    /// columns have been visited.
    pub fn next(&mut self) -> (r: Option<(&'t K, usize)>)
        requires
            old(self).wf(),
        ensures
            final(self).wf(),
            match r {
                Some(pair) => old(self).upcoming().len() > 0 && (*pair.0, pair.1) == old(self).upcoming()[0]
                    && final(self).upcoming() == old(self).upcoming().drop_first(),
                None => old(self).upcoming().len() == 0 && final(self).upcoming() == old(self).upcoming(),
            },
    {
        if self.pos < self.pairs.len() {
            let pair = self.pairs[self.pos];
            self.pos = self.pos + 1;
            proof {
                assert(self.upcoming() =~= old(self).upcoming().drop_first());
            }
            Some(pair)
        } else {
            None
        }
    }
}

impl<'t, K> Clone for ColumnWalk<'t, K> {
    fn clone(&self) -> (walk: Self)
        ensures
            walk.wf() == self.wf(),
            walk.upcoming() == self.upcoming(),
    {
        let mut pairs: Vec<(&'t K, usize)> = Vec::with_capacity(self.pairs.len());
        let mut i: usize = 0;
        while i < self.pairs.len()
            invariant
                i <= self.pairs@.len(),
                pairs@ == self.pairs@.subrange(0, i as int),
            decreases self.pairs@.len() - i,
        {
            pairs.push(self.pairs[i]);
            proof {
                assert(pairs@ =~= self.pairs@.subrange(0, i + 1));
            }
            i = i + 1;
        }
        proof {
            assert(pairs@ =~= self.pairs@);
        }
        ColumnWalk { pairs, pos: self.pos }
    }
}

} // verus!
