//! The subvolume extent map: the extent set of every subvolume, by id.

use crate::extent::Extent;
use crate::extent_set::ExtentSet;
use std::collections::HashMap;
use vstd::prelude::*;
use vstd::std_specs::hash::*;
use vstd::std_specs::iter::IteratorSpec;

verus! {

broadcast use group_hash_axioms;

/// The extents that some subvolume other than `id` holds.
pub open spec fn union_of_others(map: Map<u64, Set<Extent>>, id: u64) -> Set<Extent> {
    Set::new(
        |e: Extent|
            exists|other: u64|
                other != id && map.contains_key(other) && #[trigger] map[other].contains(e),
    )
}

/// The extents that the subvolume `id` holds and no other subvolume does.
pub open spec fn exclusive_extents(map: Map<u64, Set<Extent>>, id: u64) -> Set<Extent> {
    map[id].difference(union_of_others(map, id))
}

/// A map of finitely many subvolumes, each with finitely many extents.
pub open spec fn finite_map(map: Map<u64, Set<Extent>>) -> bool {
    &&& map.dom().finite()
    &&& forall|id: u64| map.contains_key(id) ==> #[trigger] map[id].finite()
}

/// The extent set of every subvolume, by subvolume id. Its view is the
/// mathematical map from each id to the set of its extents.
#[derive(Debug)]
pub struct SubvolMap {
    sets: HashMap<u64, ExtentSet>,
}

impl View for SubvolMap {
    type V = Map<u64, Set<Extent>>;

    closed spec fn view(&self) -> Map<u64, Set<Extent>> {
        Map::new(|id: u64| self.sets@.contains_key(id), |id: u64| self.sets@[id]@)
    }
}

impl SubvolMap {
    /// Every subvolume map is finite, and so is each of its extent sets.
    pub proof fn lemma_finite(&self)
        ensures
            finite_map(self@),
    {
        assert(self@.dom() =~= self.sets@.dom());
        assert forall|id: u64| self@.contains_key(id) implies #[trigger] self@[id].finite() by {
            self.sets@[id].lemma_finite();
        }
    }

    /// The map of no subvolumes.
    pub fn new() -> (map: SubvolMap)
        ensures
            map@ == Map::<u64, Set<Extent>>::empty(),
    {
        let map = SubvolMap { sets: HashMap::new() };
        assert(map@ =~= Map::<u64, Set<Extent>>::empty());
        map
    }

    /// Gives the subvolume `id` this extent set, in place of any it had.
    pub fn insert(&mut self, id: u64, extents: ExtentSet)
        ensures
            final(self)@ == old(self)@.insert(id, extents@),
    {
        self.sets.insert(id, extents);
        assert(self@ =~= old(self)@.insert(id, extents@));
    }

    /// Whether the map holds the subvolume `id`.
    pub fn contains(&self, id: u64) -> (held: bool)
        ensures
            held == self@.contains_key(id),
    {
        self.sets.contains_key(&id)
    }

    /// The extent set of the subvolume `id`, if the map holds it.
    pub fn get(&self, id: u64) -> (found: Option<&ExtentSet>)
        ensures
            match found {
                Some(extents) => self@.contains_key(id) && extents@ == self@[id],
                None => !self@.contains_key(id),
            },
    {
        self.sets.get(&id)
    }

    /// How many subvolumes the map holds.
    pub fn len(&self) -> (n: usize)
        ensures
            n == self@.dom().len(),
    {
        assert(self@.dom() =~= self.sets@.dom());
        self.sets.len()
    }

    /// The ids of the subvolumes in the map, each once, in no particular
    /// order.
    pub fn ids(&self) -> (ids: Vec<u64>)
        ensures
            ids@.no_duplicates(),
            ids@.to_set() == self@.dom(),
    {
        let mut ids: Vec<u64> = Vec::new();
        let ghost keys = spec_keys_iter(&self.sets).remaining().unref();
        for id in it: self.sets.keys()
            invariant
                it.seq().unref() == keys,
                ids@ == keys.take(it.index()),
        {
            proof {
                assert(keys.take(it.index() + 1) =~= keys.take(it.index()).push(*id));
            }
            ids.push(*id);
        }
        proof {
            assert(keys.take(keys.len() as int) =~= keys);
            assert(self@.dom() =~= self.sets@.dom());
        }
        ids
    }

    /// The union of the extent sets of every subvolume but `id`.
    pub fn others_of(&self, id: u64) -> (others: ExtentSet)
        ensures
            others@ == union_of_others(self@, id),
    {
        let mut others = ExtentSet::new();
        let ghost pairs = spec_hash_map_iter(&self.sets).remaining();
        let ghost mut seen: int = 0;
        for pair in it: self.sets.iter()
            invariant
                it.seq() == pairs,
                seen == it.index(),
                0 <= seen <= pairs.len(),
                forall|e: Extent|
                    others@.contains(e) <==> exists|j: int|
                        0 <= j < seen && *pairs[j].0 != id && (#[trigger] pairs[j]).1@.contains(e),
        {
            let ghost before = others@;
            if *pair.0 != id {
                others.absorb(pair.1);
            }
            proof {
                assert(pair == pairs[seen]);
                assert forall|e: Extent|
                    others@.contains(e) <==> exists|j: int|
                        0 <= j < seen + 1 && *pairs[j].0 != id && (#[trigger] pairs[j]).1@.contains(
                            e,
                        ) by {
                    if others@.contains(e) {
                        if before.contains(e) {
                            let j = choose|j: int|
                                0 <= j < seen && *pairs[j].0 != id && (#[trigger] pairs[j]).1@.contains(
                                    e,
                                );
                            assert(0 <= j < seen + 1 && *pairs[j].0 != id && pairs[j].1@.contains(
                                e,
                            ));
                        } else {
                            assert(*pairs[seen].0 != id && pairs[seen].1@.contains(e));
                        }
                    }
                    if exists|j: int|
                        0 <= j < seen + 1 && *pairs[j].0 != id && (#[trigger] pairs[j]).1@.contains(
                            e,
                        ) {
                        let j = choose|j: int|
                            0 <= j < seen + 1 && *pairs[j].0 != id && (#[trigger] pairs[j]).1@.contains(
                                e,
                            );
                        if j < seen {
                            assert(before.contains(e));
                        }
                    }
                }
                seen = seen + 1;
            }
        }
        proof {
            let m = self.sets@;
            assert forall|e: Extent| others@.contains(e) <==> union_of_others(self@, id).contains(
                e,
            ) by {
                if others@.contains(e) {
                    let j = choose|j: int|
                        0 <= j < seen && *pairs[j].0 != id && (#[trigger] pairs[j]).1@.contains(e);
                    let other = *pairs[j].0;
                    assert(m.contains_key(other) && m[other] == *pairs[j].1);
                    assert(self@.contains_key(other) && self@[other].contains(e));
                }
                if union_of_others(self@, id).contains(e) {
                    let other = choose|other: u64|
                        other != id && self@.contains_key(other) && #[trigger] self@[other].contains(
                            e,
                        );
                    assert(m.contains_key(other));
                    assert(pairs.contains((&other, &m[other])));
                    let j = choose|j: int| 0 <= j < pairs.len() && pairs[j] == (&other, &m[other]);
                    assert(*pairs[j].0 != id && pairs[j].1@.contains(e));
                }
            }
            assert(others@ =~= union_of_others(self@, id));
        }
        others
    }
}

} // verus!
