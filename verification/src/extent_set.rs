//! A set of extent identities, held in a hash set of packed keys.

use crate::extent::{lemma_total_empty, lemma_total_insert, total_length, Extent};
use std::collections::HashSet;
use vstd::prelude::*;
use vstd::std_specs::hash::*;
use vstd::std_specs::iter::IteratorSpec;

verus! {

broadcast use group_hash_axioms;

/// Two to the power 64: the weight of the offset in a packed key.
const KEY_RADIX: u128 = 0x1_0000_0000_0000_0000;

/// The extent packed into one 128-bit key, offset in the high half.
spec fn key_of(e: Extent) -> u128 {
    (e.disk_offset as u128 * KEY_RADIX + e.length as u128) as u128
}

/// The extent that a packed key stands for.
spec fn extent_of(k: u128) -> Extent {
    Extent { disk_offset: (k / KEY_RADIX) as u64, length: (k % KEY_RADIX) as u64 }
}

/// Packing loses nothing: every extent comes back from its key, and every
/// key is the key of the extent it unpacks to.
proof fn lemma_key_bijective()
    ensures
        forall|e: Extent| #[trigger] extent_of(key_of(e)) == e,
        forall|k: u128| #[trigger] key_of(extent_of(k)) == k,
{
}

fn pack(e: &Extent) -> (k: u128)
    ensures
        k == key_of(*e),
{
    (e.disk_offset as u128) * KEY_RADIX + (e.length as u128)
}

fn unpack(k: u128) -> (e: Extent)
    ensures
        e == extent_of(k),
{
    Extent { disk_offset: (k / KEY_RADIX) as u64, length: (k % KEY_RADIX) as u64 }
}

/// The extents whose packed keys a set of keys holds.
spec fn extents_of_keys(keys: Set<u128>) -> Set<Extent> {
    Set::new(|e: Extent| keys.contains(key_of(e)))
}

/// The length of the extent behind a key, or nothing where `skip` holds it.
spec fn counted_length(k: u128, skip: Set<Extent>) -> nat {
    if skip.contains(extent_of(k)) {
        0
    } else {
        extent_of(k).length as nat
    }
}

/// The lengths behind a sequence of keys, added up in order, leaving out
/// the extents that `skip` holds.
spec fn keys_total(keys: Seq<u128>, skip: Set<Extent>) -> nat
    decreases keys.len(),
{
    if keys.len() == 0 {
        0
    } else {
        keys_total(keys.drop_last(), skip) + counted_length(keys.last(), skip)
    }
}

proof fn lemma_extents_of_keys_finite(keys: Set<u128>)
    requires
        keys.finite(),
    ensures
        extents_of_keys(keys).finite(),
        extents_of_keys(keys).len() == keys.len(),
{
    lemma_key_bijective();
    let f = |k: u128| extent_of(k);
    assert forall|e: Extent| extents_of_keys(keys).contains(e) implies keys.map(f).contains(
        e,
    ) by {
        assert(keys.contains(key_of(e)) && f(key_of(e)) == e);
    }
    assert(keys.map(f) =~= extents_of_keys(keys));
    assert(vstd::relations::injective_on(f, keys)) by {
        assert forall|a: u128, b: u128| #[trigger] f(a) == #[trigger] f(b) implies a == b by {
            assert(key_of(extent_of(a)) == a);
            assert(key_of(extent_of(b)) == b);
        }
    }
    vstd::set_lib::lemma_map_size(keys, extents_of_keys(keys), f);
}

/// Added up over keys that are all different, the lengths come to the
/// bytes of the set that the keys stand for, less what `skip` holds.
proof fn lemma_keys_total(keys: Seq<u128>, skip: Set<Extent>)
    requires
        keys.no_duplicates(),
    ensures
        keys_total(keys, skip) == total_length(extents_of_keys(keys.to_set()).difference(skip)),
    decreases keys.len(),
{
    lemma_key_bijective();
    if keys.len() == 0 {
        assert(extents_of_keys(keys.to_set()).difference(skip) =~= Set::<Extent>::empty());
        lemma_total_empty();
    } else {
        let rest = keys.drop_last();
        let k = keys.last();
        let e = extent_of(k);
        lemma_keys_total(rest, skip);
        let before = extents_of_keys(rest.to_set()).difference(skip);
        let after = extents_of_keys(keys.to_set()).difference(skip);
        vstd::seq_lib::seq_to_set_is_finite(rest);
        lemma_extents_of_keys_finite(rest.to_set());
        assert(!rest.to_set().contains(k)) by {
            if rest.to_set().contains(k) {
                let i = choose|i: int| 0 <= i < rest.len() && rest[i] == k;
                assert(keys[i] == keys[keys.len() - 1]);
            }
        }
        assert forall|x: u128| keys.to_set().contains(x) <==> (x == k || rest.to_set().contains(
            x,
        )) by {
            if keys.to_set().contains(x) {
                let i = choose|i: int| 0 <= i < keys.len() && keys[i] == x;
                if i < rest.len() {
                    assert(rest[i] == x);
                }
            }
            if rest.to_set().contains(x) {
                let i = choose|i: int| 0 <= i < rest.len() && rest[i] == x;
                assert(keys[i] == x);
            }
            assert(keys[keys.len() - 1] == k);
        }
        if skip.contains(e) {
            assert(after =~= before);
        } else {
            assert(after =~= before.insert(e));
            lemma_total_insert(before, e);
        }
    }
}

proof fn lemma_unref_no_duplicates(keys: Seq<&u128>)
    requires
        keys.no_duplicates(),
    ensures
        keys.unref().no_duplicates(),
{
}

/// A set of extent identities. Its view is the mathematical set of the
/// extents it holds.
#[derive(Debug)]
pub struct ExtentSet {
    keys: HashSet<u128>,
}

impl View for ExtentSet {
    type V = Set<Extent>;

    closed spec fn view(&self) -> Set<Extent> {
        extents_of_keys(self.keys@)
    }
}

impl ExtentSet {
    proof fn lemma_keys(&self)
        ensures
            self.keys@.finite(),
            self.keys@.len() <= usize::MAX,
            self@.finite(),
            self@.len() == self.keys@.len(),
    {
        let remaining = spec_hash_keys_iter(&self.keys).remaining();
        assert(remaining.unref().to_set() == self.keys@);
        vstd::seq_lib::seq_to_set_is_finite(remaining.unref());
        lemma_extents_of_keys_finite(self.keys@);
        assert(spec_hash_set_len(&self.keys) == self.keys@.len());
    }

    /// Every extent set is finite, and holds no more extents than a
    /// `usize` can count.
    pub proof fn lemma_finite(&self)
        ensures
            self@.finite(),
            self@.len() <= usize::MAX,
    {
        self.lemma_keys();
    }

    /// The empty set.
    pub fn new() -> (set: ExtentSet)
        ensures
            set@ == Set::<Extent>::empty(),
    {
        let set = ExtentSet { keys: HashSet::new() };
        assert(set@ =~= Set::<Extent>::empty());
        set
    }

    /// Adds an extent; says whether it was new to the set.
    pub fn insert(&mut self, extent: Extent) -> (fresh: bool)
        ensures
            final(self)@ == old(self)@.insert(extent),
            fresh == !old(self)@.contains(extent),
    {
        proof {
            lemma_key_bijective();
        }
        let fresh = self.keys.insert(pack(&extent));
        assert(self@ =~= old(self)@.insert(extent));
        fresh
    }

    /// Takes an extent out; says whether the set held it.
    pub fn remove(&mut self, extent: &Extent) -> (held: bool)
        ensures
            final(self)@ == old(self)@.remove(*extent),
            held == old(self)@.contains(*extent),
    {
        proof {
            lemma_key_bijective();
        }
        let key = pack(extent);
        let held = self.keys.remove(&key);
        assert(self@ =~= old(self)@.remove(*extent));
        held
    }

    /// Whether the set holds this extent.
    pub fn contains(&self, extent: &Extent) -> (held: bool)
        ensures
            held == self@.contains(*extent),
    {
        let key = pack(extent);
        self.keys.contains(&key)
    }

    /// How many extents the set holds.
    pub fn len(&self) -> (n: usize)
        ensures
            n == self@.len(),
    {
        proof {
            self.lemma_keys();
        }
        self.keys.len()
    }

    /// Whether the set holds nothing.
    pub fn is_empty(&self) -> (empty: bool)
        ensures
            empty == (self@ == Set::<Extent>::empty()),
    {
        proof {
            lemma_key_bijective();
            if self.keys@.is_empty() {
                assert(self@ =~= Set::<Extent>::empty());
            } else {
                let k = choose|k: u128| self.keys@.contains(k);
                assert(self.keys@.contains(k));
                assert(self@.contains(extent_of(k)));
            }
        }
        self.keys.is_empty()
    }

    /// The bytes that the set holds: the sum of its extents' lengths.
    ///
    /// The total is a `u128`: at most `usize::MAX` lengths of 64 bits each
    /// never add up to more, so the sum is exact for every set.
    pub fn total_bytes(&self) -> (bytes: u128)
        ensures
            bytes == total_length(self@),
    {
        let mut sum: u128 = 0;
        let ghost keys = spec_hash_keys_iter(&self.keys).remaining().unref();
        let ghost mut seen: int = 0;
        proof {
            self.lemma_keys();
        }
        for key in it: self.keys.iter()
            invariant
                it.seq().unref() == keys,
                keys.len() <= usize::MAX,
                seen == it.index(),
                sum == keys_total(keys.take(seen), Set::empty()),
                0 <= seen <= keys.len(),
                sum <= seen * u64::MAX,
        {
            let extent = unpack(*key);
            proof {
                assert(keys.take(seen + 1).drop_last() =~= keys.take(seen));
                assert(keys.take(seen + 1).last() == *key);
                seen = seen + 1;
            }
            sum = sum + extent.length as u128;
        }
        proof {
            assert(keys.take(keys.len() as int) =~= keys);
            lemma_unref_no_duplicates(spec_hash_keys_iter(&self.keys).remaining());
            lemma_keys_total(keys, Set::empty());
            assert(self@.difference(Set::empty()) =~= self@);
        }
        sum
    }

    /// The bytes of the extents that this set holds and `others` does not.
    pub fn exclusive_bytes(&self, others: &ExtentSet) -> (bytes: u128)
        ensures
            bytes == total_length(self@.difference(others@)),
    {
        let mut sum: u128 = 0;
        let ghost keys = spec_hash_keys_iter(&self.keys).remaining().unref();
        let ghost mut seen: int = 0;
        proof {
            self.lemma_keys();
        }
        for key in it: self.keys.iter()
            invariant
                it.seq().unref() == keys,
                keys.len() <= usize::MAX,
                seen == it.index(),
                sum == keys_total(keys.take(seen), others@),
                0 <= seen <= keys.len(),
                sum <= seen * u64::MAX,
        {
            let extent = unpack(*key);
            proof {
                assert(keys.take(seen + 1).drop_last() =~= keys.take(seen));
                assert(keys.take(seen + 1).last() == *key);
                seen = seen + 1;
            }
            if !others.contains(&extent) {
                sum = sum + extent.length as u128;
            }
        }
        proof {
            assert(keys.take(keys.len() as int) =~= keys);
            lemma_unref_no_duplicates(spec_hash_keys_iter(&self.keys).remaining());
            lemma_keys_total(keys, others@);
        }
        sum
    }

    /// Adds every extent of `other` to this set.
    pub fn absorb(&mut self, other: &ExtentSet)
        ensures
            final(self)@ == old(self)@.union(other@),
    {
        let ghost keys = spec_hash_keys_iter(&other.keys).remaining().unref();
        let ghost mut seen: int = 0;
        for key in it: other.keys.iter()
            invariant
                it.seq().unref() == keys,
                seen == it.index(),
                self.keys@ == old(self).keys@.union(keys.take(seen).to_set()),
        {
            proof {
                assert(keys.take(seen + 1) =~= keys.take(seen).push(*key));
                keys.take(seen).lemma_push_to_set_commute(*key);
                seen = seen + 1;
            }
            self.keys.insert(*key);
        }
        proof {
            assert(keys.take(keys.len() as int) =~= keys);
            assert(self@ =~= old(self)@.union(other@));
        }
    }
}

} // verus!
