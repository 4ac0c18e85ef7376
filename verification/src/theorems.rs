//! What holds of the accounting, for every map of subvolumes.

use crate::extent::{
    lemma_total_split, lemma_total_subset, lemma_total_zero, total_length, Extent,
};
use crate::record::{extents_in, Record};
use crate::subvol_map::{exclusive_extents, finite_map, union_of_others};
use crate::targeted::ComparisonView;
use crate::usage::{exclusive_of, total_of};
use vstd::prelude::*;

verus! {

/// The step of a sum over subvolumes: one more subvolume adds its share.
pub open spec fn add_share(share: spec_fn(u64) -> nat) -> spec_fn(nat, u64) -> nat {
    |sum: nat, id: u64| sum + share(id)
}

/// The shares of a set of subvolumes, added up.
pub open spec fn sum_over(ids: Set<u64>, share: spec_fn(u64) -> nat) -> nat {
    ids.fold(0nat, add_share(share))
}

/// The total bytes of all subvolumes of a map, added up.
pub open spec fn sum_of_totals(map: Map<u64, Set<Extent>>) -> nat {
    sum_over(map.dom(), |id: u64| total_of(map, id))
}

/// The exclusive bytes of all subvolumes of a map, added up.
pub open spec fn sum_of_exclusives(map: Map<u64, Set<Extent>>) -> nat {
    sum_over(map.dom(), |id: u64| exclusive_of(map, id))
}

/// Whether two different subvolumes of the map both hold the extent.
pub open spec fn is_shared(map: Map<u64, Set<Extent>>, e: Extent) -> bool {
    exists|a: u64, b: u64|
        a != b && map.contains_key(a) && map.contains_key(b) && #[trigger] map[a].contains(e)
            && #[trigger] map[b].contains(e)
}

/// Whether no extent is shared between subvolumes of the map.
pub open spec fn nothing_shared(map: Map<u64, Set<Extent>>) -> bool {
    forall|e: Extent| !is_shared(map, e)
}

/// Whether sharing, where there is any, shows in the byte counts: some
/// shared extent has a length above zero.
pub open spec fn sharing_shows(map: Map<u64, Set<Extent>>) -> bool {
    nothing_shared(map) || exists|e: Extent| is_shared(map, e) && e.length > 0
}

proof fn lemma_sum_over_step(ids: Set<u64>, share: spec_fn(u64) -> nat, id: u64)
    requires
        ids.finite(),
        ids.contains(id),
    ensures
        sum_over(ids, share) == sum_over(ids.remove(id), share) + share(id),
{
    assert(vstd::set::fold::is_fun_commutative(add_share(share)));
    assert(ids.remove(id).insert(id) =~= ids);
    vstd::set::fold::lemma_fold_insert(ids.remove(id), 0nat, add_share(share), id);
}

/// Where each share is no larger than another share, neither is the sum;
/// and the sums agree exactly when every pair of shares agrees.
proof fn lemma_sum_over_compare(
    ids: Set<u64>,
    small: spec_fn(u64) -> nat,
    large: spec_fn(u64) -> nat,
)
    requires
        ids.finite(),
        forall|id: u64| ids.contains(id) ==> small(id) <= large(id),
    ensures
        sum_over(ids, small) <= sum_over(ids, large),
        sum_over(ids, small) == sum_over(ids, large) <==> forall|id: u64|
            ids.contains(id) ==> small(id) == large(id),
    decreases ids.len(),
{
    if ids.len() == 0 {
        assert(ids =~= Set::<u64>::empty());
        vstd::set::fold::lemma_fold_empty(0nat, add_share(small));
        vstd::set::fold::lemma_fold_empty(0nat, add_share(large));
    } else {
        let id = ids.choose();
        lemma_sum_over_step(ids, small, id);
        lemma_sum_over_step(ids, large, id);
        lemma_sum_over_compare(ids.remove(id), small, large);
        if sum_over(ids, small) == sum_over(ids, large) {
            assert forall|other: u64| ids.contains(other) implies small(other) == large(other) by {
                if other != id {
                    assert(ids.remove(id).contains(other));
                }
            }
        }
    }
}

/// Conservation: a subvolume's exclusive bytes never exceed its total
/// bytes.
pub proof fn conservation(map: Map<u64, Set<Extent>>, id: u64)
    requires
        finite_map(map),
        map.contains_key(id),
    ensures
        exclusive_of(map, id) <= total_of(map, id),
{
    lemma_total_subset(exclusive_extents(map, id), map[id]);
}

/// A subvolume's exclusive bytes are all its bytes exactly when each
/// extent that it shares with another subvolume has length zero.
proof fn lemma_all_exclusive(map: Map<u64, Set<Extent>>, id: u64)
    requires
        finite_map(map),
        map.contains_key(id),
    ensures
        exclusive_of(map, id) == total_of(map, id) <==> forall|e: Extent|
            map[id].contains(e) && union_of_others(map, id).contains(e) ==> e.length == 0,
{
    let others = union_of_others(map, id);
    let shared = map[id].intersect(others);
    assert(map[id].finite());
    lemma_total_split(map[id], others);
    lemma_total_zero(shared);
    if exclusive_of(map, id) == total_of(map, id) {
        assert forall|e: Extent| map[id].contains(e) && others.contains(e) implies e.length
            == 0 by {
            assert(shared.contains(e));
        }
    }
}

/// The union bound: added up over all subvolumes, the exclusive bytes
/// never exceed the total bytes.
pub proof fn union_bound(map: Map<u64, Set<Extent>>)
    requires
        finite_map(map),
    ensures
        sum_of_exclusives(map) <= sum_of_totals(map),
{
    let small = |id: u64| exclusive_of(map, id);
    let large = |id: u64| total_of(map, id);
    assert forall|id: u64| map.dom().contains(id) implies small(id) <= large(id) by {
        conservation(map, id);
    }
    lemma_sum_over_compare(map.dom(), small, large);
}

/// The two sums of the union bound agree exactly when every extent that
/// two subvolumes share has length zero.
pub proof fn union_bound_is_tight(map: Map<u64, Set<Extent>>)
    requires
        finite_map(map),
    ensures
        sum_of_exclusives(map) == sum_of_totals(map) <==> forall|e: Extent|
            is_shared(map, e) ==> e.length == 0,
{
    let small = |id: u64| exclusive_of(map, id);
    let large = |id: u64| total_of(map, id);
    assert forall|id: u64| map.dom().contains(id) implies small(id) <= large(id) by {
        conservation(map, id);
    }
    lemma_sum_over_compare(map.dom(), small, large);
    if sum_of_exclusives(map) == sum_of_totals(map) {
        assert forall|e: Extent| is_shared(map, e) implies e.length == 0 by {
            let (a, b) = choose|a: u64, b: u64|
                a != b && map.contains_key(a) && map.contains_key(b) && #[trigger] map[a].contains(
                    e,
                ) && #[trigger] map[b].contains(e);
            assert(small(a) == large(a));
            lemma_all_exclusive(map, a);
            assert(union_of_others(map, a).contains(e));
        }
    }
    if forall|e: Extent| is_shared(map, e) ==> e.length == 0 {
        assert forall|id: u64| map.dom().contains(id) implies small(id) == large(id) by {
            lemma_all_exclusive(map, id);
            assert forall|e: Extent|
                map[id].contains(e) && union_of_others(map, id).contains(e) implies e.length
                == 0 by {
                let other = choose|other: u64|
                    other != id && map.contains_key(other) && #[trigger] map[other].contains(e);
                assert(map[id].contains(e) && map[other].contains(e));
                assert(is_shared(map, e));
            }
        }
    }
}

/// The union bound holds with equality exactly when no extent is shared
/// between subvolumes. This is stated of the maps in which sharing shows:
/// an extent of length zero can be shared without moving any byte count.
pub proof fn union_bound_equality(map: Map<u64, Set<Extent>>)
    requires
        finite_map(map),
        sharing_shows(map),
    ensures
        sum_of_exclusives(map) == sum_of_totals(map) <==> nothing_shared(map),
{
    union_bound_is_tight(map);
}

/// Idempotence: the usage of a subvolume depends on nothing but which
/// extents each subvolume holds. Two runs that collect the same extents
/// for the same subvolumes report the same bytes.
pub proof fn idempotence(first: Map<u64, Set<Extent>>, second: Map<u64, Set<Extent>>, id: u64)
    requires
        forall|other: u64| first.contains_key(other) <==> second.contains_key(other),
        forall|other: u64, e: Extent|
            first.contains_key(other) ==> (first[other].contains(e) <==> second[other].contains(
                e,
            )),
        first.contains_key(id),
    ensures
        total_of(first, id) == total_of(second, id),
        exclusive_of(first, id) == exclusive_of(second, id),
{
    assert(first[id] =~= second[id]);
    assert(union_of_others(first, id) =~= union_of_others(second, id)) by {
        assert forall|e: Extent| union_of_others(first, id).contains(e) <==> union_of_others(
            second,
            id,
        ).contains(e) by {
            if union_of_others(first, id).contains(e) {
                let other = choose|other: u64|
                    other != id && first.contains_key(other) && #[trigger] first[other].contains(
                        e,
                    );
                assert(second[other].contains(e));
            }
            if union_of_others(second, id).contains(e) {
                let other = choose|other: u64|
                    other != id && second.contains_key(other) && #[trigger] second[other].contains(
                        e,
                    );
                assert(first[other].contains(e));
            }
        }
    }
}

/// Isolation: a subvolume that shares no extent with any other has all
/// its bytes to itself.
pub proof fn isolation(map: Map<u64, Set<Extent>>, id: u64)
    requires
        finite_map(map),
        map.contains_key(id),
        forall|other: u64|
            other != id && map.contains_key(other) ==> (#[trigger] map[other]).disjoint(map[id]),
    ensures
        exclusive_of(map, id) == total_of(map, id),
{
    assert forall|e: Extent| map[id].contains(e) implies !union_of_others(map, id).contains(e) by {
        if union_of_others(map, id).contains(e) {
            let other = choose|other: u64|
                other != id && map.contains_key(other) && #[trigger] map[other].contains(e);
            assert(map[other].disjoint(map[id]));
        }
    }
    assert(exclusive_extents(map, id) =~= map[id]);
}

/// Full sharing: a subvolume all of whose extents every other subvolume
/// holds too has no bytes to itself. This is stated of the maps that
/// hold another subvolume, and of subvolumes without bytes: a
/// subvolume that is alone shares nothing.
pub proof fn full_sharing(map: Map<u64, Set<Extent>>, id: u64)
    requires
        finite_map(map),
        map.contains_key(id),
        forall|other: u64|
            other != id && map.contains_key(other) ==> map[id].subset_of(#[trigger] map[other]),
        total_of(map, id) == 0 || exists|other: u64| other != id && map.contains_key(other),
    ensures
        exclusive_of(map, id) == 0,
{
    if exists|other: u64| other != id && map.contains_key(other) {
        let other = choose|other: u64| other != id && map.contains_key(other);
        assert forall|e: Extent| map[id].contains(e) implies union_of_others(map, id).contains(
            e,
        ) by {
            assert(map[id].subset_of(map[other]));
            assert(map[other].contains(e));
        }
        assert(exclusive_extents(map, id) =~= Set::<Extent>::empty());
        crate::extent::lemma_total_empty();
    } else {
        conservation(map, id);
    }
}

/// Whether one of `trees`, other than the target's own, holds the extent.
pub open spec fn held_by_another(target: u64, trees: Seq<(u64, Seq<Record>)>, e: Extent) -> bool {
    exists|i: int|
        0 <= i < trees.len() && (#[trigger] trees[i]).0 != target && extents_in(
            trees[i].1,
        ).contains(e)
}

/// The comparison that the targeted comparator reaches for a target with
/// the extents `extents`, once it has scanned `trees` in turn: each is a
/// subvolume's id with the records of its tree.
pub open spec fn compared(
    target: u64,
    extents: Set<Extent>,
    trees: Seq<(u64, Seq<Record>)>,
) -> ComparisonView
    decreases trees.len(),
{
    if trees.len() == 0 {
        ComparisonView { target, extents, working: extents }
    } else {
        compared(target, extents, trees.drop_last()).scanned(trees.last().0, trees.last().1)
    }
}

proof fn lemma_compared(target: u64, extents: Set<Extent>, trees: Seq<(u64, Seq<Record>)>)
    ensures
        compared(target, extents, trees).target == target,
        compared(target, extents, trees).extents == extents,
        forall|e: Extent| #[trigger]
            compared(target, extents, trees).working.contains(e) <==> extents.contains(e)
                && !held_by_another(target, trees, e),
    decreases trees.len(),
{
    if trees.len() > 0 {
        let rest = trees.drop_last();
        let last = trees.last();
        lemma_compared(target, extents, rest);
        let before = compared(target, extents, rest);
        let after = compared(target, extents, trees);
        assert(after == before.scanned(last.0, last.1));
        assert forall|e: Extent| #[trigger]
            after.working.contains(e) <==> extents.contains(e) && !held_by_another(
                target,
                trees,
                e,
            ) by {
            if held_by_another(target, rest, e) {
                let i = choose|i: int|
                    0 <= i < rest.len() && (#[trigger] rest[i]).0 != target && extents_in(
                        rest[i].1,
                    ).contains(e);
                assert(trees[i] == rest[i]);
            }
            if held_by_another(target, trees, e) {
                let i = choose|i: int|
                    0 <= i < trees.len() && (#[trigger] trees[i]).0 != target && extents_in(
                        trees[i].1,
                    ).contains(e);
                if i < rest.len() {
                    assert(rest[i] == trees[i]);
                } else {
                    assert(trees[i] == last);
                }
            }
            if last.0 != target && extents_in(last.1).contains(e) {
                assert(trees[trees.len() - 1] == last);
            }
        }
    }
}

/// Equivalence: for a subvolume of the map, the targeted comparator
/// reaches the usage that the full scan reports, in whatever order it
/// scans the trees, as long as each tree scanned is that of a subvolume
/// of the map and every other subvolume's tree is among them.
pub proof fn targeted_matches_full_scan(
    map: Map<u64, Set<Extent>>,
    id: u64,
    trees: Seq<(u64, Seq<Record>)>,
)
    requires
        finite_map(map),
        map.contains_key(id),
        forall|i: int|
            0 <= i < trees.len() ==> map.contains_key((#[trigger] trees[i]).0) && extents_in(
                trees[i].1,
            ) == map[trees[i].0],
        forall|other: u64|
            other != id && map.contains_key(other) ==> exists|i: int|
                0 <= i < trees.len() && (#[trigger] trees[i]).0 == other,
    ensures
        total_length(compared(id, map[id], trees).extents) == total_of(map, id),
        total_length(compared(id, map[id], trees).working) == exclusive_of(map, id),
{
    lemma_compared(id, map[id], trees);
    let working = compared(id, map[id], trees).working;
    assert forall|e: Extent| working.contains(e) <==> exclusive_extents(map, id).contains(e) by {
        if held_by_another(id, trees, e) {
            let i = choose|i: int|
                0 <= i < trees.len() && (#[trigger] trees[i]).0 != id && extents_in(
                    trees[i].1,
                ).contains(e);
            assert(map.contains_key(trees[i].0) && map[trees[i].0].contains(e));
            assert(union_of_others(map, id).contains(e));
        }
        if union_of_others(map, id).contains(e) {
            let other = choose|other: u64|
                other != id && map.contains_key(other) && #[trigger] map[other].contains(e);
            let i = choose|i: int| 0 <= i < trees.len() && (#[trigger] trees[i]).0 == other;
            assert(extents_in(trees[i].1).contains(e));
            assert(held_by_another(id, trees, e));
        }
    }
    assert(working =~= exclusive_extents(map, id));
}

} // verus!
