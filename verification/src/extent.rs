//! Extent identities, and the bytes that a set of them holds.

use vstd::prelude::*;

verus! {

/// The identity of one extent: where it starts on disk and how long it is.
/// Two extents are the same extent exactly when both fields agree.
#[derive(Clone, Copy, Debug, PartialEq, Eq, Structural, Hash)]
pub struct Extent {
    pub disk_offset: u64,
    pub length: u64,
}

/// The step of the byte total: one more extent adds its length.
pub open spec fn add_length() -> spec_fn(nat, Extent) -> nat {
    |sum: nat, e: Extent| sum + e.length as nat
}

/// The bytes that a set of extents holds: the sum of the lengths of its
/// members, each counted once.
pub open spec fn total_length(s: Set<Extent>) -> nat {
    s.fold(0nat, add_length())
}

pub proof fn lemma_total_empty()
    ensures
        total_length(Set::<Extent>::empty()) == 0,
{
    vstd::set::fold::lemma_fold_empty(0nat, add_length());
}

/// A new member adds exactly its length.
pub proof fn lemma_total_insert(s: Set<Extent>, e: Extent)
    requires
        s.finite(),
        !s.contains(e),
    ensures
        total_length(s.insert(e)) == total_length(s) + e.length,
{
    assert(vstd::set::fold::is_fun_commutative(add_length()));
    vstd::set::fold::lemma_fold_insert(s, 0nat, add_length(), e);
}

/// A member that leaves takes exactly its length with it.
pub proof fn lemma_total_remove(s: Set<Extent>, e: Extent)
    requires
        s.finite(),
        s.contains(e),
    ensures
        total_length(s) == total_length(s.remove(e)) + e.length,
{
    assert(s.remove(e).insert(e) =~= s);
    lemma_total_insert(s.remove(e), e);
}

/// Sets that share no member add up.
pub proof fn lemma_total_disjoint_union(a: Set<Extent>, b: Set<Extent>)
    requires
        a.finite(),
        b.finite(),
        a.disjoint(b),
    ensures
        total_length(a.union(b)) == total_length(a) + total_length(b),
    decreases b.len(),
{
    if b.len() == 0 {
        assert(b =~= Set::<Extent>::empty());
        assert(a.union(b) =~= a);
        lemma_total_empty();
    } else {
        let e = b.choose();
        let rest = b.remove(e);
        assert(a.disjoint(rest));
        lemma_total_disjoint_union(a, rest);
        assert(a.union(b) =~= a.union(rest).insert(e));
        lemma_total_insert(a.union(rest), e);
        lemma_total_remove(b, e);
    }
}

/// A set splits into what it shares with another set and what it does not.
pub proof fn lemma_total_split(s: Set<Extent>, other: Set<Extent>)
    requires
        s.finite(),
    ensures
        total_length(s) == total_length(s.difference(other)) + total_length(s.intersect(other)),
{
    let kept = s.difference(other);
    let shared = s.intersect(other);
    assert(kept.disjoint(shared));
    assert(kept.union(shared) =~= s);
    lemma_total_disjoint_union(kept, shared);
}

/// A part holds no more bytes than the whole.
pub proof fn lemma_total_subset(part: Set<Extent>, whole: Set<Extent>)
    requires
        whole.finite(),
        part.subset_of(whole),
    ensures
        total_length(part) <= total_length(whole),
{
    lemma_total_split(whole, part);
    assert(whole.intersect(part) =~= part);
}

/// A set holds no bytes exactly when every member has length zero.
pub proof fn lemma_total_zero(s: Set<Extent>)
    requires
        s.finite(),
    ensures
        total_length(s) == 0 <==> forall|e: Extent| s.contains(e) ==> e.length == 0,
    decreases s.len(),
{
    if s.len() == 0 {
        assert(s =~= Set::<Extent>::empty());
        lemma_total_empty();
    } else {
        let e = s.choose();
        lemma_total_remove(s, e);
        lemma_total_zero(s.remove(e));
        if total_length(s) == 0 {
            assert forall|x: Extent| s.contains(x) implies x.length == 0 by {
                if x != e {
                    assert(s.remove(e).contains(x));
                }
            }
        }
    }
}

} // verus!
