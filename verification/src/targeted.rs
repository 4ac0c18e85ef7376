//! The targeted comparator: the usage of one subvolume, found without
//! holding the extent sets of the others.

use crate::extent::{lemma_total_subset, total_length, Extent};
use crate::extent_set::ExtentSet;
use crate::record::{extents_in, lemma_extents_in_step, Record};
use crate::usage::Usage;
use vstd::prelude::*;

verus! {

/// What a comparison stands for: the target, the extents that its tree
/// holds, and those among them that no scanned subvolume has held so far.
pub struct ComparisonView {
    pub target: u64,
    pub extents: Set<Extent>,
    pub working: Set<Extent>,
}

impl ComparisonView {
    /// The comparison after one record of another subvolume's tree: the
    /// extent of a regular file-extent record leaves the working set.
    pub open spec fn pruned(self, record: Record) -> ComparisonView {
        match record {
            Record::FileExtent(e) => ComparisonView { working: self.working.remove(e), ..self },
            _ => self,
        }
    }

    /// The comparison after the whole tree of the subvolume `id`. The
    /// target's own tree changes nothing.
    pub open spec fn scanned(self, id: u64, records: Seq<Record>) -> ComparisonView {
        if id == self.target {
            self
        } else {
            ComparisonView { working: self.working.difference(extents_in(records)), ..self }
        }
    }
}

/// A comparison of one target subvolume against the others, one tree at
/// a time. The working set starts as the target's extent set and only
/// ever loses extents.
pub struct TargetedComparison {
    target: u64,
    total_bytes: u128,
    working: ExtentSet,
    extents: Ghost<Set<Extent>>,
}

impl View for TargetedComparison {
    type V = ComparisonView;

    closed spec fn view(&self) -> ComparisonView {
        ComparisonView { target: self.target, extents: self.extents@, working: self.working@ }
    }
}

impl TargetedComparison {
    #[verifier::type_invariant]
    spec fn well_formed(&self) -> bool {
        &&& self.extents@.finite()
        &&& self.working@.subset_of(self.extents@)
        &&& self.total_bytes == total_length(self.extents@)
    }

    /// Starts a comparison for the subvolume `target`, whose tree holds
    /// `extents`.
    pub fn new(target: u64, extents: ExtentSet) -> (comparison: TargetedComparison)
        ensures
            comparison@ == (ComparisonView { target, extents: extents@, working: extents@ }),
    {
        proof {
            extents.lemma_finite();
        }
        let total_bytes = extents.total_bytes();
        TargetedComparison { target, total_bytes, extents: Ghost(extents@), working: extents }
    }

    /// The id of the target subvolume.
    pub fn target(&self) -> (id: u64)
        ensures
            id == self@.target,
    {
        self.target
    }

    /// Whether the subvolume `id` is one of the others, whose tree is to
    /// be scanned.
    pub fn is_other(&self, id: u64) -> (other: bool)
        ensures
            other == (id != self@.target),
    {
        id != self.target
    }

    /// Takes one record of another subvolume's tree: the extent of a
    /// regular file-extent record leaves the working set, for good.
    pub fn prune(&mut self, record: &Record)
        ensures
            final(self)@ == old(self)@.pruned(*record),
    {
        proof {
            use_type_invariant(&*self);
        }
        match record {
            Record::FileExtent(extent) => {
                // The set changes outside the comparison and is put back:
                // should the hash set panic, the comparison it leaves
                // behind still keeps its invariant.
                let mut working = ExtentSet::new();
                core::mem::swap(&mut self.working, &mut working);
                working.remove(extent);
                core::mem::swap(&mut self.working, &mut working);
            },
            _ => {},
        }
    }

    /// Takes the whole tree of the subvolume `id`. Every extent that it
    /// holds leaves the working set, unless `id` is the target itself.
    pub fn scan(&mut self, id: u64, records: &Vec<Record>)
        ensures
            final(self)@ == old(self)@.scanned(id, records@),
    {
        if id == self.target {
            return ;
        }
        let mut i: usize = 0;
        proof {
            assert(self@.working =~= old(self)@.working.difference(
                extents_in(records@.take(0)),
            ));
        }
        while i < records.len()
            invariant
                i <= records.len(),
                self@.target == old(self)@.target,
                self@.extents == old(self)@.extents,
                self@.working == old(self)@.working.difference(
                    extents_in(records@.take(i as int)),
                ),
            decreases records.len() - i,
        {
            proof {
                lemma_extents_in_step(records@, i as int);
            }
            self.prune(&records[i]);
            proof {
                assert(self@.working =~= old(self)@.working.difference(
                    extents_in(records@.take(i + 1)),
                ));
            }
            i = i + 1;
        }
        proof {
            assert(records@.take(records.len() as int) =~= records@);
        }
    }

    /// The target's usage as the comparison stands: all bytes of its
    /// extents, and the bytes of what is left in the working set.
    pub fn usage(&self) -> (usage: Usage)
        ensures
            usage.total_bytes == total_length(self@.extents),
            usage.exclusive_bytes == total_length(self@.working),
            usage.exclusive_bytes <= usage.total_bytes,
    {
        proof {
            use_type_invariant(self);
            lemma_total_subset(self.working@, self.extents@);
        }
        Usage { total_bytes: self.total_bytes, exclusive_bytes: self.working.total_bytes() }
    }
}

} // verus!
