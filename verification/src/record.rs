//! Metadata records as the accounting reads them, and what a walk over a
//! sequence of them collects.

use crate::extent::Extent;
use crate::extent_set::ExtentSet;
use std::collections::HashSet;
use vstd::prelude::*;
use vstd::std_specs::hash::*;

verus! {

broadcast use group_hash_axioms;

/// A metadata tree that can be walked.
#[derive(Clone, Copy, Debug, PartialEq, Eq, Structural)]
pub enum Tree {
    /// The tree that lists every subvolume.
    Root,
    /// The file tree of the subvolume with this id.
    Subvolume(u64),
}

/// A subvolume as the root tree names it. The name is `None` where the
/// stored name is not text.
#[derive(Clone, Debug, PartialEq, Eq)]
pub struct Subvolume {
    pub id: u64,
    pub name: Option<String>,
}

/// One record of a tree walk, reduced to what the accounting reads.
#[derive(Clone, Debug, PartialEq, Eq)]
pub enum Record {
    /// A root back-reference: it names a subvolume.
    RootBackRef(Subvolume),
    /// A regular file extent.
    FileExtent(Extent),
    /// Any other kind of record. The accounting passes over it.
    Other,
}

/// Whether a record names the subvolume `id`.
pub open spec fn names_subvolume(record: Record, id: u64) -> bool {
    record matches Record::RootBackRef(subvolume) && subvolume.id == id
}

/// The first record that names the subvolume `id`, if there is one.
pub open spec fn first_backref(records: Seq<Record>, id: u64) -> Option<Subvolume>
    decreases records.len(),
{
    if records.len() == 0 {
        None
    } else if names_subvolume(records[0], id) {
        Some(records[0]->RootBackRef_0)
    } else {
        first_backref(records.drop_first(), id)
    }
}

/// The ids of the subvolumes that a sequence of records names, each once,
/// in the order in which they first occur.
pub open spec fn registered_ids(records: Seq<Record>) -> Seq<u64>
    decreases records.len(),
{
    if records.len() == 0 {
        Seq::empty()
    } else {
        let before = registered_ids(records.drop_last());
        match records.last() {
            Record::RootBackRef(subvolume) => if before.contains(subvolume.id) {
                before
            } else {
                before.push(subvolume.id)
            },
            _ => before,
        }
    }
}

/// The extents that the regular file-extent records of a sequence name.
pub open spec fn extents_in(records: Seq<Record>) -> Set<Extent> {
    Set::new(
        |e: Extent| exists|i: int| 0 <= i < records.len() && records[i] == Record::FileExtent(e),
    )
}

/// What one record does to a set of extents: a regular file extent joins
/// it, anything else leaves it as it was.
pub open spec fn observed(extents: Set<Extent>, record: Record) -> Set<Extent> {
    match record {
        Record::FileExtent(e) => extents.insert(e),
        _ => extents,
    }
}

/// One more record of a walk adds to the extents named so far what
/// `observed` says.
pub proof fn lemma_extents_in_step(records: Seq<Record>, i: int)
    requires
        0 <= i < records.len(),
    ensures
        extents_in(records.take(i + 1)) == observed(extents_in(records.take(i)), records[i]),
{
    let head = records.take(i);
    let next = records.take(i + 1);
    assert forall|e: Extent| extents_in(next).contains(e) <==> observed(
        extents_in(head),
        records[i],
    ).contains(e) by {
        if extents_in(next).contains(e) {
            let j = choose|j: int| 0 <= j < next.len() && next[j] == Record::FileExtent(e);
            if j < i {
                assert(head[j] == Record::FileExtent(e));
            }
        }
        if extents_in(head).contains(e) {
            let j = choose|j: int| 0 <= j < head.len() && head[j] == Record::FileExtent(e);
            assert(next[j] == Record::FileExtent(e));
        }
        if records[i] == Record::FileExtent(e) {
            assert(next[i] == Record::FileExtent(e));
        }
    }
    assert(extents_in(next) =~= observed(extents_in(head), records[i]));
}

/// A sequence of records names exactly the ids that `registered_ids`
/// lists, and lists none twice.
pub proof fn lemma_registered_ids(records: Seq<Record>)
    ensures
        registered_ids(records).no_duplicates(),
        forall|id: u64|
            registered_ids(records).contains(id) <==> exists|i: int|
                0 <= i < records.len() && names_subvolume(#[trigger] records[i], id),
    decreases records.len(),
{
    if records.len() == 0 {
    } else {
        let rest = records.drop_last();
        let before = registered_ids(rest);
        let ids = registered_ids(records);
        lemma_registered_ids(rest);
        assert forall|id: u64| ids.contains(id) <==> exists|i: int|
            0 <= i < records.len() && names_subvolume(#[trigger] records[i], id) by {
            if ids.contains(id) {
                if before.contains(id) {
                    let i = choose|i: int|
                        0 <= i < rest.len() && names_subvolume(#[trigger] rest[i], id);
                    assert(names_subvolume(records[i], id));
                } else {
                    let j = choose|j: int| 0 <= j < ids.len() && ids[j] == id;
                    assert(j == before.len());
                    assert(names_subvolume(records[records.len() - 1], id));
                }
            }
            if exists|i: int| 0 <= i < records.len() && names_subvolume(#[trigger] records[i], id) {
                let i = choose|i: int|
                    0 <= i < records.len() && names_subvolume(#[trigger] records[i], id);
                if i < rest.len() {
                    assert(names_subvolume(rest[i], id));
                    assert(before.contains(id));
                    let j = choose|j: int| 0 <= j < before.len() && before[j] == id;
                    assert(ids[j] == id);
                } else {
                    if before.contains(id) {
                        let j = choose|j: int| 0 <= j < before.len() && before[j] == id;
                        assert(ids[j] == id);
                    } else {
                        assert(ids[before.len() as int] == id);
                    }
                }
            }
        }
    }
}

/// The first record of a walk over the root tree that names the
/// subvolume `id`.
pub fn find_subvolume(records: &Vec<Record>, id: u64) -> (found: Option<&Subvolume>)
    ensures
        match found {
            Some(subvolume) => first_backref(records@, id) == Some(*subvolume),
            None => first_backref(records@, id) is None,
        },
{
    let mut i: usize = 0;
    proof {
        assert(records@.skip(0) =~= records@);
    }
    while i < records.len()
        invariant
            i <= records.len(),
            first_backref(records@, id) == first_backref(records@.skip(i as int), id),
        decreases records.len() - i,
    {
        proof {
            assert(records@.skip(i as int).drop_first() =~= records@.skip(i + 1));
        }
        match &records[i] {
            Record::RootBackRef(subvolume) => {
                if subvolume.id == id {
                    return Some(subvolume);
                }
            },
            _ => {},
        }
        i = i + 1;
    }
    None
}

/// The ids of the subvolumes that a walk over the root tree names: the
/// trees to walk next, each once, in the order of their first record.
pub fn subvolume_ids(records: &Vec<Record>) -> (ids: Vec<u64>)
    ensures
        ids@ == registered_ids(records@),
        ids@.no_duplicates(),
        forall|id: u64|
            ids@.contains(id) <==> exists|i: int|
                0 <= i < records@.len() && names_subvolume(#[trigger] records@[i], id),
{
    let mut ids: Vec<u64> = Vec::new();
    let mut seen: HashSet<u64> = HashSet::new();
    let mut i: usize = 0;
    while i < records.len()
        invariant
            i <= records.len(),
            ids@ == registered_ids(records@.take(i as int)),
            seen@ == ids@.to_set(),
        decreases records.len() - i,
    {
        proof {
            assert(records@.take(i + 1).drop_last() =~= records@.take(i as int));
        }
        match &records[i] {
            Record::RootBackRef(subvolume) => {
                if !seen.contains(&subvolume.id) {
                    proof {
                        ids@.lemma_push_to_set_commute(subvolume.id);
                    }
                    seen.insert(subvolume.id);
                    ids.push(subvolume.id);
                }
            },
            _ => {},
        }
        i = i + 1;
    }
    proof {
        assert(records@.take(records.len() as int) =~= records@);
        lemma_registered_ids(records@);
    }
    ids
}

impl ExtentSet {
    /// Takes one record of a subvolume's tree into the set: a regular file
    /// extent is inserted, any other record is passed over.
    pub fn observe(&mut self, record: &Record)
        ensures
            final(self)@ == observed(old(self)@, *record),
    {
        match record {
            Record::FileExtent(extent) => {
                self.insert(*extent);
            },
            _ => {},
        }
    }

    /// The extent set of a subvolume whose tree walk gave these records.
    pub fn from_records(records: &Vec<Record>) -> (set: ExtentSet)
        ensures
            set@ == extents_in(records@),
    {
        let mut set = ExtentSet::new();
        let mut i: usize = 0;
        proof {
            assert(extents_in(records@.take(0)) =~= Set::<Extent>::empty());
        }
        while i < records.len()
            invariant
                i <= records.len(),
                set@ == extents_in(records@.take(i as int)),
            decreases records.len() - i,
        {
            proof {
                lemma_extents_in_step(records@, i as int);
            }
            set.observe(&records[i]);
            i = i + 1;
        }
        proof {
            assert(records@.take(records.len() as int) =~= records@);
        }
        set
    }
}

} // verus!
