//! The exclusivity calculator, and its evaluation for every subvolume of
//! a map at once.

use crate::error::AccountingError;
use crate::extent::{lemma_total_subset, total_length, Extent};
use crate::record::{find_subvolume, first_backref, Record};
use crate::subvol_map::{exclusive_extents, SubvolMap};
use rayon::iter::{IntoParallelRefIterator, ParallelIterator};
use vstd::prelude::*;

verus! {

/// The bytes that the subvolume `id` refers to.
pub open spec fn total_of(map: Map<u64, Set<Extent>>, id: u64) -> nat {
    total_length(map[id])
}

/// The bytes that the subvolume `id` refers to and no other subvolume does.
pub open spec fn exclusive_of(map: Map<u64, Set<Extent>>, id: u64) -> nat {
    total_length(exclusive_extents(map, id))
}

/// The usage of one subvolume, in bytes.
#[derive(Clone, Copy, Debug, PartialEq, Eq, Structural)]
pub struct Usage {
    /// The bytes of all extents that the subvolume refers to.
    pub total_bytes: u128,
    /// The bytes of the extents that no other subvolume refers to.
    pub exclusive_bytes: u128,
}

impl Usage {
    /// Whether this is the usage of the subvolume `id` in `map`.
    pub open spec fn is_usage_of(self, map: Map<u64, Set<Extent>>, id: u64) -> bool {
        &&& self.total_bytes == total_of(map, id)
        &&& self.exclusive_bytes == exclusive_of(map, id)
    }
}

/// The usage of one subvolume together with its id and its name.
#[derive(Clone, Debug, PartialEq, Eq)]
pub struct UsageResult {
    pub id: u64,
    /// The subvolume's name, `None` where the stored name is not text.
    pub name: Option<String>,
    pub usage: Usage,
}

/// Whether `outcome` is what the accounting owes for the subvolume `id`:
/// its usage under the name of the first root record that names it, or
/// the error that says what is missing.
pub open spec fn is_outcome_of(
    outcome: Result<UsageResult, AccountingError>,
    map: Map<u64, Set<Extent>>,
    records: Seq<Record>,
    id: u64,
) -> bool {
    if !map.contains_key(id) {
        outcome == Err::<UsageResult, AccountingError>(AccountingError::UnknownSubvolume { id })
    } else {
        match first_backref(records, id) {
            None => outcome == Err::<UsageResult, AccountingError>(
                AccountingError::NameNotFound { id },
            ),
            Some(subvolume) => {
                &&& outcome matches Ok(result)
                &&& result.id == id
                &&& result.name == subvolume.name
                &&& result.usage.is_usage_of(map, id)
            },
        }
    }
}

/// The id of the subvolume that an outcome speaks of.
pub open spec fn outcome_id(outcome: Result<UsageResult, AccountingError>) -> Option<u64> {
    match outcome {
        Ok(result) => Some(result.id),
        Err(AccountingError::NameNotFound { id }) => Some(id),
        Err(AccountingError::UnknownSubvolume { id }) => Some(id),
        Err(_) => None,
    }
}

impl SubvolMap {
    /// The usage of the subvolume `id`: the bytes of its extent set, and
    /// the bytes of what is left of that set once the extents of all other
    /// subvolumes are taken away. `None` where the map does not hold `id`.
    pub fn usage(&self, id: u64) -> (usage: Option<Usage>)
        ensures
            usage is Some <==> self@.contains_key(id),
            usage matches Some(u) ==> u.is_usage_of(self@, id) && u.exclusive_bytes
                <= u.total_bytes,
    {
        match self.get(id) {
            None => None,
            Some(extents) => {
                let others = self.others_of(id);
                let total_bytes = extents.total_bytes();
                let exclusive_bytes = extents.exclusive_bytes(&others);
                proof {
                    self.lemma_finite();
                    lemma_total_subset(exclusive_extents(self@, id), self@[id]);
                }
                Some(Usage { total_bytes, exclusive_bytes })
            },
        }
    }
}

/// The outcome for one subvolume: its usage and the name that the root
/// tree's records give it.
pub fn usage_result(map: &SubvolMap, records: &Vec<Record>, id: u64) -> (outcome: Result<
    UsageResult,
    AccountingError,
>)
    ensures
        is_outcome_of(outcome, map@, records@, id),
{
    match map.usage(id) {
        None => Err(AccountingError::UnknownSubvolume { id }),
        Some(usage) => match find_subvolume(records, id) {
            None => Err(AccountingError::NameNotFound { id }),
            Some(subvolume) => {
                let name = match &subvolume.name {
                    Some(text) => Some(text.clone()),
                    None => None,
                };
                Ok(UsageResult { id, name, usage })
            },
        },
    }
}

/// Hands the subvolumes `ids` out to rayon's worker threads, one call of
/// `usage_result` each, and gathers the outcomes.
///
/// Trusted, not proved: that rayon's `par_iter` over a `Vec`, its `map`
/// and its `collect` into a `Vec` call the closure once for each item and
/// keep the items' order, so that the outcome at each place is the one
/// that `usage_result` gives for the id at the same place. Rayon starts
/// its pool of worker threads on first use and panics where the system
/// lets it start none; nothing in the arguments decides that.
#[verifier::external_body]
fn outcomes_in_parallel(map: &SubvolMap, records: &Vec<Record>, ids: &Vec<u64>) -> (outcomes: Vec<
    Result<UsageResult, AccountingError>,
>)
    ensures
        outcomes@.len() == ids@.len(),
        forall|i: int|
            0 <= i < ids@.len() ==> is_outcome_of(#[trigger] outcomes@[i], map@, records@, ids@[i]),
{
    ids.par_iter().map(|id| usage_result(map, records, *id)).collect()
}

/// The outcomes for every subvolume of the map, computed side by side.
///
/// There is exactly one outcome for each subvolume, in no particular
/// order. A subvolume whose name cannot be found gets its error as its
/// outcome and does not stand in the way of the others.
pub fn usage_results(map: &SubvolMap, records: &Vec<Record>) -> (outcomes: Vec<
    Result<UsageResult, AccountingError>,
>)
    ensures
        outcomes@.len() == map@.dom().len(),
        forall|i: int|
            0 <= i < outcomes@.len() ==> {
                let id = #[trigger] outcome_id(outcomes@[i]);
                &&& id is Some
                &&& map@.contains_key(id->0)
                &&& is_outcome_of(outcomes@[i], map@, records@, id->0)
            },
        forall|i: int, j: int|
            0 <= i < j < outcomes@.len() ==> outcome_id(outcomes@[i]) != outcome_id(outcomes@[j]),
        forall|id: u64|
            map@.contains_key(id) ==> exists|i: int|
                0 <= i < outcomes@.len() && #[trigger] outcome_id(outcomes@[i]) == Some(id),
{
    let ids = map.ids();
    let outcomes = outcomes_in_parallel(map, records, &ids);
    proof {
        ids@.unique_seq_to_set();
        assert forall|i: int| 0 <= i < outcomes@.len() implies outcome_id(outcomes@[i]) == Some(
            ids@[i],
        ) && map@.contains_key(ids@[i]) by {
            assert(is_outcome_of(outcomes@[i], map@, records@, ids@[i]));
            assert(ids@.to_set().contains(ids@[i]));
        }
        assert forall|id: u64| map@.contains_key(id) implies exists|i: int|
            0 <= i < outcomes@.len() && #[trigger] outcome_id(outcomes@[i]) == Some(id) by {
            assert(ids@.to_set().contains(id));
            let i = choose|i: int| 0 <= i < ids@.len() && ids@[i] == id;
            assert(outcome_id(outcomes@[i]) == Some(id));
        }
    }
    outcomes
}

} // verus!
