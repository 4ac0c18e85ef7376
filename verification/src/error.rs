//! What can go wrong in an accounting run, and how each failure is worded.

use crate::record::{first_backref, find_subvolume, Record, Tree};
use crate::text::{decimal, decimal_digits, display_name, shown_name};
use vstd::prelude::*;
use vstd::string::StringExecFns;

verus! {

/// A failure of the accounting itself: a tree walk that broke off, or a
/// subvolume that cannot be accounted for. Each is final for the
/// operation that met it: nothing is tried again.
#[derive(Clone, Debug, PartialEq, Eq)]
pub enum AccountingError {
    /// The walk over the root tree failed.
    WalkRoot,
    /// The walk over the tree of the subvolume shown under this name failed.
    WalkSubvolume { name: String },
    /// No record of the root tree names the subvolume with this id.
    NameNotFound { id: u64 },
    /// The map holds no extent set for the subvolume with this id.
    UnknownSubvolume { id: u64 },
}

/// The words of an error's message.
pub open spec fn message_of(error: AccountingError) -> Seq<char> {
    match error {
        AccountingError::WalkRoot => "failed to walk root tree"@,
        AccountingError::WalkSubvolume { name } => "failed to walk subvolume tree: "@ + name@,
        AccountingError::NameNotFound { id } => "failed to find name for subvolume "@
            + decimal_digits(id as nat),
        AccountingError::UnknownSubvolume { id } => "no extents collected for subvolume "@
            + decimal_digits(id as nat),
    }
}

/// Whether an error says that the walk over `tree` failed, the tree shown
/// under the name that `records` give it.
pub open spec fn is_walk_error(error: AccountingError, tree: Tree, records: Seq<Record>) -> bool {
    match tree {
        Tree::Root => error == AccountingError::WalkRoot,
        Tree::Subvolume(id) => error matches AccountingError::WalkSubvolume { name } && name@
            == match first_backref(records, id) {
            Some(subvolume) => shown_name(subvolume.name),
            None => shown_name(None),
        },
    }
}

impl AccountingError {
    /// The one-line message of the error.
    pub fn message(&self) -> (text: String)
        ensures
            text@ == message_of(*self),
    {
        match self {
            AccountingError::WalkRoot => String::from_str("failed to walk root tree"),
            AccountingError::WalkSubvolume { name } => {
                let mut text = String::from_str("failed to walk subvolume tree: ");
                text.append(name.as_str());
                text
            },
            AccountingError::NameNotFound { id } => {
                let mut text = String::from_str("failed to find name for subvolume ");
                text.append(decimal(*id as u128).as_str());
                text
            },
            AccountingError::UnknownSubvolume { id } => {
                let mut text = String::from_str("no extents collected for subvolume ");
                text.append(decimal(*id as u128).as_str());
                text
            },
        }
    }

    /// The error for a walk over `tree` that failed. A subvolume's tree is
    /// named as the root tree's records name that subvolume, or by `?`
    /// where they do not name it.
    pub fn walk_failed(tree: Tree, records: &Vec<Record>) -> (error: AccountingError)
        ensures
            is_walk_error(error, tree, records@),
    {
        match tree {
            Tree::Root => AccountingError::WalkRoot,
            Tree::Subvolume(id) => {
                let name = match find_subvolume(records, id) {
                    Some(subvolume) => display_name(&subvolume.name),
                    None => display_name(&None),
                };
                AccountingError::WalkSubvolume { name }
            },
        }
    }
}

} // verus!
