//! Extent-sharing accounting for copy-on-write filesystems.
//!
//! Subvolumes of such a filesystem share extents with their snapshots and
//! reflinked copies, so adding up file sizes counts shared data more than
//! once. This library works out, for each subvolume, the bytes that it
//! refers to and the bytes that it alone refers to.
//!
//! The library does not read a filesystem. Its input is the records that
//! a walk over a metadata tree hands out, reduced to [`record::Record`]:
//!
//! - [`record`] reads the records of a walk: which subvolumes the root
//!   tree names, and which extents a subvolume's tree holds;
//! - [`extent_set`] and [`subvol_map`] hold the extents of one subvolume
//!   and of all subvolumes;
//! - [`usage`] computes the usage of one subvolume of a map, and of all of
//!   them side by side;
//! - [`targeted`] computes the usage of one subvolume while the trees of
//!   the others are walked, without holding their extent sets;
//! - [`report`] and [`text`] turn the results into lines of text, and
//!   [`error`] words the failures;
//! - [`theorems`] states what holds of the results for every input.

pub mod error;
pub mod extent;
pub mod extent_set;
pub mod record;
pub mod report;
pub mod subvol_map;
pub mod targeted;
pub mod text;
pub mod theorems;
pub mod usage;
