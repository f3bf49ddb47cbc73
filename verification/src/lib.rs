//! A reconciliation model for storage devices.
//!
//! Two independent sources describe what storage exists: a device-management
//! service that streams drive and block records, and a static mount table.
//! This crate merges the two views into one ordered collection of [`Drive`]
//! entities owning [`Block`] entities, and decides the targets of the
//! mount, unmount and eject control actions.

use vstd::prelude::*;

pub mod model;
pub mod ops;
pub mod order;
pub mod reconcile;

verus! {

} // verus!
