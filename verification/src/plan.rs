//! The decision whether a tree must be cleaned up, and in which order its
//! files would go.

use crate::inventory::{total_size, Entry, Inventory};
use crate::order::{eviction_order, oldest_first};
use crate::policy::Policy;
use vstd::prelude::*;

verus! {

/// Whether a cleanup is needed at all: the total has reached the ceiling.
pub open spec fn cleanup_needed(entries: Seq<Entry>, policy: Policy) -> bool {
    total_size(entries) >= policy.max_bytes()
}

/// What is planned for one inventory.
#[derive(Debug)]
pub struct Plan {
    /// Whether the tree must be cleaned up.
    pub needed: bool,
    /// The low-water mark in bytes.
    pub target: u128,
    /// Where a cleanup is needed, every file of the inventory, oldest first:
    /// the queue from which files are given up until the low-water mark is
    /// reached. Else empty.
    pub victims: Vec<usize>,
}

/// Plans the cleanup of `inventory` under `policy`. A cleanup is needed
/// where the total has reached the ceiling; how many files go is not decided
/// here, since it depends on the bytes that each one frees.
pub fn plan(inventory: &Inventory, policy: &Policy) -> (plan: Plan)
    ensures
        plan.needed == cleanup_needed(inventory@, *policy),
        plan.target == policy.target(),
        plan.victims@ == if plan.needed {
            eviction_order(inventory@)
        } else {
            Seq::<usize>::empty()
        },
{
    let needed = policy.needs_cleanup(inventory.total_size());
    let victims = if needed {
        oldest_first(inventory)
    } else {
        Vec::new()
    };
    Plan { needed, target: policy.target_bytes(), victims }
}

} // verus!
