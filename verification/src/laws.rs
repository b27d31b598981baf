//! What holds of every cleanup, whatever the tree and the policy.

use crate::counts::count_after;
use crate::evict::{
    due, evicted, lemma_running_total_falls, removed, running_total, stops_after, EvictionView,
};
use crate::inventory::{total_size, Entry};
use crate::order::{eviction_order, lemma_eviction_order, modified_at};
use crate::plan::cleanup_needed;
use crate::policy::Policy;
use vstd::prelude::*;

verus! {

/// A cleanup gives up the files that are due, one after the other, and
/// stops at the first that is not.
proof fn lemma_stops(entries: Seq<Entry>, policy: Policy, k: int)
    requires
        0 <= k <= eviction_order(entries).len(),
    ensures
        k <= stops_after(entries, policy, k) <= eviction_order(entries).len(),
        !due(entries, policy, stops_after(entries, policy, k)),
        forall|j: int| k <= j < stops_after(entries, policy, k) ==> due(entries, policy, j),
    decreases eviction_order(entries).len() - k,
{
    if due(entries, policy, k) {
        lemma_stops(entries, policy, k + 1);
    }
}

/// While the total of a scan is below the ceiling, nothing is deleted: no
/// file is ever due, and no directory is offered for removal, whatever has
/// been reported.
pub proof fn lemma_below_ceiling_nothing_goes(entries: Seq<Entry>, policy: Policy)
    requires
        total_size(entries) < policy.max_bytes(),
    ensures
        evicted(entries, policy) == 0,
        forall|k: int| !due(entries, policy, k),
        forall|root: String, outcomes: Seq<bool>, dir: usize|
            !(#[trigger] EvictionView { root, entries, policy, outcomes }.prunable(dir)),
{
}

/// A cleanup that is needed gives up files until the running total is at or
/// below the low-water mark or no file is left, whichever comes first, and
/// not one file more. The total it ends with is never above the total it
/// began with.
pub proof fn lemma_cleanup_stops_at_mark(entries: Seq<Entry>, policy: Policy)
    requires
        entries.len() <= usize::MAX,
        cleanup_needed(entries, policy),
    ensures
        0 <= evicted(entries, policy) <= eviction_order(entries).len(),
        running_total(entries, evicted(entries, policy)) <= policy.target() || evicted(
            entries,
            policy,
        ) == eviction_order(entries).len(),
        forall|j: int|
            0 <= j < evicted(entries, policy) ==> #[trigger] running_total(entries, j)
                > policy.target(),
        0 <= running_total(entries, evicted(entries, policy)) <= total_size(entries),
{
    lemma_stops(entries, policy, 0);
    lemma_running_total_falls(entries, 0, evicted(entries, policy));
    assert forall|j: int| 0 <= j < evicted(entries, policy) implies #[trigger] running_total(
        entries,
        j,
    ) > policy.target() by {
        assert(due(entries, policy, j));
    }
}

/// Files go oldest first: of two files that a cleanup gives up, the one
/// modified earlier goes earlier; and no file that goes is newer than one
/// that stays.
pub proof fn lemma_oldest_go_first(entries: Seq<Entry>, policy: Policy, a: int, b: int)
    requires
        entries.len() <= usize::MAX,
        0 <= a < evicted(entries, policy),
        0 <= b < eviction_order(entries).len(),
    ensures
        b < evicted(entries, policy) && modified_at(entries, eviction_order(entries)[a])
            < modified_at(entries, eviction_order(entries)[b]) ==> a < b,
        b >= evicted(entries, policy) ==> modified_at(entries, eviction_order(entries)[a])
            <= modified_at(entries, eviction_order(entries)[b]),
{
    lemma_eviction_order(entries);
    lemma_stops(entries, policy, 0);
}

/// Where the total of a scan is at or below the low-water mark, no file is
/// deleted.
pub proof fn lemma_at_mark_no_file_goes(entries: Seq<Entry>, policy: Policy)
    requires
        total_size(entries) <= policy.target(),
    ensures
        evicted(entries, policy) == 0,
        forall|k: int| 0 <= k <= eviction_order(entries).len() ==> !due(entries, policy, k),
{
    assert(eviction_order(entries).take(0) == Seq::<usize>::empty());
    assert forall|k: int| 0 <= k <= eviction_order(entries).len() implies !due(
        entries,
        policy,
        k,
    ) by {
        if entries.len() <= usize::MAX {
            lemma_running_total_falls(entries, 0, k);
        }
    }
}

/// A tick that follows one which reached the low-water mark deletes no file,
/// as long as its scan finds no more bytes than the first tick left.
pub proof fn lemma_second_tick_deletes_no_file(
    first: Seq<Entry>,
    second: Seq<Entry>,
    policy: Policy,
)
    requires
        running_total(first, evicted(first, policy)) <= policy.target(),
        total_size(second) <= running_total(first, evicted(first, policy)),
    ensures
        evicted(second, policy) == 0,
{
    assert(eviction_order(second).take(0) == Seq::<usize>::empty());
}

/// A directory is offered for removal exactly where a cleanup was needed and
/// the files found under it, less those deleted from it, come to nothing.
pub proof fn lemma_prunable(
    root: String,
    entries: Seq<Entry>,
    policy: Policy,
    outcomes: Seq<bool>,
    dir: usize,
)
    requires
        dir < entries.len(),
        (entries[dir as int] is Directory),
    ensures
        (EvictionView { root, entries, policy, outcomes }).prunable(dir) <==> cleanup_needed(
            entries,
            policy,
        ) && count_after(entries, removed(entries, outcomes), dir as int) == 0,
{
    crate::counts::lemma_removed_within(entries, removed(entries, outcomes), dir as int);
}

} // verus!
