//! One cleanup: which file is given up next, what becomes of the running
//! total and of the directories' counts, and when it is over.
//!
//! The caller deletes; the library decides. [`Eviction::next_victim`] names
//! the file to delete, and [`Eviction::record`] takes the report of what the
//! deletion did.

use crate::counts::{
    count_after, counts_after, lemma_removed_within, removed_from, DirFileCount,
};
use crate::inventory::{total_size, well_formed, Entry, Inventory};
use crate::order::{eviction_order, file_indices, lemma_eviction_order, lemma_file_indices};
use crate::plan::{cleanup_needed, plan};
use crate::policy::Policy;
use vstd::prelude::*;
use vstd::seq_lib::{commutative_foldl, lemma_fold_left_permutation};

verus! {

/// The bytes that entry `i` adds to the total, and 0 where there is no such
/// entry.
pub open spec fn bytes_at(entries: Seq<Entry>, i: usize) -> nat {
    if i < entries.len() {
        entries[i as int].bytes()
    } else {
        0
    }
}

/// Adds the bytes of one entry to a sum.
pub open spec fn add_bytes(entries: Seq<Entry>) -> spec_fn(nat, usize) -> nat {
    |sum: nat, i: usize| sum + bytes_at(entries, i)
}

/// The bytes of the entries that `pool` names, added up.
pub open spec fn sum_bytes(entries: Seq<Entry>, pool: Seq<usize>) -> nat {
    pool.fold_left(0nat, add_bytes(entries))
}

/// The bytes of the first `k` files in eviction order.
pub open spec fn consumed_size(entries: Seq<Entry>, k: int) -> nat {
    sum_bytes(entries, eviction_order(entries).take(k))
}

/// The running total once `k` files have been given up.
pub open spec fn running_total(entries: Seq<Entry>, k: int) -> int {
    total_size(entries) - consumed_size(entries, k)
}

/// Whether one more file is to be given up once `k` files have been: a
/// cleanup is needed, a file is left, and the running total is still above
/// the low-water mark.
pub open spec fn due(entries: Seq<Entry>, policy: Policy, k: int) -> bool {
    &&& cleanup_needed(entries, policy)
    &&& 0 <= k < eviction_order(entries).len()
    &&& running_total(entries, k) > policy.target()
}

/// The number of files given up by the time the cleanup stops, counted from
/// a cleanup that has given up `k` files.
pub open spec fn stops_after(entries: Seq<Entry>, policy: Policy, k: int) -> int
    decreases eviction_order(entries).len() - k,
{
    if due(entries, policy, k) {
        stops_after(entries, policy, k + 1)
    } else {
        k
    }
}

/// The number of files that a cleanup of `entries` gives up.
pub open spec fn evicted(entries: Seq<Entry>, policy: Policy) -> int {
    stops_after(entries, policy, 0)
}

/// The files that were deleted: those of the first `outcomes.len()` in
/// eviction order whose deletion was reported as done.
pub open spec fn removed(entries: Seq<Entry>, outcomes: Seq<bool>) -> Set<int> {
    Set::new(
        |f: int|
            exists|j: int|
                0 <= j < outcomes.len() && j < eviction_order(entries).len() && outcomes[j]
                    && #[trigger] eviction_order(entries)[j] == f,
    )
}

/// A sum over entries with small indices does not depend on later entries.
proof fn lemma_sum_bytes_prefix(entries: Seq<Entry>, n: int, pool: Seq<usize>)
    requires
        0 <= n <= entries.len(),
        forall|j: int| 0 <= j < pool.len() ==> pool[j] < n,
    ensures
        sum_bytes(entries, pool) == sum_bytes(entries.take(n), pool),
    decreases pool.len(),
{
    if pool.len() > 0 {
        lemma_sum_bytes_prefix(entries, n, pool.drop_last());
        assert(bytes_at(entries, pool.last()) == bytes_at(entries.take(n), pool.last()));
    }
}

/// The files in the order of their discovery add up to the total.
proof fn lemma_sum_of_files(entries: Seq<Entry>)
    requires
        entries.len() <= usize::MAX,
    ensures
        sum_bytes(entries, file_indices(entries)) == total_size(entries),
    decreases entries.len(),
{
    if entries.len() > 0 {
        let shorter = entries.drop_last();
        lemma_sum_of_files(shorter);
        lemma_file_indices(shorter);
        lemma_sum_bytes_prefix(entries, entries.len() - 1, file_indices(shorter));
        assert(entries.take(entries.len() - 1) == shorter);
        if entries.last() is File {
            assert(file_indices(entries).drop_last() == file_indices(shorter));
        }
    }
}

/// The files in eviction order add up to the total.
pub proof fn lemma_all_consumed(entries: Seq<Entry>)
    requires
        entries.len() <= usize::MAX,
    ensures
        consumed_size(entries, eviction_order(entries).len() as int) == total_size(entries),
        running_total(entries, eviction_order(entries).len() as int) == 0,
{
    let order = eviction_order(entries);
    lemma_eviction_order(entries);
    lemma_sum_of_files(entries);
    assert(commutative_foldl(add_bytes(entries)));
    lemma_fold_left_permutation(order, file_indices(entries), add_bytes(entries), 0nat);
    assert(order.take(order.len() as int) == order);
}

/// Giving up one more file takes its bytes off the running total.
pub proof fn lemma_consumed_step(entries: Seq<Entry>, k: int)
    requires
        0 <= k < eviction_order(entries).len(),
    ensures
        consumed_size(entries, k + 1) == consumed_size(entries, k) + bytes_at(
            entries,
            eviction_order(entries)[k],
        ),
        running_total(entries, k + 1) == running_total(entries, k) - bytes_at(
            entries,
            eviction_order(entries)[k],
        ),
{
    let order = eviction_order(entries);
    assert(order.take(k + 1).drop_last() == order.take(k));
}

/// Each file given up leaves the running total where it was or lower.
proof fn lemma_running_total_monotone(entries: Seq<Entry>, j: int, k: int)
    requires
        0 <= j <= k <= eviction_order(entries).len(),
    ensures
        running_total(entries, k) <= running_total(entries, j),
    decreases k - j,
{
    if j < k {
        lemma_running_total_monotone(entries, j, k - 1);
        lemma_consumed_step(entries, k - 1);
    }
}

/// The running total starts at the total, never grows, and never falls
/// below zero.
pub proof fn lemma_running_total_falls(entries: Seq<Entry>, j: int, k: int)
    requires
        entries.len() <= usize::MAX,
        0 <= j <= k <= eviction_order(entries).len(),
    ensures
        running_total(entries, 0) == total_size(entries),
        0 <= running_total(entries, k) <= running_total(entries, j) <= total_size(entries),
{
    let n = eviction_order(entries).len() as int;
    assert(eviction_order(entries).take(0) == Seq::<usize>::empty());
    lemma_all_consumed(entries);
    lemma_running_total_monotone(entries, k, n);
    lemma_running_total_monotone(entries, j, k);
    lemma_running_total_monotone(entries, 0, j);
}

/// A sum over a pool is the sum over its first `k` members and the sum over
/// the rest.
proof fn lemma_sum_bytes_split(entries: Seq<Entry>, pool: Seq<usize>, k: int)
    requires
        0 <= k <= pool.len(),
    ensures
        sum_bytes(entries, pool) == sum_bytes(entries, pool.take(k)) + sum_bytes(
            entries,
            pool.skip(k),
        ),
    decreases pool.len(),
{
    if k == pool.len() {
        assert(pool.take(k) == pool);
    } else {
        lemma_sum_bytes_split(entries, pool.drop_last(), k);
        assert(pool.drop_last().take(k) == pool.take(k));
        assert(pool.skip(k).drop_last() == pool.drop_last().skip(k));
    }
}

/// The running total is what the files not yet given up add up to.
pub proof fn lemma_running_total_is_the_rest(entries: Seq<Entry>, k: int)
    requires
        entries.len() <= usize::MAX,
        0 <= k <= eviction_order(entries).len(),
    ensures
        running_total(entries, k) == sum_bytes(entries, eviction_order(entries).skip(k)),
{
    let order = eviction_order(entries);
    lemma_all_consumed(entries);
    assert(order.take(order.len() as int) == order);
    lemma_sum_bytes_split(entries, order, k);
}

/// From a cleanup that has always given up what was due, the count of
/// files given up in the end is where the next file is not due.
proof fn lemma_stops_where_not_due(entries: Seq<Entry>, policy: Policy, j: int, k: int)
    requires
        0 <= j <= k,
        forall|i: int| j <= i < k ==> due(entries, policy, i),
        !due(entries, policy, k),
    ensures
        stops_after(entries, policy, j) == k,
    decreases k - j,
{
    if j < k {
        lemma_stops_where_not_due(entries, policy, j + 1, k);
    }
}

/// A deletion that failed removes nothing.
proof fn lemma_removed_push_failed(entries: Seq<Entry>, outcomes: Seq<bool>)
    ensures
        removed(entries, outcomes.push(false)) == removed(entries, outcomes),
{
    let longer = outcomes.push(false);
    assert forall|f: int| removed(entries, longer).contains(f) implies removed(
        entries,
        outcomes,
    ).contains(f) by {
        let j = choose|j: int|
            0 <= j < longer.len() && j < eviction_order(entries).len() && longer[j]
                && #[trigger] eviction_order(entries)[j] == f;
        assert(outcomes[j]);
    }
    assert forall|f: int| removed(entries, outcomes).contains(f) implies removed(
        entries,
        longer,
    ).contains(f) by {
        let j = choose|j: int|
            0 <= j < outcomes.len() && j < eviction_order(entries).len() && outcomes[j]
                && #[trigger] eviction_order(entries)[j] == f;
        assert(longer[j]);
    }
    assert(removed(entries, longer) =~= removed(entries, outcomes));
}

/// A deletion that was done removes the file that was due, which was not
/// removed before.
proof fn lemma_removed_push_done(entries: Seq<Entry>, outcomes: Seq<bool>)
    requires
        entries.len() <= usize::MAX,
        outcomes.len() < eviction_order(entries).len(),
    ensures
        !removed(entries, outcomes).contains(eviction_order(entries)[outcomes.len() as int] as int),
        removed(entries, outcomes.push(true)) == removed(entries, outcomes).insert(
            eviction_order(entries)[outcomes.len() as int] as int,
        ),
{
    let order = eviction_order(entries);
    let k = outcomes.len() as int;
    let longer = outcomes.push(true);
    lemma_eviction_order(entries);
    if removed(entries, outcomes).contains(order[k] as int) {
        let j = choose|j: int|
            0 <= j < outcomes.len() && j < order.len() && outcomes[j] && #[trigger] order[j]
                == order[k] as int;
        assert(order[j] == order[k]);
    }
    let grown = removed(entries, outcomes).insert(order[k] as int);
    assert forall|f: int| removed(entries, longer).contains(f) implies grown.contains(f) by {
        let j = choose|j: int|
            0 <= j < longer.len() && j < order.len() && longer[j] && #[trigger] order[j] == f;
        if j < k {
            assert(outcomes[j]);
        }
    }
    assert forall|f: int| grown.contains(f) implies removed(entries, longer).contains(f) by {
        if f == order[k] as int {
            assert(longer[k] && order[k] == f);
        } else {
            let j = choose|j: int|
                0 <= j < outcomes.len() && j < order.len() && outcomes[j] && #[trigger] order[j]
                    == f;
            assert(longer[j]);
        }
    }
    assert(removed(entries, longer) =~= grown);
}

/// Deleting file `f` takes one off the count of the directory that held it,
/// which was above zero, and leaves every other count as it was.
proof fn lemma_counts_after_deletion(entries: Seq<Entry>, gone: Set<int>, f: int)
    requires
        well_formed(entries),
        entries.len() <= usize::MAX,
        0 <= f < entries.len(),
        entries[f] is File,
        !gone.contains(f),
    ensures
        match entries[f].parent() {
            Some(p) => {
                &&& counts_after(entries, gone).dom().contains(p)
                &&& counts_after(entries, gone)[p] > 0
                &&& counts_after(entries, gone.insert(f)) == counts_after(entries, gone).insert(
                    p,
                    (counts_after(entries, gone)[p] - 1) as usize,
                )
            },
            None => counts_after(entries, gone.insert(f)) == counts_after(entries, gone),
        },
{
    let more = gone.insert(f);
    assert forall|d: usize| d < entries.len() && entries[d as int] is Directory implies (
    #[trigger] counts_after(entries, more)[d]) == if entries[f].parent() == Some(d) {
        (counts_after(entries, gone)[d] - 1) as usize
    } else {
        counts_after(entries, gone)[d]
    } && (entries[f].parent() == Some(d) ==> counts_after(entries, gone)[d] > 0) by {
        lemma_removed_within(entries, gone, d as int);
        lemma_removed_within(entries, more, d as int);
        if entries[f].parent() == Some(d) {
            assert(removed_from(entries, more, d as int) == removed_from(
                entries,
                gone,
                d as int,
            ).insert(f));
        } else {
            assert(removed_from(entries, more, d as int) == removed_from(entries, gone, d as int));
        }
    }
    match entries[f].parent() {
        Some(p) => {
            assert(p < f && entries[p as int] is Directory);
            assert(counts_after(entries, more)[p] == (counts_after(entries, gone)[p] - 1) as usize);
            assert(counts_after(entries, gone)[p] > 0);
            assert(counts_after(entries, more) =~= counts_after(entries, gone).insert(
                p,
                (counts_after(entries, gone)[p] - 1) as usize,
            ));
        },
        None => {
            assert(counts_after(entries, more) =~= counts_after(entries, gone));
        },
    }
}

/// What a cleanup is, seen from outside: the inventory it works on, the
/// policy it follows, and what became of each deletion so far.
pub struct EvictionView {
    /// The path of the scan root.
    pub root: String,
    /// The entries of the inventory.
    pub entries: Seq<Entry>,
    /// The policy.
    pub policy: Policy,
    /// For each file given up so far, in eviction order, whether it was
    /// deleted.
    pub outcomes: Seq<bool>,
}

impl EvictionView {
    /// The file to delete next, if one is due.
    pub open spec fn pending(self) -> Option<usize> {
        if due(self.entries, self.policy, self.outcomes.len() as int) {
            Some(eviction_order(self.entries)[self.outcomes.len() as int])
        } else {
            None
        }
    }

    /// The running total: the total of the scan less the bytes of every file
    /// given up so far, deleted or not.
    pub open spec fn running(self) -> int {
        running_total(self.entries, self.outcomes.len() as int)
    }

    /// Whether directory `dir` is offered for removal: a cleanup was needed
    /// and the directory's count is not above zero.
    pub open spec fn prunable(self, dir: usize) -> bool {
        &&& cleanup_needed(self.entries, self.policy)
        &&& dir < self.entries.len()
        &&& self.entries[dir as int] is Directory
        &&& count_after(self.entries, removed(self.entries, self.outcomes), dir as int) <= 0
    }
}

/// A cleanup in progress.
#[derive(Debug)]
pub struct Eviction {
    inventory: Inventory,
    policy: Policy,
    order: Vec<usize>,
    outcomes: Vec<bool>,
    counts: DirFileCount,
    running: u128,
}

impl View for Eviction {
    type V = EvictionView;

    closed spec fn view(&self) -> EvictionView {
        EvictionView {
            root: self.inventory.root_path(),
            entries: self.inventory@,
            policy: self.policy,
            outcomes: self.outcomes@,
        }
    }
}

impl Eviction {
    #[verifier::type_invariant]
    spec fn inv(self) -> bool {
        let entries = self.inventory@;
        &&& entries.len() <= usize::MAX
        &&& cleanup_needed(entries, self.policy) ==> self.order@ == eviction_order(entries)
        &&& self.outcomes.len() <= eviction_order(entries).len()
        &&& forall|j: int| 0 <= j < self.outcomes.len() ==> due(entries, self.policy, j)
        &&& self.running == running_total(entries, self.outcomes.len() as int)
        &&& self.counts@ == counts_after(entries, removed(entries, self.outcomes@))
    }

    /// Starts the cleanup of `inventory` under `policy`: nothing has been
    /// given up yet.
    pub fn begin(inventory: Inventory, policy: Policy) -> (eviction: Eviction)
        ensures
            eviction@.root == inventory.root_path(),
            eviction@.entries == inventory@,
            eviction@.policy == policy,
            eviction@.outcomes == Seq::<bool>::empty(),
    {
        let order = plan(&inventory, &policy).victims;
        let counts = DirFileCount::seed(&inventory);
        let running = inventory.total_size();
        proof {
            inventory.lemma_len_fits();
            lemma_running_total_falls(inventory@, 0, 0);
            assert(removed(inventory@, Seq::<bool>::empty()) == Set::<int>::empty());
        }
        Eviction { inventory, policy, order, outcomes: Vec::new(), counts, running }
    }

    /// The inventory that is being cleaned up.
    pub fn inventory(&self) -> (inventory: &Inventory)
        ensures
            inventory@ == self@.entries,
            inventory.root_path() == self@.root,
    {
        &self.inventory
    }

    /// The policy that the cleanup follows.
    pub fn policy(&self) -> (policy: Policy)
        ensures
            policy == self@.policy,
    {
        self.policy
    }

    /// Whether a cleanup is needed at all: the total of the scan has reached
    /// the ceiling. Where it is not, no file is ever due and no directory is
    /// offered for removal.
    pub fn needed(&self) -> (needed: bool)
        ensures
            needed == cleanup_needed(self@.entries, self@.policy),
    {
        self.policy.needs_cleanup(self.inventory.total_size())
    }

    /// The number of files given up so far.
    pub fn given_up(&self) -> (n: usize)
        ensures
            n == self@.outcomes.len(),
    {
        self.outcomes.len()
    }

    /// For each file given up so far, in eviction order, whether it was
    /// deleted.
    pub fn outcomes(&self) -> (outcomes: &Vec<bool>)
        ensures
            outcomes@ == self@.outcomes,
    {
        &self.outcomes
    }

    /// The running total: the total of the scan less the bytes of every file
    /// given up so far, whether its deletion was done or failed. It never
    /// exceeds the total of the scan.
    pub fn running_total(&self) -> (total: u128)
        ensures
            total == self@.running(),
            total <= total_size(self@.entries),
    {
        proof {
            use_type_invariant(self);
            lemma_running_total_falls(self.inventory@, 0, self.outcomes.len() as int);
        }
        self.running
    }

    /// The file to delete next: the oldest one not yet given up, as long as
    /// a cleanup is needed and the running total is above the low-water
    /// mark. `None` says that the cleanup is over.
    pub fn next_victim(&self) -> (victim: Option<usize>)
        ensures
            victim == self@.pending(),
            victim matches Some(f) ==> f < self@.entries.len() && self@.entries[f as int] is File,
            victim.is_none() ==> self@.outcomes.len() == evicted(self@.entries, self@.policy),
    {
        proof {
            use_type_invariant(self);
            lemma_eviction_order(self.inventory@);
        }
        let k = self.outcomes.len();
        let victim = if self.needed() && k < self.order.len() && self.running
            > self.policy.target_bytes() {
            Some(self.order[k])
        } else {
            None
        };
        proof {
            if victim.is_none() {
                lemma_stops_where_not_due(self.inventory@, self.policy, 0, k as int);
            }
        }
        victim
    }

    /// Takes the report on the file that [`Eviction::next_victim`] named:
    /// `deleted` says whether it is gone. Either way its bytes leave the
    /// running total; only a deletion that was done takes the file off the
    /// count of the directory that held it. Where no file was due, nothing
    /// changes.
    pub fn record(self, deleted: bool) -> (next: Eviction)
        ensures
            next@.root == self@.root,
            next@.entries == self@.entries,
            next@.policy == self@.policy,
            next@.outcomes == if self@.pending() is Some {
                self@.outcomes.push(deleted)
            } else {
                self@.outcomes
            },
    {
        let victim = self.next_victim();
        proof {
            use_type_invariant(&self);
        }
        match victim {
            None => self,
            Some(f) => {
                let Eviction { inventory, policy, order, mut outcomes, mut counts, running } = self;
                let ghost entries = inventory@;
                let ghost before = outcomes@;
                let (size, parent) = match &inventory.entries()[f] {
                    Entry::File(file) => (file.size, file.parent),
                    Entry::Directory(_) => (0, None),
                };
                proof {
                    lemma_consumed_step(entries, before.len() as int);
                    lemma_running_total_falls(entries, 0, before.len() as int + 1);
                    if deleted {
                        lemma_removed_push_done(entries, before);
                        lemma_counts_after_deletion(entries, removed(entries, before), f as int);
                    } else {
                        lemma_removed_push_failed(entries, before);
                    }
                }
                if deleted {
                    match parent {
                        Some(p) => counts.decrement(p),
                        None => {},
                    }
                }
                outcomes.push(deleted);
                Eviction {
                    inventory,
                    policy,
                    order,
                    outcomes,
                    counts,
                    running: running - size as u128,
                }
            },
        }
    }

    /// The count kept for directory `dir`: the files found in it or below
    /// it, less those deleted from the directory itself. `None` where `dir`
    /// is no directory of the inventory.
    pub fn count(&self, dir: usize) -> (count: Option<usize>)
        ensures
            count == if dir < self@.entries.len() && self@.entries[dir as int] is Directory {
                Some(
                    count_after(
                        self@.entries,
                        removed(self@.entries, self@.outcomes),
                        dir as int,
                    ) as usize,
                )
            } else {
                None
            },
    {
        proof {
            use_type_invariant(self);
        }
        self.counts.get(dir)
    }

    /// The directories to remove: where a cleanup was needed, every
    /// directory whose count is not above zero, each before the directory
    /// that holds it; else none.
    pub fn prune_candidates(&self) -> (dirs: Vec<usize>)
        ensures
            forall|d: usize| dirs@.contains(d) <==> self@.prunable(d),
            forall|j: int, k: int| 0 <= j < k < dirs.len() ==> dirs[j] > dirs[k],
    {
        proof {
            use_type_invariant(self);
        }
        if self.needed() {
            let dirs = self.counts.empty_directories();
            proof {
                assert forall|d: usize| dirs@.contains(d) <==> self@.prunable(d) by {
                    lemma_removed_within(
                        self.inventory@,
                        removed(self.inventory@, self.outcomes@),
                        d as int,
                    );
                }
            }
            dirs
        } else {
            let dirs: Vec<usize> = Vec::new();
            assert(forall|d: usize| !dirs@.contains(d));
            dirs
        }
    }
}

} // verus!
