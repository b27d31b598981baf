//! The order in which files are given up: oldest first, and among files of
//! one age the one that the scan found first.

use crate::inventory::{file_count, Entry, Inventory};
use vstd::prelude::*;
use vstd::relations::{sorted_by, total_ordering};
use vstd::seq_lib::{group_to_multiset_ensures, lemma_sorted_unique, to_multiset_build};

verus! {

/// The indices of the files among `entries`, in the order of their discovery.
pub open spec fn file_indices(entries: Seq<Entry>) -> Seq<usize>
    decreases entries.len(),
{
    if entries.len() == 0 {
        Seq::empty()
    } else if entries.last() is File {
        file_indices(entries.drop_last()).push((entries.len() - 1) as usize)
    } else {
        file_indices(entries.drop_last())
    }
}

/// The modification time of entry `i`, and 0 where there is no such entry.
pub open spec fn modified_at(entries: Seq<Entry>, i: usize) -> u64 {
    if i < entries.len() {
        entries[i as int].modified()
    } else {
        0
    }
}

/// Whether entry `a` is given up no later than entry `b`: it is older, or of
/// the same age and found no later.
pub open spec fn precedes(entries: Seq<Entry>, a: usize, b: usize) -> bool {
    modified_at(entries, a) < modified_at(entries, b) || (modified_at(entries, a) == modified_at(
        entries,
        b,
    ) && a <= b)
}

/// [`precedes`] as a relation on indices.
pub open spec fn older_first(entries: Seq<Entry>) -> spec_fn(usize, usize) -> bool {
    |a: usize, b: usize| precedes(entries, a, b)
}

/// All files of `entries`, oldest first; files of one age stay in the order
/// of their discovery.
pub open spec fn eviction_order(entries: Seq<Entry>) -> Seq<usize> {
    file_indices(entries).sort_by(older_first(entries))
}

/// `file_indices` lists every file once, in increasing order, and nothing else.
pub proof fn lemma_file_indices(entries: Seq<Entry>)
    requires
        entries.len() <= usize::MAX,
    ensures
        file_indices(entries).len() == file_count(entries),
        forall|k: int|
            0 <= k < file_indices(entries).len() ==> (#[trigger] file_indices(entries)[k])
                < entries.len() && entries[file_indices(entries)[k] as int] is File,
        forall|j: int, k: int|
            0 <= j < k < file_indices(entries).len() ==> file_indices(entries)[j] < file_indices(
                entries,
            )[k],
        forall|f: int|
            0 <= f < entries.len() && entries[f] is File ==> file_indices(entries).contains(
                f as usize,
            ),
    decreases entries.len(),
{
    if entries.len() > 0 {
        let shorter = entries.drop_last();
        lemma_file_indices(shorter);
        let found = file_indices(entries);
        let before = file_indices(shorter);
        assert forall|f: int| 0 <= f < entries.len() && entries[f] is File implies found.contains(
            f as usize,
        ) by {
            if f < shorter.len() {
                assert(shorter[f] is File);
                let k = choose|k: int| 0 <= k < before.len() && before[k] == f as usize;
                assert(found[k] == f as usize);
            } else {
                assert(found[found.len() - 1] == f as usize);
            }
        }
    }
}

/// `older_first` is a total order on indices.
pub proof fn lemma_older_first_total(entries: Seq<Entry>)
    ensures
        total_ordering(older_first(entries)),
{
}

/// The eviction order holds exactly the files of `entries`, each once, and
/// no file in it comes before an older one.
pub proof fn lemma_eviction_order(entries: Seq<Entry>)
    requires
        entries.len() <= usize::MAX,
    ensures
        eviction_order(entries).to_multiset() == file_indices(entries).to_multiset(),
        eviction_order(entries).len() == file_count(entries),
        eviction_order(entries).no_duplicates(),
        forall|k: int|
            0 <= k < eviction_order(entries).len() ==> (#[trigger] eviction_order(entries)[k])
                < entries.len() && entries[eviction_order(entries)[k] as int] is File,
        forall|f: int|
            0 <= f < entries.len() && entries[f] is File ==> eviction_order(entries).contains(
                f as usize,
            ),
        forall|j: int, k: int|
            0 <= j < k < eviction_order(entries).len() ==> precedes(
                entries,
                #[trigger] eviction_order(entries)[j],
                #[trigger] eviction_order(entries)[k],
            ),
{
    broadcast use group_to_multiset_ensures;

    let found = file_indices(entries);
    let order = eviction_order(entries);
    lemma_older_first_total(entries);
    lemma_file_indices(entries);
    found.lemma_sort_by_ensures(older_first(entries));
    assert(order.len() == found.len()) by {
        assert(order.to_multiset().len() == found.to_multiset().len());
    }
    assert forall|k: int| 0 <= k < order.len() implies (#[trigger] order[k]) < entries.len()
        && entries[order[k] as int] is File by {
        assert(order.contains(order[k]));
        assert(found.contains(order[k]));
    }
    assert forall|f: int| 0 <= f < entries.len() && entries[f] is File implies order.contains(
        f as usize,
    ) by {
        assert(found.contains(f as usize));
        assert(found.to_multiset().count(f as usize) > 0);
        assert(order.to_multiset().count(f as usize) > 0);
    }
    assert(found.no_duplicates());
    found.lemma_multiset_has_no_duplicates();
    order.lemma_multiset_has_no_duplicates_conv();
    assert forall|j: int, k: int| 0 <= j < k < order.len() implies precedes(
        entries,
        #[trigger] order[j],
        #[trigger] order[k],
    ) by {
        assert(older_first(entries)(order[j], order[k]));
    }
}

fn precedes_at(entries: &Vec<Entry>, a: usize, b: usize) -> (r: bool)
    requires
        a < entries.len(),
        b < entries.len(),
    ensures
        r == precedes(entries@, a, b),
{
    let age_a = modified_of(&entries[a]);
    let age_b = modified_of(&entries[b]);
    age_a < age_b || (age_a == age_b && a <= b)
}

fn modified_of(entry: &Entry) -> (m: u64)
    ensures
        m == entry.modified(),
{
    match entry {
        Entry::File(f) => f.modified,
        Entry::Directory(_) => 0,
    }
}

/// Whether `pool` is in eviction order.
spec fn in_order(entries: Seq<Entry>, pool: Seq<usize>) -> bool {
    forall|j: int, k: int|
        0 <= j < k < pool.len() ==> precedes(entries, #[trigger] pool[j], #[trigger] pool[k])
}

/// Whether every member of `pool` is the index of an entry.
spec fn in_range(entries: Seq<Entry>, pool: Seq<usize>) -> bool {
    forall|k: int| 0 <= k < pool.len() ==> (#[trigger] pool[k]) < entries.len()
}

/// Merges two runs that are in eviction order into one.
fn merge(entries: &Vec<Entry>, left: &Vec<usize>, right: &Vec<usize>) -> (merged: Vec<usize>)
    requires
        in_range(entries@, left@),
        in_range(entries@, right@),
        in_order(entries@, left@),
        in_order(entries@, right@),
    ensures
        in_range(entries@, merged@),
        in_order(entries@, merged@),
        merged@.to_multiset() == left@.to_multiset().add(right@.to_multiset()),
{
    broadcast use group_to_multiset_ensures;
    broadcast use vstd::multiset::group_multiset_axioms;

    let mut merged: Vec<usize> = Vec::new();
    let mut i: usize = 0;
    let mut j: usize = 0;
    while i < left.len() || j < right.len()
        invariant
            i <= left.len(),
            j <= right.len(),
            in_range(entries@, left@),
            in_range(entries@, right@),
            in_order(entries@, left@),
            in_order(entries@, right@),
            in_range(entries@, merged@),
            in_order(entries@, merged@),
            merged@.to_multiset() == left@.take(i as int).to_multiset().add(
                right@.take(j as int).to_multiset(),
            ),
            merged.len() > 0 && i < left.len() ==> precedes(
                entries@,
                merged@.last(),
                left[i as int],
            ),
            merged.len() > 0 && j < right.len() ==> precedes(
                entries@,
                merged@.last(),
                right[j as int],
            ),
        decreases left.len() - i + right.len() - j,
    {
        let ghost before = merged@;
        let take_left = if i >= left.len() {
            false
        } else if j >= right.len() {
            true
        } else {
            precedes_at(entries, left[i], right[j])
        };
        let next = if take_left {
            left[i]
        } else {
            right[j]
        };
        merged.push(next);
        proof {
            assert forall|a: int, b: int| 0 <= a < b < merged@.len() implies precedes(
                entries@,
                #[trigger] merged@[a],
                #[trigger] merged@[b],
            ) by {
                if b == before.len() && a < before.len() - 1 {
                    assert(precedes(entries@, before[a], before[before.len() - 1]));
                }
            }
            let taken_left = left@.take(i as int);
            let taken_right = right@.take(j as int);
            assert(merged@ == before.push(next));
            to_multiset_build(before, next);
            if take_left {
                assert(left@.take(i + 1) == taken_left.push(next));
                to_multiset_build(taken_left, next);
                assert(merged@.to_multiset() =~= left@.take(i + 1).to_multiset().add(
                    taken_right.to_multiset(),
                ));
                if i + 1 < left.len() {
                    assert(precedes(entries@, left[i as int], left[i + 1]));
                }
            } else {
                assert(right@.take(j + 1) == taken_right.push(next));
                to_multiset_build(taken_right, next);
                assert(merged@.to_multiset() =~= taken_left.to_multiset().add(
                    right@.take(j + 1).to_multiset(),
                ));
                if j + 1 < right.len() {
                    assert(precedes(entries@, right[j as int], right[j + 1]));
                }
            }
        }
        if take_left {
            i = i + 1;
        } else {
            j = j + 1;
        }
    }
    assert(left@.take(i as int) == left@);
    assert(right@.take(j as int) == right@);
    merged
}

/// Returns the members of `pool` from `lo` up to `hi` in eviction order.
fn sort_range(entries: &Vec<Entry>, pool: &Vec<usize>, lo: usize, hi: usize) -> (sorted: Vec<usize>)
    requires
        lo <= hi <= pool.len(),
        in_range(entries@, pool@),
    ensures
        in_range(entries@, sorted@),
        in_order(entries@, sorted@),
        sorted@.to_multiset() == pool@.subrange(lo as int, hi as int).to_multiset(),
    decreases hi - lo,
{
    broadcast use group_to_multiset_ensures;
    broadcast use vstd::multiset::group_multiset_axioms;

    if hi - lo <= 1 {
        let mut sorted: Vec<usize> = Vec::new();
        if lo < hi {
            sorted.push(pool[lo]);
        }
        assert(sorted@ == pool@.subrange(lo as int, hi as int));
        sorted
    } else {
        let mid = lo + (hi - lo) / 2;
        let left = sort_range(entries, pool, lo, mid);
        let right = sort_range(entries, pool, mid, hi);
        let merged = merge(entries, &left, &right);
        proof {
            let whole = pool@.subrange(lo as int, hi as int);
            let first = pool@.subrange(lo as int, mid as int);
            let second = pool@.subrange(mid as int, hi as int);
            assert(whole == first + second);
            vstd::seq_lib::lemma_multiset_commutative(first, second);
        }
        merged
    }
}

/// Lists all files of `inventory`, oldest first; files of one age stay in the
/// order of their discovery.
pub fn oldest_first(inventory: &Inventory) -> (order: Vec<usize>)
    ensures
        order@ == eviction_order(inventory@),
{
    let entries = inventory.entries();
    let mut pool: Vec<usize> = Vec::new();
    let mut i: usize = 0;
    while i < entries.len()
        invariant
            i <= entries.len(),
            pool@ == file_indices(entries@.take(i as int)),
        decreases entries.len() - i,
    {
        proof {
            assert(entries@.take(i + 1).drop_last() == entries@.take(i as int));
        }
        match &entries[i] {
            Entry::File(_) => {
                pool.push(i);
            },
            Entry::Directory(_) => {},
        }
        i = i + 1;
    }
    proof {
        assert(entries@.take(i as int) == entries@);
        lemma_file_indices(entries@);
    }
    let order = sort_range(entries, &pool, 0, pool.len());
    proof {
        let leq = older_first(entries@);
        assert(pool@.subrange(0, pool.len() as int) == pool@);
        lemma_older_first_total(entries@);
        pool@.lemma_sort_by_ensures(leq);
        assert(sorted_by(order@, leq));
        lemma_sorted_unique(order@, eviction_order(entries@), leq);
    }
    order
}

} // verus!
