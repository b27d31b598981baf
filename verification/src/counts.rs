//! How many tracked files each directory still holds.

use crate::inventory::{lies_under, reaches, well_formed, Entry, Inventory};
use vstd::prelude::*;
use vstd::set_lib::{lemma_int_range, lemma_len_subset, lemma_set_subset_finite};

verus! {

/// The files among the first `n` entries that lie in directory `dir` or
/// below it.
pub open spec fn files_under_before(entries: Seq<Entry>, dir: int, n: int) -> Set<int> {
    Set::new(
        |f: int|
            0 <= f < n && f < entries.len() && entries[f] is File && lies_under(entries, f, dir),
    )
}

/// The files that lie in directory `dir` or below it.
pub open spec fn files_under(entries: Seq<Entry>, dir: int) -> Set<int> {
    files_under_before(entries, dir, entries.len() as int)
}

/// The files of `removed` that lay in directory `dir` itself.
pub open spec fn removed_from(entries: Seq<Entry>, removed: Set<int>, dir: int) -> Set<int> {
    Set::new(
        |f: int|
            0 <= f < entries.len() && entries[f] is File && removed.contains(f) && (
            entries[f].parent() matches Some(p) && p == dir),
    )
}

/// The count that is kept for directory `dir` once the files of `removed`
/// have been deleted: the files found in it or below it, less those deleted
/// from the directory itself.
pub open spec fn count_after(entries: Seq<Entry>, removed: Set<int>, dir: int) -> int {
    files_under(entries, dir).len() - removed_from(entries, removed, dir).len()
}

/// The counts of all directories of `entries` once the files of `removed`
/// have been deleted.
pub open spec fn counts_after(entries: Seq<Entry>, removed: Set<int>) -> Map<usize, usize> {
    Map::new(
        |d: usize| d < entries.len() && entries[d as int] is Directory,
        |d: usize| count_after(entries, removed, d as int) as usize,
    )
}

/// Walking upwards never arrives at a later entry.
pub proof fn lemma_reaches_below(entries: Seq<Entry>, from: int, dir: int)
    requires
        reaches(entries, from, dir),
    ensures
        dir <= from,
    decreases from,
{
    if from != dir {
        lemma_reaches_below(entries, entries[from].parent().unwrap() as int, dir);
    }
}

/// Among the first `n` entries at most `n` files lie under a directory.
pub proof fn lemma_files_under_before(entries: Seq<Entry>, dir: int, n: int)
    requires
        0 <= n,
    ensures
        files_under_before(entries, dir, n).finite(),
        files_under_before(entries, dir, n).len() <= n,
{
    lemma_int_range(0, n);
    let range = vstd::set_lib::set_int_range(0, n);
    assert(files_under_before(entries, dir, n).subset_of(range));
    lemma_set_subset_finite(range, files_under_before(entries, dir, n));
    lemma_len_subset(files_under_before(entries, dir, n), range);
}

/// A file adds one to the count of each directory above it, and no other
/// entry adds anything.
pub proof fn lemma_files_under_step(entries: Seq<Entry>, dir: int, n: int)
    requires
        0 <= n < entries.len(),
    ensures
        files_under_before(entries, dir, n + 1).len() == files_under_before(entries, dir, n).len()
            + if entries[n] is File && lies_under(entries, n, dir) {
            1int
        } else {
            0int
        },
{
    lemma_files_under_before(entries, dir, n);
    if entries[n] is File && lies_under(entries, n, dir) {
        let before = files_under_before(entries, dir, n);
        assert(files_under_before(entries, dir, n + 1) == before.insert(n));
    } else {
        assert(files_under_before(entries, dir, n + 1) == files_under_before(entries, dir, n));
    }
}

/// The files deleted from a directory are among the files under it, so no
/// count falls below zero.
pub proof fn lemma_removed_within(entries: Seq<Entry>, removed: Set<int>, dir: int)
    ensures
        removed_from(entries, removed, dir).finite(),
        removed_from(entries, removed, dir).subset_of(files_under(entries, dir)),
        0 <= count_after(entries, removed, dir) <= entries.len(),
{
    lemma_files_under_before(entries, dir, entries.len() as int);
    assert forall|f: int| removed_from(entries, removed, dir).contains(f) implies files_under(
        entries,
        dir,
    ).contains(f) by {
        let p = entries[f].parent().unwrap();
        assert(reaches(entries, p as int, dir));
    }
    lemma_set_subset_finite(files_under(entries, dir), removed_from(entries, removed, dir));
    lemma_len_subset(removed_from(entries, removed, dir), files_under(entries, dir));
}

/// For each directory of an inventory, the number of tracked files that it
/// still holds. The scan root has no count.
#[derive(Debug)]
pub struct DirFileCount {
    counts: Vec<Option<usize>>,
}

impl View for DirFileCount {
    type V = Map<usize, usize>;

    closed spec fn view(&self) -> Map<usize, usize> {
        Map::new(
            |d: usize| d < self.counts.len() && self.counts[d as int] is Some,
            |d: usize| self.counts[d as int].unwrap(),
        )
    }
}

fn parent_of(entry: &Entry) -> (parent: Option<usize>)
    ensures
        parent == entry.parent(),
{
    match entry {
        Entry::File(f) => f.parent,
        Entry::Directory(d) => d.parent,
    }
}

/// Whether walking upwards from `from` passes through `dir`; from the scan
/// root nothing is reached.
spec fn reaches_from(entries: Seq<Entry>, from: Option<usize>, dir: int) -> bool {
    match from {
        Some(p) => reaches(entries, p as int, dir),
        None => false,
    }
}

/// What is kept for entry `d` while `held` files are counted for it: the
/// count for a directory, nothing for a file.
spec fn slot(entries: Seq<Entry>, d: int, held: int) -> Option<usize> {
    if entries[d] is Directory {
        Some(held as usize)
    } else {
        None
    }
}

/// Whether `counts` holds what the first `n` entries add up to, and of file
/// `n` what it adds to the directories from its own up to, but not
/// including, `cur`.
spec fn counted(
    entries: Seq<Entry>,
    counts: Seq<Option<usize>>,
    n: int,
    cur: Option<usize>,
) -> bool {
    &&& counts.len() == entries.len()
    &&& forall|d: int|
        0 <= d < entries.len() ==> (#[trigger] counts[d]) == slot(
            entries,
            d,
            files_under_before(entries, d, n).len() + if lies_under(entries, n, d)
                && !reaches_from(entries, cur, d) {
                1int
            } else {
                0int
            },
        )
}

/// Whether `counts` holds what the first `n` entries add up to.
spec fn counted_before(entries: Seq<Entry>, counts: Seq<Option<usize>>, n: int) -> bool {
    &&& counts.len() == entries.len()
    &&& forall|d: int|
        0 <= d < entries.len() ==> (#[trigger] counts[d]) == slot(
            entries,
            d,
            files_under_before(entries, d, n).len() as int,
        )
}

/// Adds file `i` to the count of every directory above it.
fn count_file(entries: &Vec<Entry>, counts: &mut Vec<Option<usize>>, i: usize)
    requires
        well_formed(entries@),
        i < entries.len(),
        entries[i as int] is File,
        counted_before(entries@, old(counts)@, i as int),
    ensures
        counted_before(entries@, final(counts)@, i + 1),
{
    let mut cur = parent_of(&entries[i]);
    while cur.is_some()
        invariant
            well_formed(entries@),
            i < entries.len(),
            entries[i as int] is File,
            (cur matches Some(p) ==> p < i && entries[p as int] is Directory),
            forall|d: int| reaches_from(entries@, cur, d) ==> lies_under(entries@, i as int, d),
            counted(entries@, counts@, i as int, cur),
        decreases
                match cur {
                    Some(p) => p + 1,
                    None => 0,
                },
    {
        let p = cur.unwrap();
        let next = parent_of(&entries[p]);
        let ghost before = counts@;
        proof {
            lemma_files_under_before(entries@, p as int, i as int);
            assert(reaches(entries@, p as int, p as int));
            assert(before[p as int] == slot(
                entries@,
                p as int,
                files_under_before(entries@, p as int, i as int).len() as int,
            ));
        }
        let held = counts[p].unwrap();
        counts.set(p, Some(held + 1));
        proof {
            assert forall|d: int| reaches_from(entries@, next, d) implies lies_under(
                entries@,
                i as int,
                d,
            ) by {
                assert(reaches(entries@, p as int, d));
            }
            assert forall|d: int| 0 <= d < entries.len() implies (#[trigger] counts[d]) == slot(
                entries@,
                d,
                files_under_before(entries@, d, i as int).len() + if lies_under(
                    entries@,
                    i as int,
                    d,
                ) && !reaches_from(entries@, next, d) {
                    1int
                } else {
                    0int
                },
            ) by {
                lemma_files_under_before(entries@, d, i as int);
                if d == p {
                    if reaches_from(entries@, next, d) {
                        lemma_reaches_below(entries@, next.unwrap() as int, d);
                    }
                } else {
                    assert(counts[d] == before[d]);
                    assert(reaches(entries@, p as int, d) == reaches_from(entries@, next, d));
                }
            }
        }
        cur = next;
    }
    proof {
        assert forall|d: int| 0 <= d < entries.len() implies (#[trigger] counts[d]) == slot(
            entries@,
            d,
            files_under_before(entries@, d, i + 1).len() as int,
        ) by {
            lemma_files_under_step(entries@, d, i as int);
        }
    }
}

impl DirFileCount {
    /// Counts, for each directory of `inventory`, the files in it and below
    /// it. A directory that holds no file gets the count 0.
    pub fn seed(inventory: &Inventory) -> (counts: DirFileCount)
        ensures
            counts@ == counts_after(inventory@, Set::<int>::empty()),
    {
        let entries = inventory.entries();
        let mut counts: Vec<Option<usize>> = Vec::new();
        let mut i: usize = 0;
        while i < entries.len()
            invariant
                i <= entries.len(),
                counts.len() == i,
                forall|d: int| 0 <= d < i ==> (#[trigger] counts[d]) == slot(entries@, d, 0),
            decreases entries.len() - i,
        {
            match &entries[i] {
                Entry::Directory(_) => counts.push(Some(0)),
                Entry::File(_) => counts.push(None),
            }
            i = i + 1;
        }
        proof {
            assert forall|d: int| 0 <= d < entries.len() implies (#[trigger] counts[d]) == slot(
                entries@,
                d,
                files_under_before(entries@, d, 0).len() as int,
            ) by {
                assert(files_under_before(entries@, d, 0) == Set::<int>::empty());
            }
        }
        let mut i: usize = 0;
        while i < entries.len()
            invariant
                i <= entries.len(),
                well_formed(entries@),
                counted_before(entries@, counts@, i as int),
            decreases entries.len() - i,
        {
            match &entries[i] {
                Entry::File(_) => count_file(entries, &mut counts, i),
                Entry::Directory(_) => {
                    proof {
                        assert forall|d: int| 0 <= d < entries.len() implies (
                        #[trigger] counts[d]) == slot(
                            entries@,
                            d,
                            files_under_before(entries@, d, i + 1).len() as int,
                        ) by {
                            lemma_files_under_step(entries@, d, i as int);
                        }
                    }
                },
            }
            i = i + 1;
        }
        let seeded = DirFileCount { counts };
        proof {
            assert forall|d: usize|
                d < entries.len() && entries[d as int] is Directory implies #[trigger] seeded@[d]
                == counts_after(entries@, Set::<int>::empty())[d] by {
                let none = Set::<int>::empty();
                assert(removed_from(entries@, none, d as int) == none);
                assert(seeded.counts[d as int] == slot(
                    entries@,
                    d as int,
                    files_under_before(entries@, d as int, i as int).len() as int,
                ));
            }
            assert(seeded@ =~= counts_after(entries@, Set::<int>::empty()));
        }
        seeded
    }

    /// The count kept for directory `dir`, or `None` where `dir` is no
    /// directory of the inventory.
    pub fn get(&self, dir: usize) -> (count: Option<usize>)
        ensures
            count == if self@.dom().contains(dir) {
                Some(self@[dir])
            } else {
                None
            },
    {
        if dir < self.counts.len() {
            self.counts[dir]
        } else {
            None
        }
    }

    /// Takes one file off the count of directory `dir`.
    pub(crate) fn decrement(&mut self, dir: usize)
        requires
            old(self)@.dom().contains(dir),
            old(self)@[dir] > 0,
        ensures
            final(self)@ == old(self)@.insert(dir, (old(self)@[dir] - 1) as usize),
    {
        let held = self.counts[dir].unwrap();
        self.counts.set(dir, Some(held - 1));
        assert(self@ =~= old(self)@.insert(dir, (old(self)@[dir] - 1) as usize));
    }

    /// The directories whose count has fallen to zero, each before the
    /// directory that holds it.
    pub fn empty_directories(&self) -> (dirs: Vec<usize>)
        ensures
            forall|d: usize| dirs@.contains(d) <==> self@.dom().contains(d) && self@[d] == 0,
            forall|j: int, k: int| 0 <= j < k < dirs.len() ==> dirs[j] > dirs[k],
    {
        let mut dirs: Vec<usize> = Vec::new();
        let mut i: usize = self.counts.len();
        while i > 0
            invariant
                i <= self.counts.len(),
                forall|d: usize|
                    dirs@.contains(d) <==> i <= d && self@.dom().contains(d) && self@[d] == 0,
                forall|j: int, k: int| 0 <= j < k < dirs.len() ==> dirs[j] > dirs[k],
                forall|j: int| 0 <= j < dirs.len() ==> dirs[j] >= i,
            decreases i,
        {
            i = i - 1;
            let ghost before = dirs@;
            let empty = match self.counts[i] {
                Some(held) => held == 0,
                None => false,
            };
            if empty {
                dirs.push(i);
                proof {
                    assert(dirs@.last() == i);
                    assert forall|d: usize|
                        dirs@.contains(d) <==> i <= d && self@.dom().contains(d) && self@[d]
                            == 0 by {
                        if dirs@.contains(d) {
                            let k = choose|k: int| 0 <= k < dirs@.len() && dirs@[k] == d;
                            if k < before.len() {
                                assert(before.contains(d));
                            }
                        }
                        if i <= d && self@.dom().contains(d) && self@[d] == 0 {
                            if d == i {
                                assert(dirs@[before.len() as int] == d);
                            } else {
                                assert(before.contains(d));
                                let k = choose|k: int| 0 <= k < before.len() && before[k] == d;
                                assert(dirs@[k] == d);
                            }
                        }
                    }
                }
            }
        }
        dirs
    }
}

} // verus!
