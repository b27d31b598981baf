//! The walk over the tree, one directory at a time.
//!
//! The scanner keeps the directories that are still to be listed. Its caller
//! lists the one that [`Scanner::next_action`] names and hands the listing to
//! [`Scanner::absorb`], until nothing is left to list.

use crate::inventory::{is_place, DirectoryEntry, Entry, FileEntry, Inventory};
use vstd::prelude::*;

verus! {

/// What the caller found out about one child of a listed directory.
#[derive(Debug)]
pub enum ChildReport {
    /// The child is a directory.
    Directory { path: String },
    /// The child is a file of `size` bytes. `modified` and `created` are its
    /// modification and its creation time in seconds since the Unix epoch,
    /// each `None` where the file system does not give it.
    File { path: String, size: u64, modified: Option<u64>, created: Option<u64> },
    /// The child's metadata could not be read.
    Unreadable { path: String },
}

impl ChildReport {
    /// The time by which a file is aged: its modification time, or where
    /// that is not known its creation time.
    pub open spec fn time(self) -> Option<u64> {
        match self {
            ChildReport::File { modified: Some(modified), .. } => Some(modified),
            ChildReport::File { modified: None, created, .. } => created,
            _ => None,
        }
    }

    /// Whether this is a file of which no time is known.
    pub open spec fn lacks_time(self) -> bool {
        self is File && self.time() is None
    }
}

/// What listing a directory gave.
#[derive(Debug)]
pub enum Listing {
    /// The directory could not be listed.
    Failed,
    /// The directory's children, in the order in which the file system named
    /// them.
    Children(Vec<ChildReport>),
}

/// Why a scan was given up.
#[derive(Clone, Copy, Debug, PartialEq, Eq)]
pub enum ScanError {
    /// A directory, the scan root or one below it, could not be listed.
    Unlistable,
    /// Neither the modification nor the creation time of a file is known.
    NoTimestamp,
}

/// What the caller is to do next.
#[derive(Clone, Copy, Debug, PartialEq, Eq)]
pub enum ScanAction {
    /// List this directory: the scan root for `None`, else the directory
    /// with this index in the inventory.
    List { dir: Option<usize> },
    /// Every directory has been listed.
    Finish,
}

/// Whether some child is a file of which no time is known.
pub open spec fn untimed(children: Seq<ChildReport>) -> bool {
    exists|i: int| 0 <= i < children.len() && (#[trigger] children[i]).lacks_time()
}

/// The entries after the children of directory `dir` have been added to
/// `entries`: a directory and a file with a time become entries found in
/// `dir`, in the order of the listing, the file with the time by which it
/// is aged; anything else is skipped.
pub open spec fn absorbed(
    entries: Seq<Entry>,
    dir: Option<usize>,
    children: Seq<ChildReport>,
) -> Seq<Entry>
    decreases children.len(),
{
    if children.len() == 0 {
        entries
    } else {
        let before = absorbed(entries, dir, children.drop_last());
        match children.last() {
            ChildReport::Directory { path } => before.push(
                Entry::Directory(DirectoryEntry { path, parent: dir }),
            ),
            ChildReport::File { path, size, .. } => match children.last().time() {
                Some(modified) => before.push(
                    Entry::File(FileEntry { path, size, modified, parent: dir }),
                ),
                None => before,
            },
            ChildReport::Unreadable { .. } => before,
        }
    }
}

/// The directories among `entries` from index `from` on, in the order of
/// their discovery.
pub open spec fn directories_from(entries: Seq<Entry>, from: int) -> Seq<Option<usize>>
    decreases entries.len(),
{
    if entries.len() <= from || entries.len() == 0 {
        Seq::empty()
    } else if entries.last() is Directory {
        directories_from(entries.drop_last(), from).push(Some((entries.len() - 1) as usize))
    } else {
        directories_from(entries.drop_last(), from)
    }
}

/// What a scanner is, seen from outside.
pub struct ScannerView {
    /// The scan root's path.
    pub root: String,
    /// What has been found so far.
    pub entries: Seq<Entry>,
    /// The directories still to be listed; the last one is listed next.
    /// `None` stands for the scan root.
    pub pending: Seq<Option<usize>>,
}

/// A scan in progress.
#[derive(Debug)]
pub struct Scanner {
    inventory: Inventory,
    pending: Vec<Option<usize>>,
}

impl View for Scanner {
    type V = ScannerView;

    closed spec fn view(&self) -> ScannerView {
        ScannerView {
            root: self.inventory.root_path(),
            entries: self.inventory@,
            pending: self.pending@,
        }
    }
}

impl Scanner {
    #[verifier::type_invariant]
    spec fn inv(self) -> bool {
        forall|j: int|
            0 <= j < self.pending.len() ==> is_place(self.inventory@, #[trigger] self.pending[j])
    }

    /// A scan of the tree under `root` of which nothing has been listed yet.
    pub fn new(root: String) -> (scanner: Scanner)
        ensures
            scanner@.root == root,
            scanner@.entries == Seq::<Entry>::empty(),
            scanner@.pending == seq![None::<usize>],
    {
        let mut pending: Vec<Option<usize>> = Vec::new();
        pending.push(None);
        Scanner { inventory: Inventory::new(root), pending }
    }

    /// What to do next: list the directory that was found last among those
    /// not listed yet, or finish.
    pub fn next_action(&self) -> (action: ScanAction)
        ensures
            action == if self@.pending.len() > 0 {
                ScanAction::List { dir: self@.pending.last() }
            } else {
                ScanAction::Finish
            },
            action matches ScanAction::List { dir } ==> is_place(self@.entries, dir),
    {
        proof {
            use_type_invariant(self);
        }
        let n = self.pending.len();
        if n > 0 {
            ScanAction::List { dir: self.pending[n - 1] }
        } else {
            ScanAction::Finish
        }
    }

    /// The path of the directory to list: of the scan root for `None`, else
    /// of the directory with this index. `None` where there is no such
    /// directory.
    pub fn path_of(&self, dir: Option<usize>) -> (path: Option<&String>)
        ensures
            path == if is_place(self@.entries, dir) {
                match dir {
                    Some(d) => Some(&self@.entries[d as int].path()),
                    None => Some(&self@.root),
                }
            } else {
                None
            },
    {
        self.inventory.place_path(dir)
    }

    /// Takes the listing of the directory that [`Scanner::next_action`]
    /// named. Its directories and files are added to the inventory as found
    /// in that directory, and its directories are set down for listing. A
    /// listing that failed, or a file of which no time is known, ends the
    /// scan with an error, and what was found is dropped. Where nothing was
    /// to be listed, nothing changes.
    pub fn absorb(self, listing: Listing) -> (next: Result<Scanner, ScanError>)
        ensures
            self@.pending.len() == 0 ==> next is Ok && next->Ok_0@ == self@,
            self@.pending.len() > 0 ==> match listing {
                Listing::Failed => next == Err::<Scanner, ScanError>(ScanError::Unlistable),
                Listing::Children(children) => if untimed(children@) {
                    next == Err::<Scanner, ScanError>(ScanError::NoTimestamp)
                } else {
                    &&& next is Ok
                    &&& next->Ok_0@.root == self@.root
                    &&& next->Ok_0@.entries == absorbed(
                        self@.entries,
                        self@.pending.last(),
                        children@,
                    )
                    &&& next->Ok_0@.pending == self@.pending.drop_last() + directories_from(
                        next->Ok_0@.entries,
                        self@.entries.len() as int,
                    )
                },
            },
    {
        proof {
            use_type_invariant(&self);
        }
        if self.pending.len() == 0 {
            return Ok(self);
        }
        let children = match listing {
            Listing::Failed => {
                return Err(ScanError::Unlistable);
            },
            Listing::Children(children) => children,
        };
        let Scanner { mut inventory, mut pending } = self;
        let dir = pending.pop().unwrap();
        let ghost base = inventory@;
        let ghost kept = pending@;
        let ghost listed = children@;
        for child in it: children.into_iter()
            invariant
                it.seq() == listed,
                self@.pending.len() > 0,
                listing matches Listing::Children(c) && c@ == listed,
                inventory.root_path() == self@.root,
                inventory@ == absorbed(base, dir, listed.take(it.index())),
                base.len() <= inventory@.len(),
                inventory@.take(base.len() as int) == base,
                is_place(base, dir),
                forall|i: int| 0 <= i < it.index() ==> !(#[trigger] listed[i]).lacks_time(),
                pending@ == kept + directories_from(inventory@, base.len() as int),
        {
            let ghost before = inventory@;
            proof {
                assert(listed.take(it.index() + 1).drop_last() == listed.take(it.index()));
                if dir is Some {
                    let d = dir.unwrap() as int;
                    assert(before[d] == before.take(base.len() as int)[d]);
                }
            }
            match child {
                ChildReport::Directory { path } => {
                    let index = inventory.add_directory(path, dir);
                    pending.push(index);
                },
                ChildReport::File { path, size, modified, created } => {
                    let time = match modified {
                        Some(modified) => Some(modified),
                        None => created,
                    };
                    match time {
                        Some(time) => {
                            inventory.add_file(path, size, time, dir);
                        },
                        None => {
                            assert(listed[it.index()].lacks_time());
                            assert(untimed(listed));
                            return Err(ScanError::NoTimestamp);
                        },
                    }
                },
                ChildReport::Unreadable { .. } => {},
            }
            proof {
                assert(inventory@.take(base.len() as int) == before.take(base.len() as int));
                if inventory@.len() > before.len() {
                    assert(inventory@.drop_last() == before);
                }
            }
        }
        proof {
            inventory.lemma_len_fits();
            assert(listed.take(listed.len() as int) == listed);
            assert forall|j: int| 0 <= j < pending.len() implies is_place(
                inventory@,
                #[trigger] pending[j],
            ) by {
                if j < kept.len() {
                    assert(pending[j] == self.pending[j]);
                    if pending[j] is Some {
                        let p = pending[j].unwrap() as int;
                        assert(inventory@[p] == inventory@.take(base.len() as int)[p]);
                    }
                } else {
                    lemma_directories_from(inventory@, base.len() as int);
                    assert(pending[j] == directories_from(inventory@, base.len() as int)[j
                        - kept.len()]);
                }
            }
        }
        Ok(Scanner { inventory, pending })
    }

    /// Ends the scan. Where every directory has been listed, the inventory
    /// is handed out; else the scanner comes back as it was.
    pub fn finish(self) -> (done: Result<Inventory, Scanner>)
        ensures
            match done {
                Ok(inventory) => self@.pending.len() == 0 && inventory@ == self@.entries
                    && inventory.root_path() == self@.root,
                Err(scanner) => self@.pending.len() > 0 && scanner@ == self@,
            },
    {
        if self.pending.len() == 0 {
            Ok(self.inventory)
        } else {
            Err(self)
        }
    }
}

/// `directories_from` names directories of `entries` only.
pub proof fn lemma_directories_from(entries: Seq<Entry>, from: int)
    requires
        0 <= from,
        entries.len() <= usize::MAX,
    ensures
        forall|k: int|
            0 <= k < directories_from(entries, from).len() ==> is_place(
                entries,
                #[trigger] directories_from(entries, from)[k],
            ),
    decreases entries.len(),
{
    if entries.len() > from && entries.len() > 0 {
        lemma_directories_from(entries.drop_last(), from);
        let shorter = directories_from(entries.drop_last(), from);
        assert forall|k: int| 0 <= k < directories_from(entries, from).len() implies is_place(
            entries,
            #[trigger] directories_from(entries, from)[k],
        ) by {
            if k < shorter.len() {
                assert(is_place(entries.drop_last(), shorter[k]));
            }
        }
    }
}

} // verus!
