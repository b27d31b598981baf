//! What one scan of the tree found: files and directories in the order in
//! which they were discovered, each knowing the directory it was found in.

use vstd::prelude::*;

verus! {

/// A regular file found by a scan.
#[derive(Debug)]
pub struct FileEntry {
    /// Where the file is, as the scan reported it.
    pub path: String,
    /// Its length in bytes at scan time.
    pub size: u64,
    /// Its modification time, in seconds since the Unix epoch.
    pub modified: u64,
    /// The directory it was found in: an index into the inventory, or `None`
    /// for the scan root.
    pub parent: Option<usize>,
}

/// A directory found by a scan. The scan root itself is never recorded.
#[derive(Debug)]
pub struct DirectoryEntry {
    /// Where the directory is, as the scan reported it.
    pub path: String,
    /// The directory it was found in: an index into the inventory, or `None`
    /// for the scan root.
    pub parent: Option<usize>,
}

/// One item of an inventory.
#[derive(Debug)]
pub enum Entry {
    File(FileEntry),
    Directory(DirectoryEntry),
}

impl Entry {
    /// The directory that holds this entry; `None` stands for the scan root.
    pub open spec fn parent(self) -> Option<usize> {
        match self {
            Entry::File(f) => f.parent,
            Entry::Directory(d) => d.parent,
        }
    }

    /// The bytes this entry adds to the total: a file's size, nothing for a
    /// directory.
    pub open spec fn bytes(self) -> nat {
        match self {
            Entry::File(f) => f.size as nat,
            Entry::Directory(_) => 0,
        }
    }

    /// When this entry was last modified, in seconds since the Unix epoch;
    /// a directory counts as never modified.
    pub open spec fn modified(self) -> u64 {
        match self {
            Entry::File(f) => f.modified,
            Entry::Directory(_) => 0,
        }
    }

    /// The path of this entry.
    pub open spec fn path(self) -> String {
        match self {
            Entry::File(f) => f.path,
            Entry::Directory(d) => d.path,
        }
    }
}

/// Whether `place` names a directory that `entries` can hold something in:
/// the scan root, or a directory entry.
pub open spec fn is_place(entries: Seq<Entry>, place: Option<usize>) -> bool {
    match place {
        Some(p) => p < entries.len() && entries[p as int] is Directory,
        None => true,
    }
}

/// Every entry was found in the scan root or in a directory recorded before it.
pub open spec fn well_formed(entries: Seq<Entry>) -> bool {
    forall|i: int|
        0 <= i < entries.len() ==> match (#[trigger] entries[i]).parent() {
            Some(p) => p < i && entries[p as int] is Directory,
            None => true,
        }
}

/// The sum of the sizes of all files in `entries`.
pub open spec fn total_size(entries: Seq<Entry>) -> nat
    decreases entries.len(),
{
    if entries.len() == 0 {
        0
    } else {
        total_size(entries.drop_last()) + entries.last().bytes()
    }
}

/// The number of files in `entries`.
pub open spec fn file_count(entries: Seq<Entry>) -> nat
    decreases entries.len(),
{
    if entries.len() == 0 {
        0
    } else {
        file_count(entries.drop_last()) + if entries.last() is File { 1nat } else { 0nat }
    }
}

/// Whether walking upwards from directory `from` passes through `dir`
/// (`from` itself counts) before it arrives at the scan root.
pub open spec fn reaches(entries: Seq<Entry>, from: int, dir: int) -> bool
    decreases from,
{
    from == dir || (0 <= from < entries.len() && match entries[from].parent() {
        Some(p) => p < from && reaches(entries, p as int, dir),
        None => false,
    })
}

/// Whether entry `i` lies in directory `dir` or in a directory below it.
pub open spec fn lies_under(entries: Seq<Entry>, i: int, dir: int) -> bool {
    0 <= i < entries.len() && match entries[i].parent() {
        Some(p) => reaches(entries, p as int, dir),
        None => false,
    }
}

/// A sum of `n` sizes stays below `n` times the largest size.
pub proof fn lemma_total_size_bound(entries: Seq<Entry>)
    ensures
        total_size(entries) <= entries.len() * u64::MAX,
        file_count(entries) <= entries.len(),
    decreases entries.len(),
{
    if entries.len() > 0 {
        lemma_total_size_bound(entries.drop_last());
        assert((entries.len() - 1) * u64::MAX + u64::MAX == entries.len() * u64::MAX)
            by (nonlinear_arith);
    }
}

/// The files and directories found by one scan, with their total size.
#[derive(Debug)]
pub struct Inventory {
    root: String,
    entries: Vec<Entry>,
    total: u128,
    files: usize,
}

impl View for Inventory {
    type V = Seq<Entry>;

    closed spec fn view(&self) -> Seq<Entry> {
        self.entries@
    }
}

impl Inventory {
    #[verifier::type_invariant]
    spec fn inv(self) -> bool {
        &&& well_formed(self.entries@)
        &&& self.total == total_size(self.entries@)
        &&& self.files == file_count(self.entries@)
    }

    /// The path of the scan root.
    pub closed spec fn root_path(self) -> String {
        self.root
    }

    /// An inventory never holds more entries than can be indexed.
    pub proof fn lemma_len_fits(self)
        ensures
            self@.len() <= usize::MAX,
    {
        assert(self.entries@.len() == self.entries.len());
    }

    /// An inventory of the tree under `root` that holds nothing yet.
    pub fn new(root: String) -> (inventory: Inventory)
        ensures
            inventory@ == Seq::<Entry>::empty(),
            inventory.root_path() == root,
    {
        Inventory { root, entries: Vec::new(), total: 0, files: 0 }
    }

    /// The entries in the order of their discovery.
    pub fn entries(&self) -> (entries: &Vec<Entry>)
        ensures
            entries@ == self@,
            well_formed(self@),
    {
        proof {
            use_type_invariant(self);
        }
        &self.entries
    }

    /// The number of entries, files and directories together.
    pub fn len(&self) -> (n: usize)
        ensures
            n == self@.len(),
    {
        self.entries.len()
    }

    /// The scan root's path.
    pub fn root(&self) -> (root: &String)
        ensures
            *root == self.root_path(),
    {
        &self.root
    }

    /// The path of entry `index`, or `None` where there is no such entry.
    pub fn path_of(&self, index: usize) -> (path: Option<&String>)
        ensures
            path == if index < self@.len() {
                Some(&self@[index as int].path())
            } else {
                None
            },
    {
        if index < self.entries.len() {
            match &self.entries[index] {
                Entry::File(f) => Some(&f.path),
                Entry::Directory(d) => Some(&d.path),
            }
        } else {
            None
        }
    }

    /// The path of `place`: of the scan root, or of a directory of this
    /// inventory. `None` where `place` is neither.
    pub fn place_path(&self, place: Option<usize>) -> (path: Option<&String>)
        ensures
            path == if is_place(self@, place) {
                match place {
                    Some(p) => Some(&self@[p as int].path()),
                    None => Some(&self.root_path()),
                }
            } else {
                None
            },
    {
        match place {
            Some(p) => if self.holds_place(place) {
                self.path_of(p)
            } else {
                None
            },
            None => Some(&self.root),
        }
    }

    /// The sum of the sizes of all files.
    pub fn total_size(&self) -> (total: u128)
        ensures
            total == total_size(self@),
    {
        proof {
            use_type_invariant(self);
        }
        self.total
    }

    /// The number of files.
    pub fn file_count(&self) -> (n: usize)
        ensures
            n == file_count(self@),
    {
        proof {
            use_type_invariant(self);
        }
        self.files
    }

    /// Whether `place` is the scan root or a directory of this inventory.
    pub fn holds_place(&self, place: Option<usize>) -> (b: bool)
        ensures
            b == is_place(self@, place),
    {
        match place {
            Some(p) => p < self.entries.len() && match &self.entries[p] {
                Entry::Directory(_) => true,
                Entry::File(_) => false,
            },
            None => true,
        }
    }

    /// Records a directory found in `parent`, and returns its index. Where
    /// `parent` is no directory of this inventory, nothing is recorded.
    pub fn add_directory(&mut self, path: String, parent: Option<usize>) -> (index: Option<usize>)
        ensures
            final(self).root_path() == old(self).root_path(),
            is_place(old(self)@, parent) ==> index == Some(old(self)@.len() as usize)
                && final(self)@ == old(self)@.push(
                Entry::Directory(DirectoryEntry { path, parent }),
            ),
            !is_place(old(self)@, parent) ==> index.is_none() && final(self)@ == old(self)@,
    {
        if !self.holds_place(parent) {
            return None;
        }
        let mut taken = Inventory::new(String::new());
        std::mem::swap(self, &mut taken);
        proof {
            use_type_invariant(&taken);
        }
        let Inventory { root, mut entries, total, files } = taken;
        let index = entries.len();
        entries.push(Entry::Directory(DirectoryEntry { path, parent }));
        proof {
            lemma_push_keeps_well_formed(old(self)@, entries@.last());
            assert(entries@.drop_last() == old(self)@);
        }
        *self = Inventory { root, entries, total, files };
        Some(index)
    }

    /// Records a file found in `parent`, and returns its index. Where `parent`
    /// is no directory of this inventory, nothing is recorded.
    pub fn add_file(
        &mut self,
        path: String,
        size: u64,
        modified: u64,
        parent: Option<usize>,
    ) -> (index: Option<usize>)
        ensures
            final(self).root_path() == old(self).root_path(),
            is_place(old(self)@, parent) ==> index == Some(old(self)@.len() as usize)
                && final(self)@ == old(self)@.push(
                Entry::File(FileEntry { path, size, modified, parent }),
            ),
            !is_place(old(self)@, parent) ==> index.is_none() && final(self)@ == old(self)@,
    {
        if !self.holds_place(parent) {
            return None;
        }
        let mut taken = Inventory::new(String::new());
        std::mem::swap(self, &mut taken);
        proof {
            use_type_invariant(&taken);
        }
        let Inventory { root, mut entries, total, files } = taken;
        let index = entries.len();
        entries.push(Entry::File(FileEntry { path, size, modified, parent }));
        proof {
            lemma_push_keeps_well_formed(old(self)@, entries@.last());
            assert(entries@.drop_last() == old(self)@);
            lemma_total_size_bound(old(self)@);
            assert(files + 1 <= entries.len());
            let n = old(self)@.len();
            assert(n * u64::MAX + u64::MAX <= u128::MAX) by (nonlinear_arith)
                requires
                    n < 0x1_0000_0000_0000_0000,
            ;
        }
        *self = Inventory { root, entries, total: total + size as u128, files: files + 1 };
        Some(index)
    }
}

/// An entry found in a place of `entries` can be appended to them.
pub proof fn lemma_push_keeps_well_formed(entries: Seq<Entry>, entry: Entry)
    requires
        well_formed(entries),
        is_place(entries, entry.parent()),
    ensures
        well_formed(entries.push(entry)),
{
    let longer = entries.push(entry);
    assert forall|i: int| 0 <= i < longer.len() implies match (#[trigger] longer[i]).parent() {
        Some(p) => p < i && longer[p as int] is Directory,
        None => true,
    } by {
        if i < entries.len() {
            assert(longer[i] == entries[i]);
        }
    }
}

} // verus!
