//! An explicit model of the part of the filesystem that the library reasons
//! about. The surrounding application reads the real filesystem and hands the
//! library plain values shaped like these types.

use vstd::prelude::*;
use vstd::string::*;
use crate::text::{seq_contains_string, str_eq};

verus! {

/// What one `read_dir` call on a directory returned, together with the
/// contents of the directory's override file, if it has one.
pub struct DirListing {
    /// Whether the path is a directory at all.
    pub is_dir: bool,
    /// Names of the entries that are not directories.
    pub files: Vec<String>,
    /// Names of the entries that are directories.
    pub dirs: Vec<String>,
    /// Contents of the override file (`.swpfile`, or else `.cleanuprc`)
    /// directly inside the directory; `None` when the directory has neither.
    pub override_text: Option<String>,
}

impl DirListing {
    /// Names of all entries of the directory, files first.
    pub open spec fn entries(&self) -> Seq<Seq<char>> {
        self.files.deep_view() + self.dirs.deep_view()
    }

    /// The override file's contents as a sequence of characters, if present.
    pub open spec fn override_view(&self) -> Option<Seq<char>> {
        match self.override_text {
            Some(ref t) => Some(t@),
            None => None,
        }
    }
}

/// Whether an entry named `filename` (file or directory) exists directly
/// inside the listed directory.
pub fn exists_in_path(listing: &DirListing, filename: &str) -> (r: bool)
    ensures
        r == seq_contains_string(listing.entries(), filename@),
{
    let nf = listing.files.len();
    for i in 0..nf
        invariant
            nf == listing.files.len(),
            forall|j: int| 0 <= j < i ==> listing.files.deep_view()[j] != filename@,
    {
        assert(listing.files.deep_view()[i as int] == listing.files[i as int]@);
        if str_eq(listing.files[i].as_str(), filename) {
            assert(listing.entries()[i as int] == filename@);
            return true;
        }
    }
    let nd = listing.dirs.len();
    for i in 0..nd
        invariant
            nf == listing.files.len(),
            nd == listing.dirs.len(),
            forall|j: int| 0 <= j < nf ==> listing.files.deep_view()[j] != filename@,
            forall|j: int| 0 <= j < i ==> listing.dirs.deep_view()[j] != filename@,
    {
        assert(listing.dirs.deep_view()[i as int] == listing.dirs[i as int]@);
        if str_eq(listing.dirs[i].as_str(), filename) {
            assert(listing.entries()[nf + i as int] == filename@);
            return true;
        }
    }
    assert forall|j: int| 0 <= j < listing.entries().len() implies listing.entries()[j]
        != filename@ by {
        if j < nf {
            assert(listing.entries()[j] == listing.files.deep_view()[j]);
        } else {
            assert(listing.entries()[j] == listing.dirs.deep_view()[j - nf]);
        }
    }
    false
}

/// A file inside a directory: its name and how many seconds ago it was last
/// modified (`None` when its metadata could not be read).
pub struct FileEntry {
    /// Name of the file.
    pub name: String,
    /// Seconds since the file was last modified.
    pub age_secs: Option<u64>,
}

/// One directory of the modelled tree. An unreadable directory is modelled
/// as empty: its files and subdirectories could not be listed.
pub struct DirNode {
    /// Name of the directory (its last path component).
    pub name: String,
    /// Full path of the directory.
    pub path: String,
    /// The files (non-directory entries) directly inside.
    pub files: Vec<FileEntry>,
    /// Arena indices of the subdirectories.
    pub subdirs: Vec<usize>,
    /// Contents of the override file directly inside, if any.
    pub override_text: Option<String>,
}

/// A directory forest in arena form: every directory is a node in `nodes`,
/// and the configured search roots are listed in `roots`.
pub struct FsTree {
    /// All directories. Children have larger indices than their parent.
    pub nodes: Vec<DirNode>,
    /// Indices of the configured root directories.
    pub roots: Vec<usize>,
}

impl FsTree {
    /// Whether `c` is a child (a subdirectory) of node `x`.
    pub open spec fn is_child_of(self, x: int, c: int) -> bool {
        &&& 0 <= x < self.nodes@.len()
        &&& exists|j: int|
            0 <= j < self.nodes@[x].subdirs@.len() && self.nodes@[x].subdirs@[j] == c
    }

    /// Every child index is in range and larger than its parent's.
    pub open spec fn valid_children(self) -> bool {
        forall|i: int, j: int|
            0 <= i < self.nodes@.len() && 0 <= j < self.nodes@[i].subdirs@.len() ==> i < (
            #[trigger] self.nodes@[i].subdirs@[j]) < self.nodes@.len()
    }

    /// No directory is the subdirectory of two places: each index occurs in
    /// at most one `subdirs` slot.
    pub open spec fn unique_parents(self) -> bool {
        forall|i1: int, j1: int, i2: int, j2: int|
            0 <= i1 < self.nodes@.len() && 0 <= j1 < self.nodes@[i1].subdirs@.len() && 0 <= i2
                < self.nodes@.len() && 0 <= j2 < self.nodes@[i2].subdirs@.len() && (#[trigger] self.nodes@[i1].subdirs@[j1]) == (#[trigger] self.nodes@[i2].subdirs@[j2]) ==> i1 == i2 && j1
                == j2
    }

    /// The roots are in range, distinct, and no root is a subdirectory of
    /// another node.
    pub open spec fn valid_roots(self) -> bool {
        &&& forall|k: int|
            0 <= k < self.roots@.len() ==> (#[trigger] self.roots@[k]) < self.nodes@.len()
        &&& forall|k1: int, k2: int|
            0 <= k1 < k2 < self.roots@.len() ==> self.roots@[k1] != self.roots@[k2]
        &&& forall|k: int|
            0 <= k < self.roots@.len() ==> !self.is_some_child(#[trigger] self.roots@[k] as int)
    }

    /// Whether `c` is a subdirectory of any node.
    pub open spec fn is_some_child(self, c: int) -> bool {
        exists|x: int| self.is_child_of(x, c)
    }

    /// Validity of the arena.
    pub open spec fn wf(self) -> bool {
        self.valid_children() && self.unique_parents() && self.valid_roots()
    }

    /// The names of the files of node `i`.
    pub open spec fn file_names(self, i: int) -> Seq<Seq<char>> {
        self.nodes@[i].files@.map_values(|f: FileEntry| f.name@)
    }

    /// The names of the subdirectories of node `i`.
    pub open spec fn dir_names(self, i: int) -> Seq<Seq<char>> {
        self.nodes@[i].subdirs@.map_values(|c: usize| self.nodes@[c as int].name@)
    }

    /// The names of all entries of node `i`, files first.
    pub open spec fn entries_of(self, i: int) -> Seq<Seq<char>> {
        self.file_names(i) + self.dir_names(i)
    }

    /// The override file contents of node `i`, if any.
    pub open spec fn override_of(self, i: int) -> Option<Seq<char>> {
        match self.nodes@[i].override_text {
            Some(ref t) => Some(t@),
            None => None,
        }
    }
}

/// Builds the listing that classifying node `i` sees.
pub fn node_listing(tree: &FsTree, i: usize) -> (l: DirListing)
    requires
        tree.valid_children(),
        i < tree.nodes@.len(),
    ensures
        l.is_dir,
        l.files.deep_view() == tree.file_names(i as int),
        l.dirs.deep_view() == tree.dir_names(i as int),
        l.override_view() == tree.override_of(i as int),
        l.dirs@.len() == tree.nodes@[i as int].subdirs@.len(),
{
    let node = &tree.nodes[i];
    let mut files: Vec<String> = Vec::new();
    let nf = node.files.len();
    for k in 0..nf
        invariant
            i < tree.nodes@.len(),
            *node == tree.nodes@[i as int],
            nf == node.files.len(),
            files.deep_view() =~~= tree.file_names(i as int).take(k as int),
    {
        let c = node.files[k].name.clone();
        proof {
            assert(c@ == node.files@[k as int].name@);
        }
        let ghost pre = files.deep_view();
        files.push(c);
        proof {
            assert(tree.file_names(i as int)[k as int] == node.files@[k as int].name@);
            assert(files.deep_view() =~~= pre.push(node.files@[k as int].name@));
            assert(files.deep_view() =~~= tree.file_names(i as int).take(k as int + 1));
        }
    }
    let mut dirs: Vec<String> = Vec::new();
    let nd = node.subdirs.len();
    for k in 0..nd
        invariant
            tree.valid_children(),
            i < tree.nodes@.len(),
            nd == node.subdirs@.len(),
            *node == tree.nodes@[i as int],
            dirs.deep_view() =~~= tree.dir_names(i as int).take(k as int),
    {
        let c = node.subdirs[k];
        assert(i < c < tree.nodes@.len());
        let nm = tree.nodes[c].name.clone();
        proof {
            assert(nm@ == tree.nodes@[c as int].name@);
        }
        let ghost pre = dirs.deep_view();
        dirs.push(nm);
        proof {
            assert(tree.dir_names(i as int)[k as int] == tree.nodes@[c as int].name@);
            assert(dirs.deep_view() =~~= pre.push(tree.nodes@[c as int].name@));
            assert(dirs.deep_view() =~~= tree.dir_names(i as int).take(k as int + 1));
        }
    }
    let override_text = match &node.override_text {
        Some(t) => Some(t.clone()),
        None => None,
    };
    let l = DirListing { is_dir: true, files, dirs, override_text };
    proof {
        assert(l.files.deep_view() =~~= tree.file_names(i as int));
        assert(l.dirs.deep_view() =~~= tree.dir_names(i as int));
    }
    l
}

} // verus!
