//! A discovered cleanable project: its root directory and the dependency
//! directories inside it that are safe to delete.

use vstd::prelude::*;
use vstd::string::*;
use crate::text::{seq_contains_string, spec_join_path, str_eq, join_path, vec_contains_str};

verus! {

/// Describes a discovered cleanable project.
pub struct Project {
    /// The root directory of the project.
    root: String,
    /// Directories containing dependencies or build artifacts, as full paths.
    dependency_dirs: Vec<String>,
}

/// One step of materialising a candidate dependency directory: the candidate
/// `subdir` is joined to `root` and appended to `deps` iff it occurs among the
/// directory names `dirs` and its full path is not already in `deps`.
pub open spec fn add_step(
    root: Seq<char>,
    deps: Seq<Seq<char>>,
    subdir: Seq<char>,
    dirs: Seq<Seq<char>>,
) -> Seq<Seq<char>> {
    let full = spec_join_path(root, subdir);
    if seq_contains_string(dirs, subdir) && !seq_contains_string(deps, full) {
        deps.push(full)
    } else {
        deps
    }
}

impl Project {
    /// The project's root path.
    pub closed spec fn root_view(&self) -> Seq<char> {
        self.root@
    }

    /// The project's dependency directories, as full paths, in the order they
    /// were added.
    pub closed spec fn deps(&self) -> Seq<Seq<char>> {
        self.dependency_dirs.deep_view()
    }

    /// Validity: the dependency directories hold no duplicates.
    pub open spec fn wf(&self) -> bool {
        forall|i: int, j: int| 0 <= i < j < self.deps().len() ==> self.deps()[i] != self.deps()[j]
    }

    /// Initialises a new project with no dependency directories.
    pub fn new(root: &str) -> (p: Project)
        ensures
            p.root_view() == root@,
            p.deps() == Seq::<Seq<char>>::empty(),
            p.wf(),
    {
        let p = Project { root: String::from_str(root), dependency_dirs: Vec::new() };
        proof {
            assert(p.deps() =~= Seq::<Seq<char>>::empty());
        }
        p
    }

    /// The root directory of the project.
    pub fn root(&self) -> (r: &str)
        ensures
            r@ == self.root_view(),
    {
        self.root.as_str()
    }

    /// Marks the subdirectory `subdir` of this project's root as cleanable if
    /// it exists, that is, if `subdir` occurs among `existing_dirs`, the names
    /// of the subdirectories of the root. Duplicates are not added.
    pub fn add_cleanable_dir_if_exists(&mut self, subdir: &str, existing_dirs: &Vec<String>)
        ensures
            final(self).root_view() == old(self).root_view(),
            final(self).deps() == add_step(
                old(self).root_view(),
                old(self).deps(),
                subdir@,
                existing_dirs.deep_view(),
            ),
            old(self).wf() ==> final(self).wf(),
    {
        let full = join_path(self.root.as_str(), subdir);
        if vec_contains_str(existing_dirs, subdir) && !vec_contains_str(
            &self.dependency_dirs,
            full.as_str(),
        ) {
            let ghost olddeps = self.deps();
            self.dependency_dirs.push(full);
            proof {
                assert(self.deps() =~= olddeps.push(
                    spec_join_path(old(self).root_view(), subdir@),
                ));
            }
        }
    }

    /// Whether `path` is listed as a cleanable directory of this project.
    pub fn is_cleanable_dir(&self, path: &str) -> (r: bool)
        ensures
            r == seq_contains_string(self.deps(), path@),
    {
        vec_contains_str(&self.dependency_dirs, path)
    }

    /// Consumes the project and returns its cleanable directories.
    pub fn into_cleanable_dirs(self) -> (r: Vec<String>)
        ensures
            r.deep_view() == self.deps(),
    {
        self.dependency_dirs
    }
}

} // verus!
