//! Classification of a directory: is it a recognised project, and which of
//! its subdirectories hold dependencies or build artifacts that can be
//! cleaned.

use vstd::prelude::*;
use vstd::string::*;
use crate::fs_model::{DirListing, exists_in_path};
use crate::overrides::{parse_override, parse_swpfile};
use crate::project::{Project, add_step};
use crate::text::{seq_contains_string, spec_join_path};

verus! {

/// Materialises candidate dependency directories in order: each candidate in
/// `cands` is joined to `root` and kept iff it occurs among the directory
/// names `dirs`, without duplicates, starting from the already-kept `deps`.
pub open spec fn apply_candidates(
    root: Seq<char>,
    cands: Seq<Seq<char>>,
    dirs: Seq<Seq<char>>,
    deps: Seq<Seq<char>>,
) -> Seq<Seq<char>>
    decreases cands.len(),
{
    if cands.len() == 0 {
        deps
    } else {
        apply_candidates(root, cands.drop_first(), dirs, add_step(root, deps, cands.first(), dirs))
    }
}

/// Whether the directory holds one of the built-in marker files.
pub open spec fn has_builtin_marker(entries: Seq<Seq<char>>) -> bool {
    ||| seq_contains_string(entries, "Cargo.toml"@)
    ||| seq_contains_string(entries, "package.json"@)
    ||| seq_contains_string(entries, "pom.xml"@)
}

/// The candidate dependency directory names of every built-in marker present,
/// in the order the markers are checked.
pub open spec fn builtin_candidates(entries: Seq<Seq<char>>) -> Seq<Seq<char>> {
    (if seq_contains_string(entries, "Cargo.toml"@) {
        seq!["target"@]
    } else {
        Seq::<Seq<char>>::empty()
    }) + (if seq_contains_string(entries, "package.json"@) {
        seq!["node_modules"@, ".cache"@, "build"@, "dist"@]
    } else {
        Seq::<Seq<char>>::empty()
    }) + (if seq_contains_string(entries, "pom.xml"@) {
        seq!["target"@, ".gradle"@, "build"@]
    } else {
        Seq::<Seq<char>>::empty()
    })
}

/// Whether the listed directory is a recognised project: a directory with an
/// override file or with at least one built-in marker file.
pub open spec fn is_project_listing(l: DirListing) -> bool {
    l.is_dir && (l.override_text is Some || has_builtin_marker(l.entries()))
}

/// The candidate list that applies to the listed directory: the entries of
/// its override file when it has one (the override replaces the built-in
/// table), the candidates of the present built-in markers otherwise.
pub open spec fn listing_candidates(l: DirListing) -> Seq<Seq<char>> {
    match l.override_view() {
        Some(t) => parse_override(t),
        None => builtin_candidates(l.entries()),
    }
}

/// The dependency directories of a project rooted at `path` with listing `l`:
/// exactly the candidates that exist as subdirectories, joined to `path`, in
/// candidate order, without duplicates.
pub open spec fn spec_dependency_dirs(path: Seq<char>, l: DirListing) -> Seq<Seq<char>> {
    apply_candidates(path, listing_candidates(l), l.dirs.deep_view(), Seq::<Seq<char>>::empty())
}

/// Appends a candidate name, keeping the sequence view in step.
fn push_name(v: &mut Vec<&'static str>, s: &'static str)
    ensures
        final(v).deep_view() == old(v).deep_view().push(s@),
{
    v.push(s);
    proof {
        assert(v.deep_view() =~= old(v).deep_view().push(s@));
    }
}

/// Adds every candidate in `cands` to `project` (if it exists in `dirs`).
fn add_all_candidates(project: &mut Project, cands: &Vec<String>, dirs: &Vec<String>)
    requires
        old(project).wf(),
    ensures
        final(project).wf(),
        final(project).root_view() == old(project).root_view(),
        final(project).deps() == apply_candidates(
            old(project).root_view(),
            cands.deep_view(),
            dirs.deep_view(),
            old(project).deps(),
        ),
{
    let ghost all = cands.deep_view();
    let n = cands.len();
    proof {
        assert(all.skip(0) =~= all);
    }
    for k in 0..n
        invariant
            n == cands.len(),
            all == cands.deep_view(),
            project.wf(),
            project.root_view() == old(project).root_view(),
            apply_candidates(old(project).root_view(), all.skip(k as int), dirs.deep_view(),
                project.deps()) == apply_candidates(
                old(project).root_view(),
                all,
                dirs.deep_view(),
                old(project).deps(),
            ),
    {
        proof {
            assert(all.skip(k as int).first() == cands.deep_view()[k as int]);
            assert(all.skip(k as int).drop_first() =~= all.skip(k as int + 1));
            assert(cands.deep_view()[k as int] == cands[k as int]@);
        }
        project.add_cleanable_dir_if_exists(cands[k].as_str(), dirs);
    }
}

/// Same as `add_all_candidates`, for built-in candidate names.
fn add_all_static_candidates(project: &mut Project, cands: &Vec<&'static str>, dirs: &Vec<String>)
    requires
        old(project).wf(),
    ensures
        final(project).wf(),
        final(project).root_view() == old(project).root_view(),
        final(project).deps() == apply_candidates(
            old(project).root_view(),
            cands.deep_view(),
            dirs.deep_view(),
            old(project).deps(),
        ),
{
    let ghost all = cands.deep_view();
    let n = cands.len();
    proof {
        assert(all.skip(0) =~= all);
    }
    for k in 0..n
        invariant
            n == cands.len(),
            all == cands.deep_view(),
            project.wf(),
            project.root_view() == old(project).root_view(),
            apply_candidates(old(project).root_view(), all.skip(k as int), dirs.deep_view(),
                project.deps()) == apply_candidates(
                old(project).root_view(),
                all,
                dirs.deep_view(),
                old(project).deps(),
            ),
    {
        proof {
            assert(all.skip(k as int).first() == cands.deep_view()[k as int]);
            assert(all.skip(k as int).drop_first() =~= all.skip(k as int + 1));
            assert(cands.deep_view()[k as int] == cands[k as int]@);
        }
        project.add_cleanable_dir_if_exists(cands[k], dirs);
    }
}

/// Checks whether the listed directory is a cleanable project and identifies
/// its dependency subdirectories.
///
/// Returns the identified project, or `None` if the directory is not a
/// project. A directory is a project iff it holds an override file or at
/// least one built-in marker; its dependency directories are exactly the
/// candidates of the applicable table that exist as subdirectories.
pub fn detect_cleanable_project(path: &str, listing: &DirListing) -> (r: Option<Project>)
    ensures
        r is Some <==> is_project_listing(*listing),
        r matches Some(p) ==> {
            &&& p.root_view() == path@
            &&& p.deps() == spec_dependency_dirs(path@, *listing)
            &&& p.wf()
        },
{
    // A project can only be a directory.
    if !listing.is_dir {
        return None;
    }
    let mut project = Project::new(path);

    // An override file replaces the built-in table entirely.
    match &listing.override_text {
        Some(text) => {
            let entries = parse_swpfile(text.as_str());
            add_all_candidates(&mut project, &entries, &listing.dirs);
            return Some(project);
        },
        None => {},
    }

    let mut cands: Vec<&'static str> = Vec::new();
    let mut is_project = false;

    // Rust projects.
    if exists_in_path(listing, "Cargo.toml") {
        is_project = true;
        push_name(&mut cands, "target");
    }
    // Node.js projects.
    if exists_in_path(listing, "package.json") {
        is_project = true;
        push_name(&mut cands, "node_modules");
        push_name(&mut cands, ".cache");
        push_name(&mut cands, "build");
        push_name(&mut cands, "dist");
    }
    // Java projects.
    if exists_in_path(listing, "pom.xml") {
        is_project = true;
        push_name(&mut cands, "target");
        push_name(&mut cands, ".gradle");
        push_name(&mut cands, "build");
    }

    if !is_project {
        return None;
    }
    proof {
        assert(cands.deep_view() =~= builtin_candidates(listing.entries()));
    }
    add_all_static_candidates(&mut project, &cands, &listing.dirs);
    Some(project)
}

/// The candidate table of the earlier classifier: fewer candidates per
/// marker, and no override files.
pub open spec fn classic_candidates(entries: Seq<Seq<char>>) -> Seq<Seq<char>> {
    (if seq_contains_string(entries, "Cargo.toml"@) {
        seq!["target"@]
    } else {
        Seq::<Seq<char>>::empty()
    }) + (if seq_contains_string(entries, "package.json"@) {
        seq!["node_modules"@, ".cache"@]
    } else {
        Seq::<Seq<char>>::empty()
    }) + (if seq_contains_string(entries, "pom.xml"@) {
        seq![".gradle"@, "build"@]
    } else {
        Seq::<Seq<char>>::empty()
    })
}

/// Checks if a given directory is cleanable and identifies the dependency
/// subdirectories, against the classic marker table (no override files).
pub fn identify_cleanable_project(path: &str, listing: &DirListing) -> (r: Option<Project>)
    ensures
        r is Some <==> (listing.is_dir && has_builtin_marker(listing.entries())),
        r matches Some(p) ==> {
            &&& p.root_view() == path@
            &&& p.deps() == apply_candidates(
                path@,
                classic_candidates(listing.entries()),
                listing.dirs.deep_view(),
                Seq::<Seq<char>>::empty(),
            )
            &&& p.wf()
        },
{
    if !listing.is_dir {
        return None;
    }
    let mut project = Project::new(path);
    let mut cands: Vec<&'static str> = Vec::new();
    let mut found = false;

    // Rust projects.
    if exists_in_path(listing, "Cargo.toml") {
        found = true;
        push_name(&mut cands, "target");
    }
    // Node.js projects.
    if exists_in_path(listing, "package.json") {
        found = true;
        push_name(&mut cands, "node_modules");
        push_name(&mut cands, ".cache");
    }
    // Java projects.
    if exists_in_path(listing, "pom.xml") {
        found = true;
        push_name(&mut cands, ".gradle");
        push_name(&mut cands, "build");
    }

    if !found {
        return None;
    }
    proof {
        assert(cands.deep_view() =~= classic_candidates(listing.entries()));
    }
    add_all_static_candidates(&mut project, &cands, &listing.dirs);
    Some(project)
}

/// Law behind `apply_candidates`: a path is among the materialised dependency
/// directories iff it was there already or it is some candidate that occurs
/// among the subdirectory names, joined to the root.
pub proof fn lemma_apply_candidates_membership(
    root: Seq<char>,
    cands: Seq<Seq<char>>,
    dirs: Seq<Seq<char>>,
    deps: Seq<Seq<char>>,
    p: Seq<char>,
)
    ensures
        seq_contains_string(apply_candidates(root, cands, dirs, deps), p) <==> (
        seq_contains_string(deps, p) || exists|j: int|
            0 <= j < cands.len() && seq_contains_string(dirs, cands[j]) && p == spec_join_path(
                root,
                cands[j],
            )),
    decreases cands.len(),
{
    if cands.len() == 0 {
    } else {
        let first = cands.first();
        let rest = cands.drop_first();
        let full = spec_join_path(root, first);
        let deps2 = add_step(root, deps, first, dirs);
        lemma_apply_candidates_membership(root, rest, dirs, deps2, p);
        assert(seq_contains_string(deps2, p) <==> (seq_contains_string(deps, p) || (
        seq_contains_string(dirs, first) && p == full))) by {
            if seq_contains_string(dirs, first) && !seq_contains_string(deps, full) {
                assert(deps2 == deps.push(full));
                assert(deps2[deps.len() as int] == full);
                assert forall|j: int| 0 <= j < deps.len() implies deps2[j] == deps[j] by {}
                if seq_contains_string(deps2, p) && p != full {
                    let j = choose|j: int| 0 <= j < deps2.len() && deps2[j] == p;
                    assert(deps[j] == p);
                }
            }
        }
        assert((exists|j: int|
            0 <= j < rest.len() && seq_contains_string(dirs, rest[j]) && p == spec_join_path(
                root,
                rest[j],
            )) || (seq_contains_string(dirs, first) && p == full) <==> (exists|j: int|
            0 <= j < cands.len() && seq_contains_string(dirs, cands[j]) && p == spec_join_path(
                root,
                cands[j],
            ))) by {
            if exists|j: int|
                0 <= j < rest.len() && seq_contains_string(dirs, rest[j]) && p == spec_join_path(
                    root,
                    rest[j],
                ) {
                let j = choose|j: int|
                    0 <= j < rest.len() && seq_contains_string(dirs, rest[j]) && p
                        == spec_join_path(root, rest[j]);
                assert(cands[j + 1] == rest[j]);
            }
            if seq_contains_string(dirs, first) && p == full {
                assert(cands[0] == first);
            }
            if exists|j: int|
                0 <= j < cands.len() && seq_contains_string(dirs, cands[j]) && p == spec_join_path(
                    root,
                    cands[j],
                ) {
                let j = choose|j: int|
                    0 <= j < cands.len() && seq_contains_string(dirs, cands[j]) && p
                        == spec_join_path(root, cands[j]);
                if j > 0 {
                    assert(rest[j - 1] == cands[j]);
                }
            }
        }
    }
}

/// Law: the dependency directories of a classified project are exactly the
/// candidates of the applicable table that exist as subdirectories of the
/// root, each joined to the root path.
pub proof fn lemma_dependency_dirs_exact(path: Seq<char>, l: DirListing, p: Seq<char>)
    ensures
        seq_contains_string(spec_dependency_dirs(path, l), p) <==> exists|j: int|
            0 <= j < listing_candidates(l).len() && seq_contains_string(
                l.dirs.deep_view(),
                listing_candidates(l)[j],
            ) && p == spec_join_path(path, listing_candidates(l)[j]),
{
    lemma_apply_candidates_membership(
        path,
        listing_candidates(l),
        l.dirs.deep_view(),
        Seq::<Seq<char>>::empty(),
        p,
    );
}

} // verus!
