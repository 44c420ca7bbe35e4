//! Modified-time analysis: for each discovered project, the minimum
//! "seconds since last modification" over every file in its tree — excluding
//! its dependency directories and a fixed list of bookkeeping directories —
//! decides whether the project is stale (eligible for cleanup) or recent.

use vstd::prelude::*;
use vstd::set_lib::{lemma_len_subset, lemma_int_range, set_int_range};
use crate::discover::{
    items_ok, accounted, all_accounted, untouched, lemma_node_fresh, lemma_accounted_mono,
    lemma_accounted_widen, lemma_remove_index,
};
use crate::fs_model::{FsTree, FileEntry};
use crate::project::Project;
use crate::queue::WorkQueue;
use crate::settings::Settings;
use crate::text::{seq_contains_string, str_eq};

verus! {

/// Number of seconds in 30 days. A project whose most recent file
/// modification is longer ago than this is stale.
pub const STALE_THRESHOLD_SECS: u64 = 2592000;

/// Directory names that are never searched during the analysis.
pub open spec fn always_ignored_name(name: Seq<char>) -> bool {
    name == ".idea"@ || name == ".vscode"@ || name == ".git"@
}

fn is_always_ignored(name: &str) -> (r: bool)
    ensures
        r == always_ignored_name(name@),
{
    str_eq(name, ".idea") || str_eq(name, ".vscode") || str_eq(name, ".git")
}

/// The smaller of two optional ages; `None` means "no file seen".
pub open spec fn merge_min(a: Option<u64>, b: Option<u64>) -> Option<u64> {
    match (a, b) {
        (Option::None, y) => y,
        (x, Option::None) => x,
        (Option::Some(x), Option::Some(y)) => if x <= y {
            Option::Some(x)
        } else {
            Option::Some(y)
        },
    }
}

/// The minimum age among a directory's own files; a file whose metadata
/// could not be read is skipped.
pub open spec fn files_min(files: Seq<FileEntry>) -> Option<u64>
    decreases files.len(),
{
    if files.len() == 0 {
        Option::None
    } else {
        merge_min(files.first().age_secs, files_min(files.drop_first()))
    }
}

/// Whether the subdirectory at node `c` is excluded from the analysis of a
/// project whose dependency directories are `deps`.
pub open spec fn excluded_dir(tree: FsTree, deps: Seq<Seq<char>>, c: int) -> bool {
    always_ignored_name(tree.nodes@[c].name@) || seq_contains_string(
        deps,
        tree.nodes@[c].path@,
    )
}

/// Minimum age over the whole tree below node `i` (the files of `i`
/// included), excluding always-ignored and dependency directories.
pub open spec fn subtree_min(tree: FsTree, deps: Seq<Seq<char>>, i: int) -> Option<u64>
    decreases tree.nodes@.len() - i, tree.nodes@[i].subdirs@.len() + 1,
        when tree.wf() && 0 <= i < tree.nodes@.len()
{
    merge_min(files_min(tree.nodes@[i].files@), children_min(tree, deps, i, 0))
}

/// Minimum age contributed by children `j..` of node `i`.
pub open spec fn children_min(tree: FsTree, deps: Seq<Seq<char>>, i: int, j: int) -> Option<
    u64,
>
    decreases tree.nodes@.len() - i, tree.nodes@[i].subdirs@.len() - j,
        when tree.wf() && 0 <= i < tree.nodes@.len() && 0 <= j
{
    if j >= tree.nodes@[i].subdirs@.len() {
        Option::None
    } else {
        merge_min(
            child_min_contrib(tree, deps, tree.nodes@[i].subdirs@[j] as int),
            children_min(tree, deps, i, j + 1),
        )
    }
}

/// What one subdirectory contributes: nothing when it is excluded.
pub open spec fn child_min_contrib(tree: FsTree, deps: Seq<Seq<char>>, c: int) -> Option<u64>
    decreases tree.nodes@.len() - c, tree.nodes@[c].subdirs@.len() + 2,
        when tree.wf() && 0 <= c < tree.nodes@.len()
{
    if excluded_dir(tree, deps, c) {
        Option::None
    } else {
        subtree_min(tree, deps, c)
    }
}

/// The subdirectories of node `i` from position `j` on that take part in
/// the analysis — every one that is not excluded — in `subdirs` order.
pub open spec fn kept_children(tree: FsTree, deps: Seq<Seq<char>>, i: int, j: int) -> Seq<usize>
    decreases tree.nodes@[i].subdirs@.len() - j,
{
    if j >= tree.nodes@[i].subdirs@.len() {
        Seq::<usize>::empty()
    } else {
        let c = tree.nodes@[i].subdirs@[j];
        let rest = kept_children(tree, deps, i, j + 1);
        if excluded_dir(tree, deps, c as int) {
            rest
        } else {
            seq![c] + rest
        }
    }
}

/// The project's overall "seconds since last modification". A project in
/// whose tree no file was seen counts as just modified (0), so that it is
/// never treated as stale.
pub open spec fn project_age(tree: FsTree, deps: Seq<Seq<char>>, root: int) -> u64 {
    match subtree_min(tree, deps, root) {
        Option::Some(m) => m,
        Option::None => 0,
    }
}

/// Whether the project rooted at node `pr.0` is stale.
pub open spec fn spec_is_stale(tree: FsTree, pr: (usize, Project)) -> bool {
    project_age(tree, pr.1.deps(), pr.0 as int) > STALE_THRESHOLD_SECS
}

/// The minimum that the pending directories `s` will still contribute.
pub open spec fn pending_min(tree: FsTree, deps: Seq<Seq<char>>, s: Seq<usize>) -> Option<u64>
    decreases s.len(),
{
    if s.len() == 0 {
        Option::None
    } else {
        merge_min(
            subtree_min(tree, deps, s.first() as int),
            pending_min(tree, deps, s.drop_first()),
        )
    }
}

/// The minimum of the collected per-directory minima.
pub open spec fn collected_min(ms: Seq<Option<u64>>) -> Option<u64>
    decreases ms.len(),
{
    if ms.len() == 0 {
        Option::None
    } else {
        merge_min(ms.first(), collected_min(ms.drop_first()))
    }
}

proof fn lemma_merge_assoc(a: Option<u64>, b: Option<u64>, c: Option<u64>)
    ensures
        merge_min(a, merge_min(b, c)) == merge_min(merge_min(a, b), c),
{
}

proof fn lemma_merge_comm(a: Option<u64>, b: Option<u64>)
    ensures
        merge_min(a, b) == merge_min(b, a),
{
}

proof fn lemma_collected_min_push(ms: Seq<Option<u64>>, v: Option<u64>)
    ensures
        collected_min(ms.push(v)) == merge_min(collected_min(ms), v),
    decreases ms.len(),
{
    let t = ms.push(v);
    if ms.len() == 0 {
        assert(t.first() == v);
        assert(t.drop_first() =~= ms);
        assert(collected_min(t.drop_first()) == collected_min(ms));
    } else {
        assert(t.first() == ms.first());
        assert(t.drop_first() =~= ms.drop_first().push(v));
        lemma_collected_min_push(ms.drop_first(), v);
        assert(collected_min(t.drop_first()) == collected_min(ms.drop_first().push(v)));
        lemma_merge_assoc(ms.first(), collected_min(ms.drop_first()), v);
    }
}

proof fn lemma_pending_min_push(tree: FsTree, deps: Seq<Seq<char>>, s: Seq<usize>, v: usize)
    ensures
        pending_min(tree, deps, s.push(v)) == merge_min(
            pending_min(tree, deps, s),
            subtree_min(tree, deps, v as int),
        ),
    decreases s.len(),
{
    let t = s.push(v);
    if s.len() == 0 {
        assert(t.first() == v);
        assert(t.drop_first() =~= s);
        assert(pending_min(tree, deps, t.drop_first()) == pending_min(tree, deps, s));
        lemma_merge_comm(subtree_min(tree, deps, v as int), pending_min(tree, deps, s));
    } else {
        assert(t.first() == s.first());
        assert(t.drop_first() =~= s.drop_first().push(v));
        lemma_pending_min_push(tree, deps, s.drop_first(), v);
        assert(pending_min(tree, deps, t.drop_first()) == pending_min(
            tree,
            deps,
            s.drop_first().push(v),
        ));
        lemma_merge_assoc(
            subtree_min(tree, deps, s.first() as int),
            pending_min(tree, deps, s.drop_first()),
            subtree_min(tree, deps, v as int),
        );
    }
}

proof fn lemma_pending_min_remove(tree: FsTree, deps: Seq<Seq<char>>, s: Seq<usize>, k: int)
    requires
        0 <= k < s.len(),
    ensures
        pending_min(tree, deps, s) == merge_min(
            pending_min(tree, deps, s.remove(k)),
            subtree_min(tree, deps, s[k] as int),
        ),
    decreases s.len(),
{
    let t = s.remove(k);
    if k == 0 {
        assert(t =~= s.drop_first());
        assert(pending_min(tree, deps, t) == pending_min(tree, deps, s.drop_first()));
        lemma_merge_comm(subtree_min(tree, deps, s[0] as int), pending_min(tree, deps, t));
    } else {
        assert(t.len() == s.len() - 1);
        assert(t.first() == s.first());
        assert(t.drop_first() =~= s.drop_first().remove(k - 1));
        lemma_pending_min_remove(tree, deps, s.drop_first(), k - 1);
        assert(pending_min(tree, deps, t.drop_first()) == pending_min(
            tree,
            deps,
            s.drop_first().remove(k - 1),
        ));
        assert(s.drop_first()[k - 1] == s[k]);
        lemma_merge_assoc(
            subtree_min(tree, deps, s.first() as int),
            pending_min(tree, deps, s.drop_first().remove(k - 1)),
            subtree_min(tree, deps, s[k] as int),
        );
    }
}

/// Runtime merge of two optional ages.
fn merge_min_exec(a: Option<u64>, b: Option<u64>) -> (r: Option<u64>)
    ensures
        r == merge_min(a, b),
{
    match (a, b) {
        (Option::None, y) => y,
        (x, Option::None) => x,
        (Option::Some(x), Option::Some(y)) => if x <= y {
            Option::Some(x)
        } else {
            Option::Some(y)
        },
    }
}

/// Reads one directory of a project's tree: records the minimum age of the
/// directory's own files into `modified`, and queues its subdirectories for
/// further processing — skipping always-ignored names and the project's own
/// dependency directories.
pub(crate) fn find_modified_date_of_directory(
    tree: &FsTree,
    project: &Project,
    i: usize,
    paths: &mut WorkQueue,
    modified: &mut Vec<Option<u64>>,
    Ghost(anchors): Ghost<Set<int>>,
    Ghost(visited): Ghost<Set<int>>,
)
    requires
        tree.wf(),
        (i as int) < tree.nodes@.len(),
        visited.contains(i as int),
        items_ok(*tree, old(paths).items(), visited),
        all_accounted(*tree, anchors, visited, Set::<int>::empty(), old(paths).items()),
        forall|j: int|
            0 <= j < tree.nodes@[i as int].subdirs@.len() ==> untouched(
                *tree,
                Set::<int>::empty(),
                old(paths).items(),
                visited,
                (#[trigger] tree.nodes@[i as int].subdirs@[j]) as int,
            ),
    ensures
        items_ok(*tree, final(paths).items(), visited),
        all_accounted(*tree, anchors, visited, Set::<int>::empty(), final(paths).items()),
        final(modified)@ == old(modified)@.push(files_min(tree.nodes@[i as int].files@)),
        pending_min(*tree, project.deps(), final(paths).items()) == merge_min(
            pending_min(*tree, project.deps(), old(paths).items()),
            children_min(*tree, project.deps(), i as int, 0),
        ),
        final(paths).items() == old(paths).items() + kept_children(
            *tree,
            project.deps(),
            i as int,
            0,
        ),
        final(paths).items().len() >= old(paths).items().len(),
        forall|m: int|
            0 <= m < old(paths).items().len() ==> final(paths).items()[m] == old(
                paths,
            ).items()[m],
        forall|m: int|
            old(paths).items().len() <= m < final(paths).items().len() ==> tree.is_child_of(
                i as int,
                (#[trigger] final(paths).items()[m]) as int,
            ),
{
    let ghost deps = project.deps();
    let ghost items0 = paths.items();
    let node = &tree.nodes[i];

    // Minimum age among this directory's own files.
    let mut own: Option<u64> = Option::None;
    let nf = node.files.len();
    proof {
        assert(node.files@.skip(0) =~= node.files@);
    }
    for k in 0..nf
        invariant
            nf == node.files@.len(),
            *node == tree.nodes@[i as int],
            merge_min(own, files_min(node.files@.skip(k as int))) == files_min(node.files@),
    {
        let age = node.files[k].age_secs;
        proof {
            assert(node.files@.skip(k as int).first() == node.files@[k as int]);
            assert(node.files@.skip(k as int).drop_first() =~= node.files@.skip(k as int + 1));
            lemma_merge_assoc(own, age, files_min(node.files@.skip(k as int + 1)));
        }
        own = merge_min_exec(own, age);
    }
    proof {
        assert(files_min(node.files@.skip(nf as int)) == Option::<u64>::None);
        assert(merge_min(own, Option::<u64>::None) == own);
    }
    modified.push(own);

    // Queue the subdirectories that take part in the analysis.
    let m = node.subdirs.len();
    for j in 0..m
        invariant
            tree.wf(),
            (i as int) < tree.nodes@.len(),
            visited.contains(i as int),
            *node == tree.nodes@[i as int],
            m == tree.nodes@[i as int].subdirs@.len(),
            deps == project.deps(),
            items_ok(*tree, paths.items(), visited),
            all_accounted(*tree, anchors, visited, Set::<int>::empty(), paths.items()),
            forall|jj: int|
                j <= jj < m ==> untouched(
                    *tree,
                    Set::<int>::empty(),
                    paths.items(),
                    visited,
                    (#[trigger] tree.nodes@[i as int].subdirs@[jj]) as int,
                ),
            merge_min(
                pending_min(*tree, deps, paths.items()),
                children_min(*tree, deps, i as int, j as int),
            ) == merge_min(
                pending_min(*tree, deps, items0),
                children_min(*tree, deps, i as int, 0),
            ),
            paths.items() + kept_children(*tree, deps, i as int, j as int) == items0
                + kept_children(*tree, deps, i as int, 0),
            paths.items().len() >= items0.len(),
            forall|mm: int| 0 <= mm < items0.len() ==> paths.items()[mm] == items0[mm],
            forall|mm: int|
                items0.len() <= mm < paths.items().len() ==> tree.is_child_of(
                    i as int,
                    (#[trigger] paths.items()[mm]) as int,
                ),
    {
        let c = node.subdirs[j];
        proof {
            assert((i as int) < (c as int) < tree.nodes@.len());
            assert(children_min(*tree, deps, i as int, j as int) == merge_min(
                child_min_contrib(*tree, deps, c as int),
                children_min(*tree, deps, i as int, j as int + 1),
            ));
        }
        let ghost items_before = paths.items();
        let excl = is_always_ignored(tree.nodes[c].name.as_str()) || project.is_cleanable_dir(
            tree.nodes[c].path.as_str(),
        );
        proof {
            assert(excl == excluded_dir(*tree, deps, c as int));
        }
        if !excl {
            paths.push(c);
            proof {
                lemma_pending_min_push(*tree, deps, items_before, c);
                assert(child_min_contrib(*tree, deps, c as int) == subtree_min(
                    *tree,
                    deps,
                    c as int,
                ));
                lemma_merge_assoc(
                    pending_min(*tree, deps, items_before),
                    subtree_min(*tree, deps, c as int),
                    children_min(*tree, deps, i as int, j as int + 1),
                );
                lemma_merge_assoc(
                    pending_min(*tree, deps, items_before),
                    merge_min(
                        subtree_min(*tree, deps, c as int),
                        children_min(*tree, deps, i as int, j as int + 1),
                    ),
                    Option::None,
                );
                assert(paths.items() + kept_children(*tree, deps, i as int, j as int + 1)
                    =~= items_before + kept_children(*tree, deps, i as int, j as int));
                assert(tree.is_child_of(i as int, c as int));
                assert(accounted(*tree, anchors, visited, c as int));
                assert(items_ok(*tree, paths.items(), visited)) by {
                    assert forall|k1: int, k2: int|
                        0 <= k1 < k2 < paths.items().len() implies paths.items()[k1]
                        != paths.items()[k2] by {
                        if k2 == paths.items().len() - 1 {
                            assert(paths.items()[k1] == items_before[k1]);
                            assert((items_before[k1] as int) != (c as int));
                        }
                    }
                }
                assert forall|jj: int| j + 1 <= jj < m implies untouched(
                    *tree,
                    Set::<int>::empty(),
                    paths.items(),
                    visited,
                    (#[trigger] tree.nodes@[i as int].subdirs@[jj]) as int,
                ) by {
                    assert(tree.nodes@[i as int].subdirs@[jj]
                        != tree.nodes@[i as int].subdirs@[j as int]);
                    assert forall|k: int| 0 <= k < paths.items().len() implies ((
                    #[trigger] paths.items()[k]) as int) != (
                    tree.nodes@[i as int].subdirs@[jj] as int) by {
                        if k < paths.items().len() - 1 {
                            assert(paths.items()[k] == items_before[k]);
                        }
                    }
                }
            }
        } else {
            proof {
                assert(child_min_contrib(*tree, deps, c as int) == Option::<u64>::None);
                assert(kept_children(*tree, deps, i as int, j as int) == kept_children(
                    *tree,
                    deps,
                    i as int,
                    j as int + 1,
                ));
            }
        }
    }
    proof {
        assert(kept_children(*tree, deps, i as int, m as int) =~= Seq::<usize>::empty());
        assert(paths.items() + kept_children(*tree, deps, i as int, m as int) =~= paths.items());
        assert(paths.items() == items0 + kept_children(*tree, deps, i as int, 0));
        assert(children_min(*tree, deps, i as int, m as int) == Option::<u64>::None);
        assert(merge_min(
            pending_min(*tree, deps, paths.items()),
            children_min(*tree, deps, i as int, m as int),
        ) == pending_min(*tree, deps, paths.items()));
        assert(final(modified)@ == old(modified)@.push(files_min(tree.nodes@[i as int].files@)));
    }
}

/// Computes a project's overall "seconds since last modification" by
/// walking its tree with a work queue, starting at its root directory.
fn project_modified_age(tree: &FsTree, project: &Project, root: usize) -> (age: u64)
    requires
        tree.wf(),
        (root as int) < tree.nodes@.len(),
    ensures
        age == project_age(*tree, project.deps(), root as int),
{
    let ghost deps = project.deps();
    let ghost anchors = Set::<int>::empty().insert(root as int);
    let ghost mut visited: Set<int> = Set::empty();
    let mut paths = WorkQueue::new();
    let mut modified: Vec<Option<u64>> = Vec::new();
    let ghost empty_items = paths.items();
    paths.push(root);
    proof {
        assert(paths.items() =~= empty_items.push(root));
        assert(paths.items().len() == 1);
        assert(paths.items()[0] == root);
        assert(pending_min(*tree, deps, paths.items().drop_first()) == Option::<u64>::None);
        assert(pending_min(*tree, deps, paths.items()) == subtree_min(*tree, deps, root as int));
        assert(collected_min(modified@) == Option::<u64>::None);
        assert(visited.subset_of(set_int_range(0, tree.nodes@.len() as int)));
        lemma_int_range(0, tree.nodes@.len() as int);
        lemma_len_subset(visited, set_int_range(0, tree.nodes@.len() as int));
    }
    loop
        invariant
            tree.wf(),
            (root as int) < tree.nodes@.len(),
            deps == project.deps(),
            anchors == Set::<int>::empty().insert(root as int),
            visited.finite(),
            visited.subset_of(set_int_range(0, tree.nodes@.len() as int)),
            visited.len() <= tree.nodes@.len(),
            items_ok(*tree, paths.items(), visited),
            all_accounted(*tree, anchors, visited, Set::<int>::empty(), paths.items()),
            forall|m: int|
                0 <= m < paths.items().len() ==> (#[trigger] paths.items()[m]) >= root,
            forall|x: int| visited.contains(x) ==> x >= root,
            merge_min(collected_min(modified@), pending_min(*tree, deps, paths.items()))
                == subtree_min(*tree, deps, root as int),
        ensures
            collected_min(modified@) == subtree_min(*tree, deps, root as int),
        decreases tree.nodes@.len() - visited.len(),
    {
        let ghost items_before = paths.items();
        match paths.pop() {
            None => {
                proof {
                    assert(pending_min(*tree, deps, paths.items()) == Option::<u64>::None);
                }
                break ;
            },
            Some(iu) => {
                proof {
                    let kq = choose|kq: int|
                        0 <= kq < items_before.len() && items_before[kq] == iu && paths.items()
                            == items_before.remove(kq);
                    lemma_pending_min_remove(*tree, deps, items_before, kq);
                    lemma_remove_index(items_before, kq);
                    assert((iu as int) < tree.nodes@.len());
                    assert(!visited.contains(iu as int));
                    assert(iu >= root);
                    assert(items_ok(*tree, paths.items(), visited)
                        && all_accounted(*tree, anchors, visited, Set::<int>::empty(),
                        paths.items()) && forall|m: int|
                        0 <= m < paths.items().len() ==> (#[trigger] paths.items()[m])
                            >= root) by {
                        assert forall|m: int|
                            0 <= m < paths.items().len() implies paths.items()[m]
                            == items_before[if m < kq {
                                m
                            } else {
                                m + 1
                            }] by {}
                        assert forall|m1: int, m2: int|
                            0 <= m1 < m2 < paths.items().len() implies paths.items()[m1]
                            != paths.items()[m2] by {
                            if m2 < kq {
                            } else if m1 < kq {
                                assert(paths.items()[m2] == items_before[m2 + 1]);
                            } else {
                                assert(paths.items()[m1] == items_before[m1 + 1]);
                                assert(paths.items()[m2] == items_before[m2 + 1]);
                            }
                        }
                    }
                    let ghost visited_old = visited;
                    assert(accounted(*tree, anchors, visited_old, items_before[kq] as int));
                    // The root cannot be a child of the node being expanded.
                    assert forall|c: int| anchors.contains(c) implies !tree.is_child_of(
                        iu as int,
                        c,
                    ) by {
                        if tree.is_child_of(iu as int, c) {
                            let jx = choose|jx: int|
                                0 <= jx < tree.nodes@[iu as int].subdirs@.len()
                                    && tree.nodes@[iu as int].subdirs@[jx] == c;
                            assert(c > iu as int);
                        }
                    }
                    lemma_node_fresh(
                        *tree,
                        anchors,
                        visited,
                        Set::<int>::empty(),
                        paths.items(),
                        iu as int,
                    );
                    visited = visited.insert(iu as int);
                    lemma_accounted_widen(*tree, anchors, anchors, visited_old, visited, iu as int);
                    lemma_accounted_mono(
                        *tree,
                        anchors,
                        anchors,
                        visited_old,
                        visited,
                        Set::<int>::empty(),
                        paths.items(),
                    );
                    lemma_int_range(0, tree.nodes@.len() as int);
                    lemma_len_subset(visited, set_int_range(0, tree.nodes@.len() as int));
                    assert(items_ok(*tree, paths.items(), visited)) by {
                        assert forall|m: int| 0 <= m < paths.items().len() implies ((
                        #[trigger] paths.items()[m]) as int) < tree.nodes@.len()
                            && !visited.contains(paths.items()[m] as int) by {
                            assert(paths.items()[m] != iu);
                        }
                    }
                    assert forall|j: int|
                        0 <= j < tree.nodes@[iu as int].subdirs@.len() implies untouched(
                        *tree,
                        Set::<int>::empty(),
                        paths.items(),
                        visited,
                        (#[trigger] tree.nodes@[iu as int].subdirs@[j]) as int,
                    ) by {
                        assert(untouched(
                            *tree,
                            Set::<int>::empty(),
                            paths.items(),
                            visited_old,
                            tree.nodes@[iu as int].subdirs@[j] as int,
                        ));
                        assert((tree.nodes@[iu as int].subdirs@[j] as int) > (iu as int));
                    }
                }
                let ghost coll_before = modified@;
                let ghost pend_after_pop = pending_min(*tree, deps, paths.items());
                find_modified_date_of_directory(
                    tree,
                    project,
                    iu,
                    &mut paths,
                    &mut modified,
                    Ghost(anchors),
                    Ghost(visited),
                );
                proof {
                    let own = files_min(tree.nodes@[iu as int].files@);
                    let ch = children_min(*tree, deps, iu as int, 0);
                    lemma_collected_min_push(coll_before, own);
                    // Reassociate: the popped directory's contribution moves
                    // from the pending part to the collected part.
                    assert(subtree_min(*tree, deps, iu as int) == merge_min(own, ch));
                    lemma_merge_comm(pend_after_pop, ch);
                    lemma_merge_assoc(collected_min(coll_before), own, merge_min(ch, pend_after_pop));
                    lemma_merge_assoc(own, ch, pend_after_pop);
                    lemma_merge_comm(merge_min(own, ch), pend_after_pop);
                    lemma_merge_assoc(
                        collected_min(coll_before),
                        pend_after_pop,
                        merge_min(own, ch),
                    );
                    assert(merge_min(
                        collected_min(modified@),
                        pending_min(*tree, deps, paths.items()),
                    ) == subtree_min(*tree, deps, root as int));
                    // New queue entries are children of the expanded node,
                    // so they stay within the project's subtree.
                    assert forall|m: int|
                        0 <= m < paths.items().len() implies (#[trigger] paths.items()[m])
                        >= root by {
                        if m >= items_before.len() - 1 {
                            if tree.is_child_of(iu as int, paths.items()[m] as int) {
                                let jx = choose|jx: int|
                                    0 <= jx < tree.nodes@[iu as int].subdirs@.len()
                                        && tree.nodes@[iu as int].subdirs@[jx] == paths.items()[m];
                                assert((paths.items()[m] as int) > (iu as int));
                            }
                        }
                    }
                }
            },
        }
    }
    // The collected per-directory minima give the project's overall age.
    let mut acc: Option<u64> = Option::None;
    let n = modified.len();
    proof {
        assert(modified@.skip(0) =~= modified@);
    }
    for k in 0..n
        invariant
            n == modified@.len(),
            merge_min(acc, collected_min(modified@.skip(k as int))) == collected_min(modified@),
    {
        let v = modified[k];
        proof {
            assert(modified@.skip(k as int).first() == modified@[k as int]);
            assert(modified@.skip(k as int).drop_first() =~= modified@.skip(k as int + 1));
            lemma_merge_assoc(acc, v, collected_min(modified@.skip(k as int + 1)));
        }
        acc = merge_min_exec(acc, v);
    }
    proof {
        assert(collected_min(modified@.skip(n as int)) == Option::<u64>::None);
        assert(merge_min(acc, Option::<u64>::None) == acc);
    }
    match acc {
        Some(age) => age,
        None => 0,
    }
}

/// Splits the discovered projects into stale and recent ones. A project is
/// stale iff the youngest file anywhere in its tree — its dependency
/// directories and the bookkeeping directories excluded — is older than 30
/// days; every other project, including one in whose tree no file was seen,
/// is recent. Both halves keep their relative order.
pub fn filter_by_modified_date(tree: &FsTree, projects: Vec<(usize, Project)>) -> (r: (
    Vec<(usize, Project)>,
    Vec<(usize, Project)>,
))
    requires
        tree.wf(),
        forall|k: int|
            0 <= k < projects@.len() ==> ((#[trigger] projects@[k]).0 as int)
                < tree.nodes@.len(),
    ensures
        r.0@ == projects@.filter((|pr: (usize, Project)| spec_is_stale(*tree, pr))),
        r.1@ == projects@.filter((|pr: (usize, Project)| !spec_is_stale(*tree, pr))),
{
    let ghost all = projects@;
    let ghost stale_pred = (|pr: (usize, Project)| spec_is_stale(*tree, pr));
    let ghost recent_pred = (|pr: (usize, Project)| !spec_is_stale(*tree, pr));
    let mut stale: Vec<(usize, Project)> = Vec::new();
    let mut recent: Vec<(usize, Project)> = Vec::new();
    let mut rest = projects;
    let ghost mut k: int = 0;
    proof {
        reveal(Seq::filter);
        assert(all.take(0) =~= Seq::<(usize, Project)>::empty());
        assert(all.take(0).filter(stale_pred) =~= Seq::<(usize, Project)>::empty());
        assert(all.take(0).filter(recent_pred) =~= Seq::<(usize, Project)>::empty());
        assert(rest@ =~= all.skip(0));
    }
    while rest.len() > 0
        invariant
            tree.wf(),
            0 <= k <= all.len(),
            rest@ == all.skip(k),
            forall|m: int|
                0 <= m < all.len() ==> ((#[trigger] all[m]).0 as int) < tree.nodes@.len(),
            stale@ == all.take(k).filter(stale_pred),
            recent@ == all.take(k).filter(recent_pred),
            stale_pred == (|pr: (usize, Project)| spec_is_stale(*tree, pr)),
            recent_pred == (|pr: (usize, Project)| !spec_is_stale(*tree, pr)),
        decreases rest@.len(),
    {
        let pr = rest.remove(0);
        proof {
            assert(all.skip(k)[0] == all[k]);
            assert(pr == all[k]);
            assert(rest@ =~= all.skip(k + 1));
        }
        let age = project_modified_age(tree, &pr.1, pr.0);
        proof {
            reveal(Seq::filter);
            assert(all.take(k + 1).drop_last() =~= all.take(k));
            assert(all.take(k + 1).last() == all[k]);
        }
        if age > STALE_THRESHOLD_SECS {
            stale.push(pr);
            proof {
                assert(stale_pred(all[k]));
                assert(stale@ =~= all.take(k + 1).filter(stale_pred));
                assert(recent@ =~= all.take(k + 1).filter(recent_pred));
            }
        } else {
            recent.push(pr);
            proof {
                assert(recent_pred(all[k]));
                assert(stale@ =~= all.take(k + 1).filter(stale_pred));
                assert(recent@ =~= all.take(k + 1).filter(recent_pred));
            }
        }
        proof {
            k = k + 1;
        }
    }
    proof {
        assert(all.take(k) =~= all);
    }
    (stale, recent)
}

/// The cleanable directories of the given projects, in order.
pub open spec fn flatten_deps(s: Seq<(usize, Project)>) -> Seq<Seq<char>>
    decreases s.len(),
{
    if s.len() == 0 {
        Seq::<Seq<char>>::empty()
    } else {
        s.first().1.deps() + flatten_deps(s.drop_first())
    }
}

/// Analyses the discovered projects and returns the directories that can be
/// deleted: the dependency directories of every stale project — of every
/// project when `settings.all` is set — sorted by path.
pub fn analyse_projects(tree: &FsTree, projects: Vec<(usize, Project)>, settings: &Settings) -> (r:
    Vec<String>)
    requires
        tree.wf(),
        forall|k: int|
            0 <= k < projects@.len() ==> ((#[trigger] projects@[k]).0 as int)
                < tree.nodes@.len(),
    ensures
        ({
            let selected = if settings.all {
                projects@
            } else {
                projects@.filter((|pr: (usize, Project)| spec_is_stale(*tree, pr)))
            };
            &&& crate::text::lex_sorted(r.deep_view())
            &&& r.deep_view().to_multiset() == flatten_deps(selected).to_multiset()
        }),
{
    let mut selected: Vec<(usize, Project)> = if settings.all {
        projects
    } else {
        let (stale, _recent) = filter_by_modified_date(tree, projects);
        stale
    };
    let ghost sel = selected@;
    let mut dirs: Vec<String> = Vec::new();
    proof {
        assert(dirs.deep_view() =~= Seq::<Seq<char>>::empty());
        assert(dirs.deep_view() + flatten_deps(selected@) =~= flatten_deps(sel));
    }
    while selected.len() > 0
        invariant
            dirs.deep_view() + flatten_deps(selected@) == flatten_deps(sel),
        decreases selected@.len(),
    {
        let ghost sel_before = selected@;
        let pr = selected.remove(0);
        let mut cleanable = pr.1.into_cleanable_dirs();
        let ghost dirs_before = dirs.deep_view();
        let ghost clean = cleanable.deep_view();
        dirs.append(&mut cleanable);
        proof {
            assert(sel_before.first() == pr);
            assert(selected@ =~= sel_before.drop_first());
            assert(flatten_deps(sel_before) == pr.1.deps() + flatten_deps(sel_before.drop_first()));
            assert(dirs.deep_view() =~~= dirs_before + clean);
            assert(dirs.deep_view() + flatten_deps(selected@) =~= dirs_before + (pr.1.deps()
                + flatten_deps(sel_before.drop_first())));
        }
    }
    proof {
        assert(flatten_deps(selected@) =~= Seq::<Seq<char>>::empty());
        assert(dirs.deep_view() =~= dirs.deep_view() + flatten_deps(selected@));
        assert(dirs.deep_view() == flatten_deps(sel));
    }
    crate::text::sort_paths(dirs)
}

/// Whether every file directly in `files` whose age is known is older than
/// `t`.
pub open spec fn files_all_over(files: Seq<FileEntry>, t: u64) -> bool {
    forall|k: int|
        0 <= k < files.len() ==> match (#[trigger] files[k]).age_secs {
            Option::Some(a) => a > t,
            Option::None => true,
        }
}

/// Whether every known file age in the analysed part of the tree below node
/// `i` — excluded directories do not count — is older than `t`.
pub open spec fn subtree_ages_over(tree: FsTree, deps: Seq<Seq<char>>, i: int, t: u64) -> bool
    decreases tree.nodes@.len() - i, tree.nodes@[i].subdirs@.len() + 1,
        when tree.wf() && 0 <= i < tree.nodes@.len()
{
    files_all_over(tree.nodes@[i].files@, t) && children_ages_over(tree, deps, i, 0, t)
}

/// The same, over children `j..` of node `i`.
pub open spec fn children_ages_over(
    tree: FsTree,
    deps: Seq<Seq<char>>,
    i: int,
    j: int,
    t: u64,
) -> bool
    decreases tree.nodes@.len() - i, tree.nodes@[i].subdirs@.len() - j,
        when tree.wf() && 0 <= i < tree.nodes@.len() && 0 <= j
{
    if j >= tree.nodes@[i].subdirs@.len() {
        true
    } else {
        child_ages_over(tree, deps, tree.nodes@[i].subdirs@[j] as int, t) && children_ages_over(
            tree,
            deps,
            i,
            j + 1,
            t,
        )
    }
}

/// The same, for one child: an excluded directory has no say.
pub open spec fn child_ages_over(tree: FsTree, deps: Seq<Seq<char>>, c: int, t: u64) -> bool
    decreases tree.nodes@.len() - c, tree.nodes@[c].subdirs@.len() + 2,
        when tree.wf() && 0 <= c < tree.nodes@.len()
{
    excluded_dir(tree, deps, c) || subtree_ages_over(tree, deps, c, t)
}

/// Whether some file directly in `files` has a known age of at most `t`.
pub open spec fn files_has_at_most(files: Seq<FileEntry>, t: u64) -> bool {
    exists|k: int|
        0 <= k < files.len() && match (#[trigger] files[k]).age_secs {
            Option::Some(a) => a <= t,
            Option::None => false,
        }
}

/// Whether some file in the analysed part of the tree below node `i` was
/// modified at most `t` seconds ago.
pub open spec fn subtree_has_at_most(tree: FsTree, deps: Seq<Seq<char>>, i: int, t: u64) -> bool
    decreases tree.nodes@.len() - i, tree.nodes@[i].subdirs@.len() + 1,
        when tree.wf() && 0 <= i < tree.nodes@.len()
{
    files_has_at_most(tree.nodes@[i].files@, t) || children_have_at_most(tree, deps, i, 0, t)
}

/// The same, over children `j..` of node `i`.
pub open spec fn children_have_at_most(
    tree: FsTree,
    deps: Seq<Seq<char>>,
    i: int,
    j: int,
    t: u64,
) -> bool
    decreases tree.nodes@.len() - i, tree.nodes@[i].subdirs@.len() - j,
        when tree.wf() && 0 <= i < tree.nodes@.len() && 0 <= j
{
    if j >= tree.nodes@[i].subdirs@.len() {
        false
    } else {
        let c = tree.nodes@[i].subdirs@[j] as int;
        (!excluded_dir(tree, deps, c) && subtree_has_at_most(tree, deps, c, t))
            || children_have_at_most(tree, deps, i, j + 1, t)
    }
}

proof fn lemma_files_min_over(files: Seq<FileEntry>, t: u64)
    requires
        files_all_over(files, t),
    ensures
        match files_min(files) {
            Option::Some(m) => m > t,
            Option::None => true,
        },
    decreases files.len(),
{
    if files.len() > 0 {
        assert(files_all_over(files.drop_first(), t)) by {
            assert(forall|k: int|
                0 <= k < files.drop_first().len() ==> files.drop_first()[k] == files[k + 1]);
        }
        lemma_files_min_over(files.drop_first(), t);
        assert(files[0] == files.first());
    }
}

proof fn lemma_subtree_min_over(tree: FsTree, deps: Seq<Seq<char>>, i: int, t: u64)
    requires
        tree.wf(),
        0 <= i < tree.nodes@.len(),
        subtree_ages_over(tree, deps, i, t),
    ensures
        match subtree_min(tree, deps, i) {
            Option::Some(m) => m > t,
            Option::None => true,
        },
    decreases tree.nodes@.len() - i, tree.nodes@[i].subdirs@.len() + 1,
{
    lemma_files_min_over(tree.nodes@[i].files@, t);
    lemma_children_min_over(tree, deps, i, 0, t);
}

proof fn lemma_children_min_over(tree: FsTree, deps: Seq<Seq<char>>, i: int, j: int, t: u64)
    requires
        tree.wf(),
        0 <= i < tree.nodes@.len(),
        0 <= j,
        children_ages_over(tree, deps, i, j, t),
    ensures
        match children_min(tree, deps, i, j) {
            Option::Some(m) => m > t,
            Option::None => true,
        },
    decreases tree.nodes@.len() - i, tree.nodes@[i].subdirs@.len() - j,
{
    if j < tree.nodes@[i].subdirs@.len() {
        let c = tree.nodes@[i].subdirs@[j] as int;
        assert(child_ages_over(tree, deps, c, t));
        if !excluded_dir(tree, deps, c) {
            assert(subtree_ages_over(tree, deps, c, t));
            lemma_subtree_min_over(tree, deps, c, t);
            assert(child_min_contrib(tree, deps, c) == subtree_min(tree, deps, c));
        } else {
            assert(child_min_contrib(tree, deps, c) == Option::<u64>::None);
        }
        lemma_children_min_over(tree, deps, i, j + 1, t);
        assert(children_min(tree, deps, i, j) == merge_min(
            child_min_contrib(tree, deps, c),
            children_min(tree, deps, i, j + 1),
        ));
    }
}

proof fn lemma_files_min_at_most(files: Seq<FileEntry>, t: u64)
    requires
        files_has_at_most(files, t),
    ensures
        match files_min(files) {
            Option::Some(m) => m <= t,
            Option::None => false,
        },
    decreases files.len(),
{
    let k = choose|k: int|
        0 <= k < files.len() && match (#[trigger] files[k]).age_secs {
            Option::Some(a) => a <= t,
            Option::None => false,
        };
    if k == 0 {
        assert(files[0] == files.first());
    } else {
        assert(files_has_at_most(files.drop_first(), t)) by {
            assert(files.drop_first()[k - 1] == files[k]);
        }
        lemma_files_min_at_most(files.drop_first(), t);
    }
}

proof fn lemma_subtree_min_at_most(tree: FsTree, deps: Seq<Seq<char>>, i: int, t: u64)
    requires
        tree.wf(),
        0 <= i < tree.nodes@.len(),
        subtree_has_at_most(tree, deps, i, t),
    ensures
        match subtree_min(tree, deps, i) {
            Option::Some(m) => m <= t,
            Option::None => false,
        },
    decreases tree.nodes@.len() - i, tree.nodes@[i].subdirs@.len() + 1,
{
    if files_has_at_most(tree.nodes@[i].files@, t) {
        lemma_files_min_at_most(tree.nodes@[i].files@, t);
    } else {
        lemma_children_min_at_most(tree, deps, i, 0, t);
    }
}

proof fn lemma_children_min_at_most(tree: FsTree, deps: Seq<Seq<char>>, i: int, j: int, t: u64)
    requires
        tree.wf(),
        0 <= i < tree.nodes@.len(),
        0 <= j,
        children_have_at_most(tree, deps, i, j, t),
    ensures
        match children_min(tree, deps, i, j) {
            Option::Some(m) => m <= t,
            Option::None => false,
        },
    decreases tree.nodes@.len() - i, tree.nodes@[i].subdirs@.len() - j,
{
    assert(j < tree.nodes@[i].subdirs@.len());
    let c = tree.nodes@[i].subdirs@[j] as int;
    assert(children_min(tree, deps, i, j) == merge_min(
        child_min_contrib(tree, deps, c),
        children_min(tree, deps, i, j + 1),
    ));
    if !excluded_dir(tree, deps, c) && subtree_has_at_most(tree, deps, c, t) {
        lemma_subtree_min_at_most(tree, deps, c, t);
        assert(child_min_contrib(tree, deps, c) == subtree_min(tree, deps, c));
    } else {
        assert(children_have_at_most(tree, deps, i, j + 1, t));
        lemma_children_min_at_most(tree, deps, i, j + 1, t);
    }
}

/// Law (modified-time partition, stale side): a project in whose tree at
/// least one file age is known, and whose known file ages — outside its
/// dependency directories and the bookkeeping directories, which have no
/// say — all exceed 30 days, is classified stale. A project with no known
/// file age at all is the one exception: its age defaults to 0 and it
/// counts as recent.
pub proof fn lemma_all_old_project_is_stale(tree: FsTree, pr: (usize, Project))
    requires
        tree.wf(),
        (pr.0 as int) < tree.nodes@.len(),
        subtree_min(tree, pr.1.deps(), pr.0 as int) is Some,
        subtree_ages_over(tree, pr.1.deps(), pr.0 as int, STALE_THRESHOLD_SECS),
    ensures
        spec_is_stale(tree, pr),
{
    lemma_subtree_min_over(tree, pr.1.deps(), pr.0 as int, STALE_THRESHOLD_SECS);
}

/// Law (modified-time partition, recent side): a project with at least one
/// file modified within the last 30 days — outside its dependency
/// directories and the bookkeeping directories — is classified recent.
pub proof fn lemma_recent_project_is_recent(tree: FsTree, pr: (usize, Project))
    requires
        tree.wf(),
        (pr.0 as int) < tree.nodes@.len(),
        subtree_has_at_most(tree, pr.1.deps(), pr.0 as int, STALE_THRESHOLD_SECS),
    ensures
        !spec_is_stale(tree, pr),
{
    lemma_subtree_min_at_most(tree, pr.1.deps(), pr.0 as int, STALE_THRESHOLD_SECS);
}

} // verus!
