//! Discovery of cleanable projects: walks the modelled directory tree from
//! the configured roots with an explicit work queue, classifying every
//! directory it meets. A directory classified as a project is collected and
//! not descended into; an ignored directory is skipped entirely.

use vstd::prelude::*;
use vstd::set_lib::{lemma_len_subset, lemma_int_range, set_int_range};
use regex::Regex;
use crate::detect::{
    detect_cleanable_project, has_builtin_marker, builtin_candidates, apply_candidates,
    is_project_listing, spec_dependency_dirs, listing_candidates,
};
use crate::fs_model::{FsTree, node_listing};
use crate::ignore::spec_is_ignored;
use crate::overrides::parse_override;
use crate::project::Project;
use crate::queue::WorkQueue;
use crate::settings::Settings;

verus! {

/// Whether node `i` is classified as a project.
pub open spec fn node_is_project(tree: FsTree, i: int) -> bool {
    tree.override_of(i) is Some || has_builtin_marker(tree.entries_of(i))
}

/// The candidate dependency directory names applying to node `i`.
pub open spec fn node_candidates(tree: FsTree, i: int) -> Seq<Seq<char>> {
    match tree.override_of(i) {
        Some(t) => parse_override(t),
        None => builtin_candidates(tree.entries_of(i)),
    }
}

/// The dependency directories of the project at node `i`.
pub open spec fn node_project_deps(tree: FsTree, i: int) -> Seq<Seq<char>> {
    apply_candidates(
        tree.nodes@[i].path@,
        node_candidates(tree, i),
        tree.dir_names(i),
        Seq::<Seq<char>>::empty(),
    )
}

/// Whether node `i` is skipped by the ignore filter.
pub open spec fn node_ignored(tree: FsTree, ig: Option<Regex>, i: int) -> bool {
    spec_is_ignored(ig, tree.nodes@[i].path@)
}

/// The projects discovered by descending below node `i` (a directory that is
/// being expanded).
pub open spec fn reach_from(tree: FsTree, ig: Option<Regex>, i: int) -> Set<int>
    decreases tree.nodes@.len() - i, tree.nodes@[i].subdirs@.len() + 1,
        when tree.wf() && 0 <= i < tree.nodes@.len()
{
    reach_suffix(tree, ig, i, 0)
}

/// The projects discovered below children `j..` of node `i`.
pub open spec fn reach_suffix(tree: FsTree, ig: Option<Regex>, i: int, j: int) -> Set<int>
    decreases tree.nodes@.len() - i, tree.nodes@[i].subdirs@.len() - j,
        when tree.wf() && 0 <= i < tree.nodes@.len() && 0 <= j
{
    if j >= tree.nodes@[i].subdirs@.len() {
        Set::empty()
    } else {
        child_contrib(tree, ig, tree.nodes@[i].subdirs@[j] as int).union(
            reach_suffix(tree, ig, i, j + 1),
        )
    }
}

/// What one child directory `c` contributes: nothing if it is ignored,
/// itself if it is a project (its inside is not searched further), and
/// everything below it otherwise.
pub open spec fn child_contrib(tree: FsTree, ig: Option<Regex>, c: int) -> Set<int>
    decreases tree.nodes@.len() - c, tree.nodes@[c].subdirs@.len() + 2,
        when tree.wf() && 0 <= c < tree.nodes@.len()
{
    if node_ignored(tree, ig, c) {
        Set::empty()
    } else if node_is_project(tree, c) {
        Set::empty().insert(c)
    } else {
        reach_from(tree, ig, c)
    }
}

/// What one configured root contributes: itself if it is a project,
/// everything below it otherwise. Roots are not subject to the ignore
/// filter.
pub open spec fn root_contrib(tree: FsTree, ig: Option<Regex>, r: int) -> Set<int> {
    if node_is_project(tree, r) {
        Set::empty().insert(r)
    } else {
        reach_from(tree, ig, r)
    }
}

/// The projects discovered from the first `k` configured roots.
pub open spec fn discovered_upto(tree: FsTree, ig: Option<Regex>, k: int) -> Set<int>
    decreases k,
{
    if k <= 0 {
        Set::empty()
    } else {
        discovered_upto(tree, ig, k - 1).union(
            root_contrib(tree, ig, tree.roots@[k - 1] as int),
        )
    }
}

/// The set of project directories that discovery finds: a directory is in
/// the set iff it is a project and is reached from a configured root by
/// descending through non-project, non-ignored directories.
pub open spec fn spec_discovered(tree: FsTree, ig: Option<Regex>) -> Set<int> {
    discovered_upto(tree, ig, tree.roots@.len() as int)
}

/// The projects that the pending work items `s` (directories still to be
/// expanded) will contribute.
pub open spec fn pending_reach(tree: FsTree, ig: Option<Regex>, s: Seq<usize>) -> Set<int>
    decreases s.len(),
{
    if s.len() == 0 {
        Set::empty()
    } else {
        reach_from(tree, ig, s.first() as int).union(pending_reach(tree, ig, s.drop_first()))
    }
}

proof fn lemma_pending_reach_push(tree: FsTree, ig: Option<Regex>, s: Seq<usize>, v: usize)
    ensures
        pending_reach(tree, ig, s.push(v)) == pending_reach(tree, ig, s).union(
            reach_from(tree, ig, v as int),
        ),
    decreases s.len(),
{
    let t = s.push(v);
    if s.len() == 0 {
        assert(t.first() == v);
        assert(t.drop_first() =~= s);
        assert(pending_reach(tree, ig, s) == Set::<int>::empty());
        assert(pending_reach(tree, ig, t) == reach_from(tree, ig, t.first() as int).union(
            pending_reach(tree, ig, t.drop_first()),
        ));
        assert(pending_reach(tree, ig, t.drop_first()) == pending_reach(tree, ig, s));
        assert(pending_reach(tree, ig, t) =~= pending_reach(tree, ig, s).union(
            reach_from(tree, ig, v as int),
        ));
    } else {
        assert(t.first() == s.first());
        assert(t.drop_first() =~= s.drop_first().push(v));
        lemma_pending_reach_push(tree, ig, s.drop_first(), v);
        assert(pending_reach(tree, ig, t) == reach_from(tree, ig, t.first() as int).union(
            pending_reach(tree, ig, t.drop_first()),
        ));
        assert(pending_reach(tree, ig, t.drop_first()) == pending_reach(
            tree,
            ig,
            s.drop_first().push(v),
        ));
        assert(pending_reach(tree, ig, t) =~= pending_reach(tree, ig, s).union(
            reach_from(tree, ig, v as int),
        ));
    }
}

proof fn lemma_pending_reach_remove(tree: FsTree, ig: Option<Regex>, s: Seq<usize>, k: int)
    requires
        0 <= k < s.len(),
    ensures
        pending_reach(tree, ig, s) == pending_reach(tree, ig, s.remove(k)).union(
            reach_from(tree, ig, s[k] as int),
        ),
    decreases s.len(),
{
    let t = s.remove(k);
    if k == 0 {
        assert(t =~= s.drop_first());
        assert(pending_reach(tree, ig, s) == reach_from(tree, ig, s.first() as int).union(
            pending_reach(tree, ig, s.drop_first()),
        ));
        assert(pending_reach(tree, ig, t) == pending_reach(tree, ig, s.drop_first()));
        assert(pending_reach(tree, ig, s) =~= pending_reach(tree, ig, t).union(
            reach_from(tree, ig, s[0] as int),
        ));
    } else {
        assert(t.len() == s.len() - 1);
        assert(t.first() == s.first());
        assert(t.drop_first() =~= s.drop_first().remove(k - 1));
        lemma_pending_reach_remove(tree, ig, s.drop_first(), k - 1);
        assert(pending_reach(tree, ig, s) == reach_from(tree, ig, s.first() as int).union(
            pending_reach(tree, ig, s.drop_first()),
        ));
        assert(pending_reach(tree, ig, t) == reach_from(tree, ig, t.first() as int).union(
            pending_reach(tree, ig, t.drop_first()),
        ));
        assert(pending_reach(tree, ig, t.drop_first()) == pending_reach(
            tree,
            ig,
            s.drop_first().remove(k - 1),
        ));
        assert(s.drop_first()[k - 1] == s[k]);
        assert(pending_reach(tree, ig, s) =~= pending_reach(tree, ig, t).union(
            reach_from(tree, ig, s[k] as int),
        ));
    }
}

/// A correct discovery result entry: the node's index together with the
/// project value that classification of that node yields.
pub open spec fn good_pair(tree: FsTree, pr: (usize, Project)) -> bool {
    &&& (pr.0 as int) < tree.nodes@.len()
    &&& node_is_project(tree, pr.0 as int)
    &&& pr.1.root_view() == tree.nodes@[pr.0 as int].path@
    &&& pr.1.deps() == node_project_deps(tree, pr.0 as int)
    &&& pr.1.wf()
}

/// `found` is exactly the set of node indices in `v`; the pairs are correct
/// and the indices distinct.
pub(crate) open spec fn found_ok(tree: FsTree, found: Set<int>, v: Seq<(usize, Project)>) -> bool {
    &&& forall|k: int|
        0 <= k < v.len() ==> found.contains((#[trigger] v[k]).0 as int) && good_pair(tree, v[k])
    &&& forall|c: int|
        found.contains(c) ==> exists|k: int| 0 <= k < v.len() && ((#[trigger] v[k]).0 as int) == c
    &&& forall|k1: int, k2: int| 0 <= k1 < k2 < v.len() ==> v[k1].0 != v[k2].0
}

/// The pending items are in range, unvisited, and distinct.
pub(crate) open spec fn items_ok(tree: FsTree, s: Seq<usize>, visited: Set<int>) -> bool {
    &&& forall|k: int|
        0 <= k < s.len() ==> ((#[trigger] s[k]) as int) < tree.nodes@.len() && !visited.contains(
            s[k] as int,
        )
    &&& forall|k1: int, k2: int| 0 <= k1 < k2 < s.len() ==> s[k1] != s[k2]
}

/// How a node may have been touched at all: it is an anchor (a configured
/// root already processed), or its parent has been expanded.
pub(crate) open spec fn accounted(tree: FsTree, anchors: Set<int>, visited: Set<int>, c: int) -> bool {
    anchors.contains(c) || exists|x: int| visited.contains(x) && tree.is_child_of(x, c)
}

/// Everything recorded anywhere is accounted.
pub(crate) open spec fn all_accounted(
    tree: FsTree,
    anchors: Set<int>,
    visited: Set<int>,
    found: Set<int>,
    s: Seq<usize>,
) -> bool {
    &&& forall|c: int| found.contains(c) ==> accounted(tree, anchors, visited, c)
    &&& forall|k: int|
        0 <= k < s.len() ==> accounted(tree, anchors, visited, (#[trigger] s[k]) as int)
    &&& forall|c: int| visited.contains(c) ==> accounted(tree, anchors, visited, c)
}

/// Anchors are never subdirectories.
pub(crate) open spec fn anchors_ok(tree: FsTree, anchors: Set<int>) -> bool {
    forall|c: int| anchors.contains(c) ==> !tree.is_some_child(c)
}

/// Node `c` occurs nowhere yet.
pub(crate) open spec fn untouched(tree: FsTree, found: Set<int>, s: Seq<usize>, visited: Set<int>, c: int) -> bool {
    &&& !found.contains(c)
    &&& !visited.contains(c)
    &&& forall|k: int| 0 <= k < s.len() ==> ((#[trigger] s[k]) as int) != c
}

/// When a node that was never expanded is expanded, its children are fresh:
/// each child's only parent is this node, so nothing can have recorded them.
pub(crate) proof fn lemma_node_fresh(
    tree: FsTree,
    anchors: Set<int>,
    visited: Set<int>,
    found: Set<int>,
    s: Seq<usize>,
    i: int,
)
    requires
        tree.wf(),
        0 <= i < tree.nodes@.len(),
        forall|c: int| anchors.contains(c) ==> !tree.is_child_of(i, c),
        all_accounted(tree, anchors, visited, found, s),
        !visited.contains(i),
    ensures
        forall|j: int|
            0 <= j < tree.nodes@[i].subdirs@.len() ==> untouched(
                tree,
                found,
                s,
                visited,
                (#[trigger] tree.nodes@[i].subdirs@[j]) as int,
            ),
{
    assert forall|j: int| 0 <= j < tree.nodes@[i].subdirs@.len() implies untouched(
        tree,
        found,
        s,
        visited,
        (#[trigger] tree.nodes@[i].subdirs@[j]) as int,
    ) by {
        let c = tree.nodes@[i].subdirs@[j] as int;
        assert(tree.is_child_of(i, c));
        if accounted(tree, anchors, visited, c) {
            if anchors.contains(c) {
                assert(tree.is_child_of(i, c));
                assert(false);
            } else {
                let x = choose|x: int| visited.contains(x) && tree.is_child_of(x, c);
                let jx = choose|jj: int|
                    0 <= jj < tree.nodes@[x].subdirs@.len() && tree.nodes@[x].subdirs@[jj] == c;
                assert(tree.nodes@[x].subdirs@[jx] == tree.nodes@[i].subdirs@[j]);
                assert(x == i);
                assert(false);
            }
        }
        if found.contains(c) {
            assert(accounted(tree, anchors, visited, c));
        }
        if visited.contains(c) {
            assert(accounted(tree, anchors, visited, c));
        }
        assert forall|k: int| 0 <= k < s.len() implies ((#[trigger] s[k]) as int) != c by {
            if (s[k] as int) == c {
                assert(accounted(tree, anchors, visited, s[k] as int));
            }
        }
    }
}

/// Expands node `i`: classifies each of its subdirectories, collecting the
/// projects among them and queueing the rest for further descent. Returns
/// the updated set of found project indices.
fn expand_node(
    tree: &FsTree,
    settings: &Settings,
    i: usize,
    queue: &mut WorkQueue,
    discovered: &mut Vec<(usize, Project)>,
    Ghost(anchors): Ghost<Set<int>>,
    Ghost(visited): Ghost<Set<int>>,
    Ghost(found0): Ghost<Set<int>>,
) -> (res: Ghost<Set<int>>)
    requires
        tree.wf(),
        (i as int) < tree.nodes@.len(),
        visited.contains(i as int),
        anchors_ok(*tree, anchors),
        items_ok(*tree, old(queue).items(), visited),
        found_ok(*tree, found0, old(discovered)@),
        all_accounted(*tree, anchors, visited, found0, old(queue).items()),
        forall|j: int|
            0 <= j < tree.nodes@[i as int].subdirs@.len() ==> untouched(
                *tree,
                found0,
                old(queue).items(),
                visited,
                (#[trigger] tree.nodes@[i as int].subdirs@[j]) as int,
            ),
    ensures
        items_ok(*tree, final(queue).items(), visited),
        found_ok(*tree, res@, final(discovered)@),
        all_accounted(*tree, anchors, visited, res@, final(queue).items()),
        res@.union(pending_reach(*tree, settings.ignore, final(queue).items())) == found0.union(
            pending_reach(*tree, settings.ignore, old(queue).items()),
        ).union(reach_from(*tree, settings.ignore, i as int)),
{
    let ghost ig = settings.ignore;
    let ghost items0 = queue.items();
    let ghost mut found: Set<int> = found0;
    let m = tree.nodes[i].subdirs.len();
    proof {
        assert(reach_from(*tree, ig, i as int) == reach_suffix(*tree, ig, i as int, 0));
    }
    for j in 0..m
        invariant
            tree.wf(),
            (i as int) < tree.nodes@.len(),
            visited.contains(i as int),
            anchors_ok(*tree, anchors),
            m == tree.nodes@[i as int].subdirs@.len(),
            ig == settings.ignore,
            items_ok(*tree, queue.items(), visited),
            found_ok(*tree, found, discovered@),
            all_accounted(*tree, anchors, visited, found, queue.items()),
            forall|jj: int|
                j <= jj < m ==> untouched(
                    *tree,
                    found,
                    queue.items(),
                    visited,
                    (#[trigger] tree.nodes@[i as int].subdirs@[jj]) as int,
                ),
            found.union(pending_reach(*tree, ig, queue.items())).union(
                reach_suffix(*tree, ig, i as int, j as int),
            ) == found0.union(pending_reach(*tree, ig, items0)).union(
                reach_from(*tree, ig, i as int),
            ),
    {
        let c = tree.nodes[i].subdirs[j];
        proof {
            assert((i as int) < (c as int) < tree.nodes@.len());
            assert(reach_suffix(*tree, ig, i as int, j as int) == child_contrib(
                *tree,
                ig,
                c as int,
            ).union(reach_suffix(*tree, ig, i as int, j as int + 1)));
        }
        let ghost items_before = queue.items();
        let ghost found_before = found;
        let ignored = settings.is_path_ignored(tree.nodes[c].path.as_str());
        if ignored {
            proof {
                assert(child_contrib(*tree, ig, c as int) =~= Set::<int>::empty());
                assert(found.union(pending_reach(*tree, ig, queue.items())).union(
                    reach_suffix(*tree, ig, i as int, j as int + 1),
                ) =~= found.union(pending_reach(*tree, ig, queue.items())).union(
                    reach_suffix(*tree, ig, i as int, j as int),
                ));
            }
        } else {
            let listing = node_listing(tree, c);
            proof {
                assert(listing.entries() == tree.entries_of(c as int));
                assert(is_project_listing(listing) == node_is_project(*tree, c as int));
            }
            match detect_cleanable_project(tree.nodes[c].path.as_str(), &listing) {
                Some(p) => {
                    proof {
                        assert(node_is_project(*tree, c as int));
                        assert(listing_candidates(listing) == node_candidates(*tree, c as int));
                        assert(spec_dependency_dirs(tree.nodes@[c as int].path@, listing)
                            == node_project_deps(*tree, c as int));
                        assert(child_contrib(*tree, ig, c as int) =~= Set::<int>::empty().insert(
                            c as int,
                        ));
                    }
                    let ghost disc_before = discovered@;
                    discovered.push((c, p));
                    proof {
                        found = found.insert(c as int);
                        assert(discovered@ == disc_before.push((c, p)));
                        assert(tree.is_child_of(i as int, c as int));
                        assert(accounted(*tree, anchors, visited, c as int));
                        assert(untouched(*tree, found_before, items_before, visited, c as int));
                        assert(found_ok(*tree, found, discovered@)) by {
                            assert forall|k: int| 0 <= k < discovered@.len() implies found.contains(
                                (#[trigger] discovered@[k]).0 as int,
                            ) && good_pair(*tree, discovered@[k]) by {
                                if k < disc_before.len() {
                                    assert(discovered@[k] == disc_before[k]);
                                } else {
                                    assert(discovered@[k] == (c, p));
                                }
                            }
                            assert forall|c2: int| found.contains(c2) implies exists|k: int|
                                0 <= k < discovered@.len() && ((#[trigger] discovered@[k]).0
                                    as int) == c2 by {
                                if c2 == c as int {
                                    assert((discovered@[disc_before.len() as int]).0 as int
                                        == c2);
                                } else {
                                    assert(found_before.contains(c2));
                                    let k = choose|k: int|
                                        0 <= k < disc_before.len() && ((
                                        #[trigger] disc_before[k]).0 as int) == c2;
                                    assert((discovered@[k]).0 as int == c2);
                                }
                            }
                            assert forall|k1: int, k2: int|
                                0 <= k1 < k2 < discovered@.len() implies discovered@[k1].0
                                != discovered@[k2].0 by {
                                if k2 == discovered@.len() - 1 {
                                    assert(discovered@[k1] == disc_before[k1]);
                                    assert(found_before.contains(disc_before[k1].0 as int));
                                    assert(!found_before.contains(c as int));
                                } else {
                                    assert(discovered@[k1] == disc_before[k1]);
                                    assert(discovered@[k2] == disc_before[k2]);
                                }
                            }
                        }
                        assert(found.union(pending_reach(*tree, ig, queue.items())).union(
                            reach_suffix(*tree, ig, i as int, j as int + 1),
                        ) =~= found_before.union(pending_reach(*tree, ig, items_before)).union(
                            reach_suffix(*tree, ig, i as int, j as int),
                        ));
                        assert forall|jj: int| j + 1 <= jj < m implies untouched(
                            *tree,
                            found,
                            queue.items(),
                            visited,
                            (#[trigger] tree.nodes@[i as int].subdirs@[jj]) as int,
                        ) by {
                            assert(tree.nodes@[i as int].subdirs@[jj]
                                != tree.nodes@[i as int].subdirs@[j as int]);
                        }
                    }
                },
                None => {
                    proof {
                        assert(!node_is_project(*tree, c as int));
                        assert(child_contrib(*tree, ig, c as int) == reach_from(
                            *tree,
                            ig,
                            c as int,
                        ));
                    }
                    queue.push(c);
                    proof {
                        lemma_pending_reach_push(*tree, ig, items_before, c);
                        assert(tree.is_child_of(i as int, c as int));
                        assert(accounted(*tree, anchors, visited, c as int));
                        assert(items_ok(*tree, queue.items(), visited)) by {
                            assert forall|k1: int, k2: int|
                                0 <= k1 < k2 < queue.items().len() implies queue.items()[k1]
                                != queue.items()[k2] by {
                                if k2 == queue.items().len() - 1 {
                                    assert(queue.items()[k1] == items_before[k1]);
                                    assert((items_before[k1] as int) != (c as int));
                                }
                            }
                        }
                        assert(found.union(pending_reach(*tree, ig, queue.items())).union(
                            reach_suffix(*tree, ig, i as int, j as int + 1),
                        ) =~= found_before.union(pending_reach(*tree, ig, items_before)).union(
                            reach_suffix(*tree, ig, i as int, j as int),
                        ));
                        assert forall|jj: int| j + 1 <= jj < m implies untouched(
                            *tree,
                            found,
                            queue.items(),
                            visited,
                            (#[trigger] tree.nodes@[i as int].subdirs@[jj]) as int,
                        ) by {
                            assert(tree.nodes@[i as int].subdirs@[jj]
                                != tree.nodes@[i as int].subdirs@[j as int]);
                            assert forall|k: int| 0 <= k < queue.items().len() implies ((
                            #[trigger] queue.items()[k]) as int) != (
                            tree.nodes@[i as int].subdirs@[jj] as int) by {
                                if k < queue.items().len() - 1 {
                                    assert(queue.items()[k] == items_before[k]);
                                }
                            }
                        }
                    }
                },
            }
        }
    }
    proof {
        assert(reach_suffix(*tree, ig, i as int, m as int) =~= Set::<int>::empty());
        assert(found.union(pending_reach(*tree, ig, queue.items())) =~= found.union(
            pending_reach(*tree, ig, queue.items()),
        ).union(reach_suffix(*tree, ig, i as int, m as int)));
    }
    Ghost(found)
}

/// Law: discovery is idempotent. The set of directories that discovery
/// finds is a function of the tree and the ignore pattern alone, so two runs
/// over an unchanged tree find the same set of projects.
pub proof fn lemma_discover_idempotent(
    tree: FsTree,
    ig: Option<Regex>,
    s1: Set<int>,
    s2: Set<int>,
)
    requires
        s1 == spec_discovered(tree, ig),
        s2 == spec_discovered(tree, ig),
    ensures
        s1 == s2,
{
}

/// The set of the first `k` configured roots.
spec fn roots_prefix(tree: FsTree, k: int) -> Set<int> {
    Set::new(|c: int| exists|kk: int| 0 <= kk < k && (tree.roots@[kk] as int) == c)
}

proof fn lemma_roots_prefix_ok(tree: FsTree, k: int)
    requires
        tree.wf(),
        0 <= k <= tree.roots@.len(),
    ensures
        anchors_ok(tree, roots_prefix(tree, k)),
{
    assert forall|c: int| roots_prefix(tree, k).contains(c) implies !tree.is_some_child(c) by {
        let kk = choose|kk: int| 0 <= kk < k && (tree.roots@[kk] as int) == c;
        assert(!tree.is_some_child(tree.roots@[kk] as int));
    }
}

pub(crate) proof fn lemma_not_accounted(tree: FsTree, anchors: Set<int>, visited: Set<int>, r: int)
    requires
        !anchors.contains(r),
        !tree.is_some_child(r),
    ensures
        !accounted(tree, anchors, visited, r),
{
    if accounted(tree, anchors, visited, r) {
        let x = choose|x: int| visited.contains(x) && tree.is_child_of(x, r);
        assert(tree.is_child_of(x, r));
        assert(tree.is_some_child(r));
    }
}

/// A configured root that is reached in the seeding pass has not been
/// touched by the processing of the earlier roots.
proof fn lemma_root_fresh(
    tree: FsTree,
    visited: Set<int>,
    found: Set<int>,
    s: Seq<usize>,
    k: int,
)
    requires
        tree.wf(),
        0 <= k < tree.roots@.len(),
        all_accounted(tree, roots_prefix(tree, k), visited, found, s),
    ensures
        untouched(tree, found, s, visited, tree.roots@[k] as int),
{
    let r = tree.roots@[k] as int;
    assert(!tree.is_some_child(r));
    assert(!roots_prefix(tree, k).contains(r)) by {
        if roots_prefix(tree, k).contains(r) {
            let kk = choose|kk: int| 0 <= kk < k && (tree.roots@[kk] as int) == r;
            assert(tree.roots@[kk] == tree.roots@[k]);
            assert(false);
        }
    }
    lemma_not_accounted(tree, roots_prefix(tree, k), visited, r);
    assert forall|kq: int| 0 <= kq < s.len() implies ((#[trigger] s[kq]) as int) != r by {
        if (s[kq] as int) == r {
            assert(accounted(tree, roots_prefix(tree, k), visited, s[kq] as int));
        }
    }
}

/// Recording a fresh, correct pair keeps the found-set and the result
/// vector in step.
proof fn lemma_found_push(
    tree: FsTree,
    found: Set<int>,
    v: Seq<(usize, Project)>,
    pr: (usize, Project),
)
    requires
        found_ok(tree, found, v),
        good_pair(tree, pr),
        !found.contains(pr.0 as int),
    ensures
        found_ok(tree, found.insert(pr.0 as int), v.push(pr)),
{
    let v2 = v.push(pr);
    let f2 = found.insert(pr.0 as int);
    assert forall|k: int| 0 <= k < v2.len() implies f2.contains((#[trigger] v2[k]).0 as int)
        && good_pair(tree, v2[k]) by {
        if k < v.len() {
            assert(v2[k] == v[k]);
        } else {
            assert(v2[k] == pr);
        }
    }
    assert forall|c2: int| f2.contains(c2) implies exists|k: int|
        0 <= k < v2.len() && ((#[trigger] v2[k]).0 as int) == c2 by {
        if c2 == pr.0 as int {
            assert((v2[v.len() as int]).0 as int == c2);
        } else {
            let k = choose|k: int| 0 <= k < v.len() && ((#[trigger] v[k]).0 as int) == c2;
            assert((v2[k]).0 as int == c2);
        }
    }
    assert forall|k1: int, k2: int| 0 <= k1 < k2 < v2.len() implies v2[k1].0 != v2[k2].0 by {
        if k2 == v2.len() - 1 {
            assert(v2[k1] == v[k1]);
            assert(found.contains(v[k1].0 as int));
        } else {
            assert(v2[k1] == v[k1]);
            assert(v2[k2] == v[k2]);
        }
    }
}

pub(crate) proof fn lemma_remove_index(s: Seq<usize>, k: int)
    requires
        0 <= k < s.len(),
    ensures
        s.remove(k).len() == s.len() - 1,
        forall|m: int| 0 <= m < k ==> s.remove(k)[m] == s[m],
        forall|m: int| k <= m < s.len() - 1 ==> s.remove(k)[m] == s[m + 1],
{
}

/// Anchors and visited sets only ever grow; being accounted for is kept.
pub(crate) proof fn lemma_accounted_mono(
    tree: FsTree,
    a1: Set<int>,
    a2: Set<int>,
    v1: Set<int>,
    v2: Set<int>,
    found: Set<int>,
    s: Seq<usize>,
)
    requires
        a1.subset_of(a2),
        v1.subset_of(v2),
        all_accounted(tree, a1, v1, found, s),
        forall|c: int|
            v2.contains(c) && !v1.contains(c) ==> accounted(tree, a2, v2, c),
    ensures
        all_accounted(tree, a2, v2, found, s),
{
    assert forall|c: int| found.contains(c) implies accounted(tree, a2, v2, c) by {
        lemma_accounted_widen(tree, a1, a2, v1, v2, c);
    }
    assert forall|k: int| 0 <= k < s.len() implies accounted(
        tree,
        a2,
        v2,
        (#[trigger] s[k]) as int,
    ) by {
        lemma_accounted_widen(tree, a1, a2, v1, v2, s[k] as int);
    }
    assert forall|c: int| v2.contains(c) implies accounted(tree, a2, v2, c) by {
        if v1.contains(c) {
            lemma_accounted_widen(tree, a1, a2, v1, v2, c);
        }
    }
}

pub(crate) proof fn lemma_accounted_widen(
    tree: FsTree,
    a1: Set<int>,
    a2: Set<int>,
    v1: Set<int>,
    v2: Set<int>,
    c: int,
)
    requires
        a1.subset_of(a2),
        v1.subset_of(v2),
        accounted(tree, a1, v1, c),
    ensures
        accounted(tree, a2, v2, c),
{
    if !a1.contains(c) {
        let x = choose|x: int| v1.contains(x) && tree.is_child_of(x, c);
        assert(v2.contains(x) && tree.is_child_of(x, c));
    }
}

/// Recursively walks the configured roots of the modelled tree and discovers
/// all cleanable projects, using an explicit work queue of directories that
/// still have to be searched.
///
/// Returns `None` when nothing was found. Otherwise the returned pairs carry
/// each discovered project with the index of its directory: the indices are
/// exactly `spec_discovered`, without duplicates, in no particular order,
/// and each project is what classification of its directory yields.
pub fn discover_projects(tree: &FsTree, settings: &Settings) -> (r: Option<
    Vec<(usize, Project)>,
>)
    requires
        tree.wf(),
    ensures
        ({
            let goal = spec_discovered(*tree, settings.ignore);
            match r {
                None => goal == Set::<int>::empty(),
                Some(v) => {
                    &&& v@.len() > 0
                    &&& forall|k: int|
                        0 <= k < v@.len() ==> good_pair(*tree, #[trigger] v@[k]) && goal.contains(
                            v@[k].0 as int,
                        )
                    &&& forall|c: int|
                        goal.contains(c) ==> exists|k: int|
                            0 <= k < v@.len() && ((#[trigger] v@[k]).0 as int) == c
                    &&& forall|k1: int, k2: int|
                        0 <= k1 < k2 < v@.len() ==> v@[k1].0 != v@[k2].0
                },
            }
        }),
{
    let ghost ig = settings.ignore;
    let mut queue = WorkQueue::new();
    let mut discovered: Vec<(usize, Project)> = Vec::new();
    let ghost mut visited: Set<int> = Set::empty();
    let ghost mut found: Set<int> = Set::empty();
    let nroots = tree.roots.len();
    proof {
        assert(pending_reach(*tree, ig, queue.items()) == Set::<int>::empty());
        assert(found.union(pending_reach(*tree, ig, queue.items())) =~= discovered_upto(
            *tree,
            ig,
            0,
        ));
        assert(visited.subset_of(set_int_range(0, tree.nodes@.len() as int)));
    }
    // Seed: classify each configured root; a project root is collected, any
    // other root has its subdirectories queued.
    for k in 0..nroots
        invariant
            tree.wf(),
            ig == settings.ignore,
            nroots == tree.roots@.len(),
            visited.finite(),
            visited.subset_of(set_int_range(0, tree.nodes@.len() as int)),
            items_ok(*tree, queue.items(), visited),
            found_ok(*tree, found, discovered@),
            all_accounted(*tree, roots_prefix(*tree, k as int), visited, found, queue.items()),
            found.union(pending_reach(*tree, ig, queue.items())) == discovered_upto(
                *tree,
                ig,
                k as int,
            ),
    {
        let r = tree.roots[k];
        let ghost items_before = queue.items();
        let ghost found_before = found;
        let ghost prefix_next = roots_prefix(*tree, k as int + 1);
        proof {
            assert((r as int) < tree.nodes@.len());
            lemma_roots_prefix_ok(*tree, k as int + 1);
            lemma_root_fresh(*tree, visited, found, queue.items(), k as int);
            assert(roots_prefix(*tree, k as int).subset_of(prefix_next));
            assert(prefix_next.contains(r as int));
            assert(discovered_upto(*tree, ig, k as int + 1) == discovered_upto(
                *tree,
                ig,
                k as int,
            ).union(root_contrib(*tree, ig, tree.roots@[k as int] as int)));
        }
        let listing = node_listing(tree, r);
        proof {
            assert(listing.entries() == tree.entries_of(r as int));
            assert(is_project_listing(listing) == node_is_project(*tree, r as int));
        }
        match detect_cleanable_project(tree.nodes[r].path.as_str(), &listing) {
            Some(p) => {
                proof {
                    assert(node_is_project(*tree, r as int));
                    assert(listing_candidates(listing) == node_candidates(*tree, r as int));
                    assert(spec_dependency_dirs(tree.nodes@[r as int].path@, listing)
                        == node_project_deps(*tree, r as int));
                    assert(good_pair(*tree, (r, p)));
                    lemma_found_push(*tree, found, discovered@, (r, p));
                }
                discovered.push((r, p));
                proof {
                    found = found.insert(r as int);
                    lemma_accounted_mono(
                        *tree,
                        roots_prefix(*tree, k as int),
                        prefix_next,
                        visited,
                        visited,
                        found_before,
                        items_before,
                    );
                    assert(accounted(*tree, prefix_next, visited, r as int));
                    assert(root_contrib(*tree, ig, r as int) =~= Set::<int>::empty().insert(
                        r as int,
                    ));
                    assert(found.union(pending_reach(*tree, ig, queue.items()))
                        =~= discovered_upto(*tree, ig, k as int + 1));
                }
            },
            None => {
                proof {
                    assert(!node_is_project(*tree, r as int));
                    assert(root_contrib(*tree, ig, r as int) == reach_from(*tree, ig, r as int));
                    // The root was never touched, so its children are fresh.
                    lemma_accounted_mono(
                        *tree,
                        roots_prefix(*tree, k as int),
                        prefix_next,
                        visited,
                        visited,
                        found_before,
                        items_before,
                    );
                    lemma_node_fresh(
                        *tree,
                        prefix_next,
                        visited,
                        found,
                        queue.items(),
                        r as int,
                    );
                    let ghost visited_old = visited;
                    visited = visited.insert(r as int);
                    lemma_accounted_mono(
                        *tree,
                        prefix_next,
                        prefix_next,
                        visited_old,
                        visited,
                        found_before,
                        items_before,
                    );
                    assert(items_ok(*tree, queue.items(), visited)) by {
                        assert forall|kq: int| 0 <= kq < queue.items().len() implies ((
                        #[trigger] queue.items()[kq]) as int) < tree.nodes@.len()
                            && !visited.contains(queue.items()[kq] as int) by {
                            assert((queue.items()[kq] as int) != (r as int));
                        }
                    }
                    assert forall|j: int|
                        0 <= j < tree.nodes@[r as int].subdirs@.len() implies untouched(
                        *tree,
                        found,
                        queue.items(),
                        visited,
                        (#[trigger] tree.nodes@[r as int].subdirs@[j]) as int,
                    ) by {
                        assert(untouched(
                            *tree,
                            found,
                            queue.items(),
                            visited_old,
                            tree.nodes@[r as int].subdirs@[j] as int,
                        ));
                        assert((tree.nodes@[r as int].subdirs@[j] as int) > (r as int));
                    }
                }
                let res = expand_node(
                    tree,
                    settings,
                    r,
                    &mut queue,
                    &mut discovered,
                    Ghost(prefix_next),
                    Ghost(visited),
                    Ghost(found),
                );
                proof {
                    found = res@;
                    assert(found.union(pending_reach(*tree, ig, queue.items()))
                        =~= discovered_upto(*tree, ig, k as int + 1));
                }
            },
        }
    }
    let ghost anchors = roots_prefix(*tree, nroots as int);
    proof {
        lemma_roots_prefix_ok(*tree, nroots as int);
        lemma_int_range(0, tree.nodes@.len() as int);
        lemma_len_subset(visited, set_int_range(0, tree.nodes@.len() as int));
    }
    // Drain: expand queued directories until no work is left.
    loop
        invariant
            tree.wf(),
            ig == settings.ignore,
            nroots == tree.roots@.len(),
            anchors == roots_prefix(*tree, nroots as int),
            visited.finite(),
            visited.subset_of(set_int_range(0, tree.nodes@.len() as int)),
            visited.len() <= tree.nodes@.len(),
            items_ok(*tree, queue.items(), visited),
            found_ok(*tree, found, discovered@),
            all_accounted(*tree, anchors, visited, found, queue.items()),
            found.union(pending_reach(*tree, ig, queue.items())) == spec_discovered(*tree, ig),
        ensures
            found_ok(*tree, found, discovered@),
            found == spec_discovered(*tree, ig),
        decreases tree.nodes@.len() - visited.len(),
    {
        let ghost items_before = queue.items();
        let ghost found_before = found;
        match queue.pop() {
            None => {
                proof {
                    assert(pending_reach(*tree, ig, queue.items()) == Set::<int>::empty());
                    assert(found.union(Set::<int>::empty()) =~= found);
                }
                break ;
            },
            Some(iu) => {
                proof {
                    let kq = choose|kq: int|
                        0 <= kq < items_before.len() && items_before[kq] == iu && queue.items()
                            == items_before.remove(kq);
                    lemma_pending_reach_remove(*tree, ig, items_before, kq);
                    lemma_remove_index(items_before, kq);
                    assert((iu as int) < tree.nodes@.len());
                    assert(!visited.contains(iu as int));
                    assert(items_ok(*tree, queue.items(), visited)) by {
                        assert forall|m1: int, m2: int|
                            0 <= m1 < m2 < queue.items().len() implies queue.items()[m1]
                            != queue.items()[m2] by {
                            if m2 < kq {
                            } else if m1 < kq {
                                assert(queue.items()[m2] == items_before[m2 + 1]);
                            } else {
                                assert(queue.items()[m1] == items_before[m1 + 1]);
                                assert(queue.items()[m2] == items_before[m2 + 1]);
                            }
                        }
                    }
                    assert(all_accounted(*tree, anchors, visited, found, queue.items())) by {
                        assert forall|m: int| 0 <= m < queue.items().len() implies accounted(
                            *tree,
                            anchors,
                            visited,
                            (#[trigger] queue.items()[m]) as int,
                        ) by {
                            if m < kq {
                                assert(queue.items()[m] == items_before[m]);
                            } else {
                                assert(queue.items()[m] == items_before[m + 1]);
                            }
                        }
                    }
                    lemma_node_fresh(*tree, anchors, visited, found, queue.items(), iu as int);
                    let ghost visited_old = visited;
                    assert(accounted(*tree, anchors, visited_old, items_before[kq] as int));
                    visited = visited.insert(iu as int);
                    lemma_accounted_widen(*tree, anchors, anchors, visited_old, visited, iu as int);
                    lemma_accounted_mono(
                        *tree,
                        anchors,
                        anchors,
                        visited_old,
                        visited,
                        found,
                        queue.items(),
                    );
                    lemma_int_range(0, tree.nodes@.len() as int);
                    lemma_len_subset(visited, set_int_range(0, tree.nodes@.len() as int));
                    assert(items_ok(*tree, queue.items(), visited)) by {
                        assert forall|m: int| 0 <= m < queue.items().len() implies ((
                        #[trigger] queue.items()[m]) as int) < tree.nodes@.len()
                            && !visited.contains(queue.items()[m] as int) by {
                            if m < kq {
                                assert(queue.items()[m] == items_before[m]);
                            } else {
                                assert(queue.items()[m] == items_before[m + 1]);
                            }
                            assert(queue.items()[m] != iu);
                        }
                    }
                    assert forall|j: int|
                        0 <= j < tree.nodes@[iu as int].subdirs@.len() implies untouched(
                        *tree,
                        found,
                        queue.items(),
                        visited,
                        (#[trigger] tree.nodes@[iu as int].subdirs@[j]) as int,
                    ) by {
                        assert(untouched(
                            *tree,
                            found,
                            queue.items(),
                            visited_old,
                            tree.nodes@[iu as int].subdirs@[j] as int,
                        ));
                        assert((tree.nodes@[iu as int].subdirs@[j] as int) > (iu as int));
                    }
                }
                let res = expand_node(
                    tree,
                    settings,
                    iu,
                    &mut queue,
                    &mut discovered,
                    Ghost(anchors),
                    Ghost(visited),
                    Ghost(found),
                );
                proof {
                    found = res@;
                    assert(found.union(pending_reach(*tree, ig, queue.items()))
                        =~= spec_discovered(*tree, ig));
                }
            },
        }
    }
    if discovered.len() == 0 {
        proof {
            assert forall|c: int| !spec_discovered(*tree, ig).contains(c) by {
                if spec_discovered(*tree, ig).contains(c) {
                    assert(found.contains(c));
                }
            }
            assert(spec_discovered(*tree, ig) =~= Set::<int>::empty());
        }
        None
    } else {
        Some(discovered)
    }
}

} // verus!
