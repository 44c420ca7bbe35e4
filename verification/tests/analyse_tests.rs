use project_cleanup::analyse::{analyse_projects, filter_by_modified_date, STALE_THRESHOLD_SECS};
use project_cleanup::detect::detect_cleanable_project;
use project_cleanup::fs_model::{DirListing, DirNode, FileEntry, FsTree};
use project_cleanup::project::Project;
use project_cleanup::settings::Settings;

const DAY: u64 = 86400;

fn file(name: &str, age_secs: u64) -> FileEntry {
    FileEntry { name: name.to_string(), age_secs: Some(age_secs) }
}

fn dir(name: &str, path: &str, files: Vec<FileEntry>, subdirs: Vec<usize>) -> DirNode {
    DirNode {
        name: name.to_string(),
        path: path.to_string(),
        files,
        subdirs,
        override_text: None,
    }
}

fn settings(all: bool) -> Settings {
    Settings { paths: vec![], all, ignore: None, force: false }
}

/// Classifies node 0 of the tree as a project, so the tests work with the
/// same dependency directories that discovery would record.
fn project_at_root(tree: &FsTree) -> Project {
    let node = &tree.nodes[0];
    let listing = DirListing {
        is_dir: true,
        files: node.files.iter().map(|f| f.name.clone()).collect(),
        dirs: node.subdirs.iter().map(|c| tree.nodes[*c].name.clone()).collect(),
        override_text: None,
    };
    detect_cleanable_project(&node.path, &listing).expect("no project at root")
}

fn rust_project_tree(src_age: u64, target_age: u64) -> FsTree {
    FsTree {
        nodes: vec![
            dir("proj", "/p", vec![file("Cargo.toml", 90 * DAY)], vec![1, 2]),
            dir("target", "/p/target", vec![file("debug.bin", target_age)], vec![]),
            dir("src", "/p/src", vec![file("main.rs", src_age)], vec![]),
        ],
        roots: vec![0],
    }
}

fn partition_single(tree: &FsTree) -> (usize, usize) {
    let project = project_at_root(tree);
    let (stale, recent) = filter_by_modified_date(tree, vec![(0, project)]);
    (stale.len(), recent.len())
}

#[test]
fn old_project_is_stale() {
    // Every file is more than 30 days old.
    let tree = rust_project_tree(45 * DAY, 60 * DAY);
    assert_eq!(partition_single(&tree), (1, 0));
}

#[test]
fn recently_modified_project_is_recent() {
    // One file was modified within the last 30 days.
    let tree = rust_project_tree(3 * DAY, 60 * DAY);
    assert_eq!(partition_single(&tree), (0, 1));
}

#[test]
fn dependency_dir_age_does_not_matter() {
    // The dependency directory holds the only recent files, but it is
    // excluded, so the project is stale anyway.
    let tree = rust_project_tree(45 * DAY, 1 * DAY);
    assert_eq!(partition_single(&tree), (1, 0));
}

#[test]
fn bookkeeping_dirs_are_excluded() {
    let tree = FsTree {
        nodes: vec![
            dir("proj", "/p", vec![file("Cargo.toml", 90 * DAY)], vec![1]),
            dir(".git", "/p/.git", vec![file("HEAD", 0)], vec![]),
        ],
        roots: vec![0],
    };
    assert_eq!(partition_single(&tree), (1, 0));
}

#[test]
fn empty_project_is_recent() {
    // A project in whose tree no file was seen counts as just modified.
    let tree = FsTree {
        nodes: vec![dir("proj", "/p", vec![], vec![])],
        roots: vec![0],
    };
    let mut project = Project::new("/p");
    let existing: Vec<String> = vec![];
    project.add_cleanable_dir_if_exists("target", &existing);
    let (stale, recent) = filter_by_modified_date(&tree, vec![(0, project)]);
    assert_eq!((stale.len(), recent.len()), (0, 1));
}

#[test]
fn threshold_is_thirty_days() {
    assert_eq!(STALE_THRESHOLD_SECS, 30 * DAY);
    let just_over = rust_project_tree(STALE_THRESHOLD_SECS + 1, STALE_THRESHOLD_SECS + 1);
    assert_eq!(partition_single(&just_over), (1, 0));
    let exactly = rust_project_tree(STALE_THRESHOLD_SECS, STALE_THRESHOLD_SECS);
    assert_eq!(partition_single(&exactly), (0, 1));
}

#[test]
fn unreadable_metadata_is_skipped() {
    let tree = FsTree {
        nodes: vec![dir(
            "proj",
            "/p",
            vec![
                file("Cargo.toml", 90 * DAY),
                FileEntry { name: "odd".to_string(), age_secs: None },
            ],
            vec![],
        )],
        roots: vec![0],
    };
    assert_eq!(partition_single(&tree), (1, 0));
}

#[test]
fn all_flag_skips_filtering() {
    let tree = rust_project_tree(1 * DAY, 1 * DAY);
    let project = project_at_root(&tree);
    let dirs = analyse_projects(&tree, vec![(0, project)], &settings(true));
    assert_eq!(dirs, vec!["/p/target"]);
    let project = project_at_root(&tree);
    let dirs = analyse_projects(&tree, vec![(0, project)], &settings(false));
    assert!(dirs.is_empty());
}

#[test]
fn deletion_list_is_sorted() {
    let tree = FsTree {
        nodes: vec![
            dir(
                "proj",
                "/p",
                vec![file("package.json", 90 * DAY)],
                vec![1, 2, 3],
            ),
            dir("node_modules", "/p/node_modules", vec![], vec![]),
            dir(".cache", "/p/.cache", vec![], vec![]),
            dir("build", "/p/build", vec![], vec![]),
        ],
        roots: vec![0],
    };
    let project = project_at_root(&tree);
    let dirs = analyse_projects(&tree, vec![(0, project)], &settings(true));
    assert_eq!(dirs, vec!["/p/.cache", "/p/build", "/p/node_modules"]);
}
