use project_cleanup::analyse::{analyse_projects, filter_by_modified_date};
use project_cleanup::discover::discover_projects;
use project_cleanup::fs_model::{DirNode, FileEntry, FsTree};
use project_cleanup::project::Project;
use project_cleanup::settings::Settings;
use regex::Regex;

const DAY: u64 = 86400;

fn file(name: &str, age_secs: u64) -> FileEntry {
    FileEntry { name: name.to_string(), age_secs: Some(age_secs) }
}

fn dir(name: &str, path: &str, files: Vec<FileEntry>, subdirs: Vec<usize>) -> DirNode {
    DirNode {
        name: name.to_string(),
        path: path.to_string(),
        files,
        subdirs,
        override_text: None,
    }
}

fn settings(ignore: Option<Regex>, all: bool) -> Settings {
    Settings { paths: vec!["/root".to_string()], all, ignore, force: false }
}

/// Two projects under one root: `proj-a` is a Rust project with an old
/// `target` but a recently touched source file; `proj-b` is a Node.js
/// project untouched for 90 days.
fn sample_tree() -> FsTree {
    FsTree {
        nodes: vec![
            dir("root", "/root", vec![], vec![1, 4]),
            dir(
                "proj-a",
                "/root/proj-a",
                vec![file("Cargo.toml", 90 * DAY)],
                vec![2, 3],
            ),
            dir("target", "/root/proj-a/target", vec![file("debug.bin", 60 * DAY)], vec![]),
            dir("src", "/root/proj-a/src", vec![file("main.rs", 3 * DAY)], vec![]),
            dir(
                "proj-b",
                "/root/proj-b",
                vec![file("package.json", 90 * DAY)],
                vec![5],
            ),
            dir(
                "node_modules",
                "/root/proj-b/node_modules",
                vec![file("lib.js", 90 * DAY)],
                vec![],
            ),
        ],
        roots: vec![0],
    }
}

fn summarise(found: Vec<(usize, Project)>) -> Vec<(usize, String, Vec<String>)> {
    let mut out: Vec<(usize, String, Vec<String>)> = found
        .into_iter()
        .map(|(i, p)| {
            let root = p.root().to_string();
            (i, root, p.into_cleanable_dirs())
        })
        .collect();
    out.sort();
    out
}

#[test]
fn sample_scenario() {
    let tree = sample_tree();
    let s = settings(None, false);

    let found = discover_projects(&tree, &s).expect("no projects found");
    assert_eq!(found.len(), 2);

    let delete_dirs = analyse_projects(&tree, found, &s);
    assert_eq!(delete_dirs, vec!["/root/proj-b/node_modules"]);
}

#[test]
fn sample_scenario_partition() {
    let tree = sample_tree();
    let s = settings(None, false);

    let found = discover_projects(&tree, &s).expect("no projects found");
    let (stale, recent) = filter_by_modified_date(&tree, found);
    let stale = summarise(stale);
    let recent = summarise(recent);
    assert_eq!(stale.len(), 1);
    assert_eq!(recent.len(), 1);
    assert_eq!(stale[0].1, "/root/proj-b");
    assert_eq!(stale[0].2, vec!["/root/proj-b/node_modules"]);
    assert_eq!(recent[0].1, "/root/proj-a");
    assert_eq!(recent[0].2, vec!["/root/proj-a/target"]);
}

#[test]
fn discover_twice_same_set() {
    let tree = sample_tree();
    let s = settings(None, false);

    let first = summarise(discover_projects(&tree, &s).expect("no projects found"));
    let second = summarise(discover_projects(&tree, &s).expect("no projects found"));
    assert_eq!(first, second);
}

#[test]
fn discover_respects_ignore() {
    let tree = sample_tree();
    let s = settings(Some(Regex::new("proj-b").unwrap()), false);

    let found = summarise(discover_projects(&tree, &s).expect("no projects found"));
    assert_eq!(found.len(), 1);
    assert_eq!(found[0].1, "/root/proj-a");
}

#[test]
fn discover_does_not_descend_into_projects() {
    // A Node.js project nested inside another project's tree is not found.
    let tree = FsTree {
        nodes: vec![
            dir("root", "/r", vec![], vec![1]),
            dir("outer", "/r/outer", vec![file("Cargo.toml", 0)], vec![2]),
            dir("inner", "/r/outer/inner", vec![file("package.json", 0)], vec![]),
        ],
        roots: vec![0],
    };
    let s = settings(None, false);
    let found = summarise(discover_projects(&tree, &s).expect("no projects found"));
    assert_eq!(found.len(), 1);
    assert_eq!(found[0].1, "/r/outer");
}

#[test]
fn discover_nothing() {
    let tree = FsTree {
        nodes: vec![
            dir("root", "/r", vec![file("readme.md", 0)], vec![1]),
            dir("sub", "/r/sub", vec![], vec![]),
        ],
        roots: vec![0],
    };
    let s = settings(None, false);
    assert!(discover_projects(&tree, &s).is_none());
}

#[test]
fn root_itself_a_project() {
    let tree = FsTree {
        nodes: vec![dir("proj", "/p", vec![file("Cargo.toml", 0)], vec![1]),
            dir("target", "/p/target", vec![], vec![])],
        roots: vec![0],
    };
    let s = settings(None, false);
    let found = summarise(discover_projects(&tree, &s).expect("no projects found"));
    assert_eq!(found, vec![(0, "/p".to_string(), vec!["/p/target".to_string()])]);
}
