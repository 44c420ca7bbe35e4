use project_cleanup::detect::{detect_cleanable_project, identify_cleanable_project};
use project_cleanup::fs_model::DirListing;
use project_cleanup::project::Project;

fn listing(files: &[&str], dirs: &[&str], override_text: Option<&str>) -> DirListing {
    DirListing {
        is_dir: true,
        files: files.iter().map(|s| s.to_string()).collect(),
        dirs: dirs.iter().map(|s| s.to_string()).collect(),
        override_text: override_text.map(|s| s.to_string()),
    }
}

fn check_project(dir: &str, files: &[&str], dirs: &[&str], cleanable: &[&str]) {
    let l = listing(files, dirs, None);
    let project: Project = detect_cleanable_project(dir, &l).expect("No project detected");
    for c in cleanable {
        assert!(project.is_cleanable_dir(&format!("{}/{}", dir, c)));
    }
    assert_eq!(project.into_cleanable_dirs().len(), cleanable.len());
}

#[test]
fn rust() {
    check_project("proj", &["Cargo.toml"], &["src"], &[]);
    check_project("proj", &["Cargo.toml"], &["src", "target"], &["target"]);
}

#[test]
fn nodejs() {
    check_project("proj", &["package.json"], &["src"], &[]);
    check_project(
        "proj",
        &["package.json"],
        &["src", "node_modules", ".cache", ".idea", "build", "dist"],
        &["node_modules", ".cache", "build", "dist"],
    );
}

#[test]
fn java() {
    check_project("proj", &["pom.xml"], &["src"], &[]);
    check_project("proj", &["pom.xml"], &["src", "build"], &["build"]);
    check_project(
        "proj",
        &["pom.xml"],
        &["src", ".gradle", "build", "spec"],
        &[".gradle", "build"],
    );
}

#[test]
fn empty_dir() {
    let l = listing(&[], &[], None);
    assert!(
        detect_cleanable_project("proj", &l).is_none(),
        "Project detected in empty directory"
    );
}

#[test]
fn no_project() {
    let l = listing(
        &["no_project_here.txt"],
        &["not_a_project", "another_test_directory"],
        None,
    );
    assert!(
        detect_cleanable_project("proj", &l).is_none(),
        "Project detected in unrelated directory"
    );
}

#[test]
fn not_a_directory() {
    let mut l = listing(&["Cargo.toml"], &["target"], None);
    l.is_dir = false;
    assert!(detect_cleanable_project("proj", &l).is_none());
}

#[test]
fn polyglot_marker_lists_combine() {
    // Both marker tables apply; `target` and `build` are added once each.
    let project = detect_cleanable_project(
        "p",
        &listing(
            &["Cargo.toml", "pom.xml"],
            &["target", ".gradle", "build"],
            None,
        ),
    )
    .expect("No project detected");
    let dirs = project.into_cleanable_dirs();
    assert_eq!(dirs, vec!["p/target", "p/.gradle", "p/build"]);
}

#[test]
fn override_file_replaces_table() {
    // With an override file the built-in candidates do not apply.
    let project = detect_cleanable_project(
        "p",
        &listing(
            &["Cargo.toml", ".swpfile"],
            &["target", "vendor", "docs"],
            Some("# cleanable\nvendor\ndocs\n"),
        ),
    )
    .expect("No project detected");
    let dirs = project.into_cleanable_dirs();
    assert_eq!(dirs, vec!["p/vendor", "p/docs"]);
}

#[test]
fn override_file_alone_makes_project() {
    let project = detect_cleanable_project(
        "p",
        &listing(&[".cleanuprc"], &["stuff"], Some("stuff\nmissing\n")),
    )
    .expect("No project detected");
    assert_eq!(project.into_cleanable_dirs(), vec!["p/stuff"]);
}

#[test]
fn classic_table() {
    let project = identify_cleanable_project(
        "p",
        &listing(
            &["package.json"],
            &["node_modules", ".cache", "build", "dist"],
            None,
        ),
    )
    .expect("No project detected");
    // The classic Node.js table has only node_modules and .cache.
    assert_eq!(project.into_cleanable_dirs(), vec!["p/node_modules", "p/.cache"]);
}

#[test]
fn project_accessors() {
    let mut project = Project::new("root");
    assert_eq!(project.root(), "root");
    let dirs: Vec<String> = vec!["target".to_string()];
    project.add_cleanable_dir_if_exists("target", &dirs);
    project.add_cleanable_dir_if_exists("target", &dirs);
    project.add_cleanable_dir_if_exists("missing", &dirs);
    assert!(project.is_cleanable_dir("root/target"));
    assert!(!project.is_cleanable_dir("root/missing"));
    assert_eq!(project.into_cleanable_dirs(), vec!["root/target"]);
}
