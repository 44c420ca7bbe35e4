use project_cleanup::languages::identify;
use project_cleanup::out::{plural, shorten, Progress};
use project_cleanup::time_ago::{time_ago, u64_to_string};

#[test]
fn time_ago_minutes_seconds() {
    assert_eq!(time_ago(75), "1m 15s ago");
    assert_eq!(time_ago(0), "0m 0s ago");
    assert_eq!(time_ago(3700), "1m 40s ago");
}

#[test]
fn time_ago_hours() {
    assert_eq!(time_ago(3 * 3600 + 5 * 60 + 9), "3h 5m ago");
}

#[test]
fn time_ago_days() {
    assert_eq!(time_ago(2 * 86400), "2d ago");
    assert_eq!(time_ago(31 * 86400), "31d ago");
}

#[test]
fn time_ago_coarse() {
    assert_eq!(time_ago(32 * 86400), "More than a month ago");
    assert_eq!(time_ago(366 * 86400), "More than a year ago");
}

#[test]
fn decimal_rendering() {
    assert_eq!(u64_to_string(0), "0");
    assert_eq!(u64_to_string(365), "365");
    assert_eq!(u64_to_string(1000), "1000");
}

#[test]
fn shorten_keeps_short_messages() {
    assert_eq!(shorten("short".to_string(), 20), "short");
}

#[test]
fn shorten_cuts_the_middle() {
    assert_eq!(
        shorten("abcdefghijklmnopqrstuvwxyz".to_string(), 12),
        "abc...uvwxyz"
    );
}

#[test]
fn progress_steps_are_clamped() {
    let mut p = Progress::new(2, "Search");
    assert_eq!(p.step(), 1);
    assert_eq!(p.step(), 2);
    assert_eq!(p.step(), 2);
    p.progress(99);
    p.status("OK");
}

#[test]
fn progress_total_is_at_least_one() {
    let mut p = Progress::new(0, "x");
    assert_eq!(p.step(), 1);
    assert_eq!(p.step(), 1);
}

#[test]
fn plural_picks_by_count() {
    assert_eq!(plural(1, "project", "projects"), "project");
    assert_eq!(plural(2, "project", "projects"), "projects");
    assert_eq!(plural(0, "project", "projects"), "projects");
}

#[test]
fn identify_languages() {
    let entries = |names: &[&str]| -> Vec<String> {
        names.iter().map(|s| s.to_string()).collect()
    };
    let node = identify(&entries(&["package.json", "Cargo.toml"])).unwrap();
    assert_eq!(node.name(), "Node.js");
    assert_eq!(node.get_paths(), &vec!["node_modules", ".cache"]);
    let rust = identify(&entries(&["Cargo.toml"])).unwrap();
    assert_eq!(rust.name(), "Rust");
    assert_eq!(rust.get_paths(), &vec!["target"]);
    let java = identify(&entries(&["gradlew"])).unwrap();
    assert_eq!(java.name(), "Java");
    assert_eq!(java.get_paths(), &vec!["build", ".gradle"]);
    assert!(identify(&entries(&["readme.md"])).is_none());
}
