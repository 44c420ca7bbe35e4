use project_cleanup::overrides::{parse_cleanuprc, parse_swpfile};

const FILE_CONTENTS: &str = "
\t\t\t# comment

\t\t\ttarget
\t\t\ttest-directory/

\t\t\tduplicate
\t\t\tduplicate
\t\t\t";

#[test]
fn cleanuprc_empty_file() {
    let dirs = parse_cleanuprc("");
    assert_eq!(dirs.len(), 0);
}

#[test]
fn cleanuprc() {
    let dirs = parse_cleanuprc(FILE_CONTENTS);
    assert_eq!(dirs.len(), 3);
}

#[test]
fn swpfile_empty_file() {
    let dirs = parse_swpfile("");
    assert_eq!(dirs.len(), 0);
}

#[test]
fn swpfile() {
    let dirs = parse_swpfile(FILE_CONTENTS);
    assert_eq!(dirs.len(), 3);
}

#[test]
fn swpfile_cleanuprc() {
    let dirs = parse_swpfile("target");
    assert_eq!(dirs.len(), 1);
}

#[test]
fn swpfile_entries() {
    let dirs = parse_swpfile(FILE_CONTENTS);
    assert_eq!(dirs, vec!["target", "test-directory/", "duplicate"]);
}

#[test]
fn swpfile_comments_and_blanks() {
    assert_eq!(parse_swpfile("# only a comment\n\n   \n").len(), 0);
    assert_eq!(parse_swpfile("a\n#b\nc"), vec!["a", "c"]);
    assert_eq!(parse_swpfile("  spaced  "), vec!["spaced"]);
}
