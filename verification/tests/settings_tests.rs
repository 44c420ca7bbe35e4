use project_cleanup::ignore::is_ignored;
use project_cleanup::settings::Settings;
use regex::Regex;

#[test]
fn ignore_flag() {
    let settings = Settings {
        paths: vec![],
        all: false,
        ignore: Some(Regex::new("src").unwrap()),
        force: false,
    };

    assert_eq!(settings.is_path_ignored("./src"), true);
    assert_eq!(settings.is_path_ignored("./foo"), false);
}

#[test]
fn no_pattern_ignores_nothing() {
    assert_eq!(is_ignored(&None, "anything/at/all"), false);
    assert_eq!(is_ignored(&None, ""), false);
}

#[test]
fn empty_path_never_ignored() {
    let re = Some(Regex::new(".*").unwrap());
    assert_eq!(is_ignored(&re, ""), false);
    assert_eq!(is_ignored(&re, "x"), true);
}

#[test]
fn pattern_matches_anywhere() {
    let re = Some(Regex::new("node_mod").unwrap());
    assert_eq!(is_ignored(&re, "/home/me/node_modules"), true);
    assert_eq!(is_ignored(&re, "/home/me/source"), false);
}
