//! The definition of a project language: its name and the subdirectories
//! that should be removed from a project of that language.

use vstd::prelude::*;
use vstd::string::*;
use crate::text::{seq_contains_string, vec_contains_str};

verus! {

/// The definition for a project language.
pub struct Language {
    /// Name of the language.
    pub name: &'static str,
    /// Names of the subdirectories that can be removed from a project.
    pub paths: Vec<&'static str>,
}

impl Language {
    /// Gets the name of the language.
    pub fn name(&self) -> (r: &'static str)
        ensures
            r@ == self.name@,
    {
        self.name
    }

    /// Gets the paths that should be removed from a project of this language.
    pub fn get_paths(&self) -> (r: &Vec<&'static str>)
        ensures
            r.deep_view() == self.paths.deep_view(),
    {
        &self.paths
    }
}

/// The name and cleanable paths of the language identified by `entries`:
/// Node.js for `package.json`, Rust for `Cargo.toml`, Java for `pom.xml` or
/// `gradlew`, in that order of precedence.
pub open spec fn identify_spec(entries: Seq<Seq<char>>) -> Option<(Seq<char>, Seq<Seq<char>>)> {
    if seq_contains_string(entries, "package.json"@) {
        Some(("Node.js"@, seq!["node_modules"@, ".cache"@]))
    } else if seq_contains_string(entries, "Cargo.toml"@) {
        Some(("Rust"@, seq!["target"@]))
    } else if seq_contains_string(entries, "pom.xml"@) || seq_contains_string(
        entries,
        "gradlew"@,
    ) {
        Some(("Java"@, seq!["build"@, ".gradle"@]))
    } else {
        None
    }
}

/// Inspects the entry names of a directory and determines whether it is a
/// code project of a known language.
pub fn identify(entries: &Vec<String>) -> (r: Option<Language>)
    ensures
        match r {
            None => identify_spec(entries.deep_view()) is None,
            Some(l) => identify_spec(entries.deep_view()) == Some((l.name@, l.paths.deep_view())),
        },
{
    if vec_contains_str(entries, "package.json") {
        let mut paths: Vec<&'static str> = Vec::new();
        paths.push("node_modules");
        paths.push(".cache");
        let l = Language { name: "Node.js", paths };
        proof {
            assert(l.paths.deep_view() =~= seq!["node_modules"@, ".cache"@]);
        }
        return Some(l);
    }
    if vec_contains_str(entries, "Cargo.toml") {
        let mut paths: Vec<&'static str> = Vec::new();
        paths.push("target");
        let l = Language { name: "Rust", paths };
        proof {
            assert(l.paths.deep_view() =~= seq!["target"@]);
        }
        return Some(l);
    }
    if vec_contains_str(entries, "pom.xml") || vec_contains_str(entries, "gradlew") {
        let mut paths: Vec<&'static str> = Vec::new();
        paths.push("build");
        paths.push(".gradle");
        let l = Language { name: "Java", paths };
        proof {
            assert(l.paths.deep_view() =~= seq!["build"@, ".gradle"@]);
        }
        return Some(l);
    }
    None
}

} // verus!
