//! Paths as texts.

use crap4rust::path::{
    components_of, is_named, is_named_in, join, join_in, parent_in, parent_of, parts_of,
    workspace_relative, workspace_relative_in, Component, Style,
};
use std::path::{Component as Part, Path};

fn parts(path: &str) -> Vec<Component> {
    Path::new(path)
        .components()
        .map(|part| match part {
            Part::RootDir => Component::Root,
            Part::CurDir => Component::Current,
            Part::ParentDir => Component::Parent,
            Part::Normal(name) => Component::Normal(name.to_string_lossy().into_owned()),
            Part::Prefix(_) => unreachable!("no prefix on this system"),
        })
        .collect()
}

const PATHS: [&str; 14] = [
    "",
    "/",
    "a",
    "/a",
    "a/b",
    "a//b/",
    "./a",
    "a/./b",
    "../a",
    "a/..",
    "/a/../b",
    "//a",
    ".",
    "a/.",
];

#[test]
fn components_are_those_of_the_standard_library() {
    for path in PATHS {
        assert_eq!(components_of(path), parts(path), "{path:?}");
    }
}

#[test]
fn joining_is_that_of_the_standard_library() {
    for base in PATHS {
        for path in PATHS {
            assert_eq!(
                join(base, path),
                Path::new(base).join(path).to_string_lossy(),
                "{base:?} {path:?}"
            );
        }
    }
}

#[test]
fn the_directory_of_a_bare_name_is_the_current_one() {
    assert_eq!(parent_of("lib.rs"), ".");
    assert_eq!(parent_of("/w/src/lib.rs"), "/w/src");
    assert_eq!(parent_of("src/../src/lib.rs"), "src/../src");
}

#[test]
fn a_file_is_named_by_its_last_component() {
    assert!(is_named("/w/src/foo/mod.rs", "mod.rs"));
    assert!(!is_named("/w/src/foo_mod.rs", "mod.rs"));
    assert!(!is_named("/w/mod.rs/..", "mod.rs"));
}

#[test]
fn a_path_below_the_root_is_what_is_left_of_it() {
    assert_eq!(workspace_relative("/w", "/w/src/lib.rs"), "src/lib.rs");
    assert_eq!(workspace_relative("/", "/src/lib.rs"), "src/lib.rs");
    assert_eq!(workspace_relative("/w", "/w/src/../src/lib.rs"), "src/../src/lib.rs");
}

/// A path with every `..` undone.
fn settled(path: &str) -> String {
    let mut names: Vec<String> = Vec::new();
    for component in components_of(path) {
        match component {
            Component::Normal(name) => names.push(name),
            Component::Parent => {
                names.pop();
            }
            _ => {}
        }
    }
    format!("/{}", names.join("/"))
}

#[test]
fn what_a_file_is_known_by_leads_to_it() {
    for (root, file, known) in [
        ("/w", "/w/src/lib.rs", "src/lib.rs"),
        ("/w/a/b", "/w/c/d.rs", "../../c/d.rs"),
        ("/w/", "/x.rs", "../x.rs"),
        ("/", "/x/y.rs", "x/y.rs"),
        ("/w/a", "/w", ".."),
        ("/w", "/w", ""),
    ] {
        assert_eq!(workspace_relative(root, file), known);
        assert_eq!(settled(&join(root, known)), file);
    }
}

#[test]
fn a_windows_path_may_start_with_a_drive_or_a_share() {
    let name = |text: &str| Component::Normal(text.to_string());
    assert_eq!(
        parts_of(Style::Windows, r"c:\w\.\x"),
        vec![Component::Drive('C'), Component::Root, name("w"), name("x")]
    );
    assert_eq!(
        parts_of(Style::Windows, r"C:w\.."),
        vec![Component::Drive('C'), name("w"), Component::Parent]
    );
    assert_eq!(
        parts_of(Style::Windows, r"\\host\disk\w"),
        vec![
            Component::Share("host".to_string(), "disk".to_string()),
            Component::Root,
            name("w")
        ]
    );
    assert_eq!(
        parts_of(Style::Windows, r"\w"),
        vec![Component::Root, name("w")]
    );
    assert_eq!(
        parts_of(Style::Unix, r"c:\w/x"),
        vec![name(r"c:\w"), name("x")]
    );
}

#[test]
fn a_drive_or_a_share_is_never_known() {
    let known = |root, file| workspace_relative_in(Style::Windows, root, file);
    assert_eq!(known("C:/w", "D:/o"), "o");
    assert_eq!(known(r"C:\w", r"c:\x\y.rs"), "../x/y.rs");
    assert_eq!(known(r"C:\w", r"\\host\disk\a\b.rs"), "a/b.rs");
    assert_eq!(known(r"\\host\disk\w", r"\\host\disk\a\b.rs"), "../a/b.rs");
    assert_eq!(known(r"\\host\disk\w", r"\\host\other\a\b.rs"), "a/b.rs");
    assert_eq!(
        workspace_relative_in(Style::Unix, "/w", "/x/y.rs"),
        workspace_relative("/w", "/x/y.rs")
    );
}

#[test]
fn a_windows_path_behind_a_base() {
    let behind = |base, path| join_in(Style::Windows, base, path);
    assert_eq!(behind(r"C:\w", r"a\b.rs"), "C:/w/a/b.rs");
    assert_eq!(behind("C:/w", "D:/b.rs"), "D:/b.rs");
    assert_eq!(behind("C:/w", r"\b.rs"), "C:/b.rs");
    assert_eq!(behind("//host/disk/w", "/b.rs"), "//host/disk/b.rs");
    assert_eq!(behind("C:/w", r"\\host\disk\b.rs"), "//host/disk/b.rs");
    assert_eq!(behind("C:", "b.rs"), "C:b.rs");
    assert_eq!(join_in(Style::Unix, "/w", r"a\b.rs"), r"/w/a\b.rs");
}

#[test]
fn the_drive_stays_with_the_directory() {
    assert_eq!(parent_in(Style::Windows, r"C:\w\lib.rs"), "C:/w");
    assert_eq!(parent_in(Style::Windows, r"C:\lib.rs"), "C:/");
    assert_eq!(parent_in(Style::Windows, "C:lib.rs"), "C:");
    assert_eq!(parent_in(Style::Windows, "lib.rs"), ".");
    assert_eq!(parent_in(Style::Unix, r"/w/lib.rs"), "/w");
    assert!(is_named_in(Style::Windows, "C:mod.rs", "mod.rs"));
    assert!(is_named_in(Style::Windows, r"a\mod.rs", "mod.rs"));
    assert!(!is_named_in(Style::Unix, r"a\mod.rs", "mod.rs"));
}
