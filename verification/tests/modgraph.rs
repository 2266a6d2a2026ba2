//! The walk over the files of a workspace, on trees that are held in memory.

use crap4rust::diagnostic::Diagnostic;
use crap4rust::modgraph::{module_source, ModuleSource, Walker};
use crap4rust::path::{workspace_relative, Style};
use crap4rust::syntax::{parse_source, Clause, Definition, Head};
use crap4rust::workspace::{crate_roots, Metadata, Package, Target};
use std::collections::BTreeMap;
use std::path::Path;

/// A source tree below `/w`.
struct Tree {
    files: BTreeMap<String, String>,
}

/// What a walk came to.
struct Walked {
    /// The module and the path of each file, in the order of the walk.
    files: Vec<(String, String)>,
    /// Which of them are compiled for tests only.
    test_only: Vec<bool>,
    /// How many items each has.
    items: Vec<usize>,
    /// What was said.
    diagnostics: Vec<Diagnostic>,
    /// How many files were parsed.
    parses: usize,
}

/// The one spelling of a path without `.` and `..`.
fn identity(path: &str) -> String {
    let mut segments: Vec<&str> = Vec::new();
    for segment in path.split('/') {
        match segment {
            "" | "." => {}
            ".." => {
                segments.pop();
            }
            _ => segments.push(segment),
        }
    }
    format!("/{}", segments.join("/"))
}

impl Tree {
    fn new() -> Self {
        Tree {
            files: BTreeMap::new(),
        }
    }

    fn write(&mut self, relative: &str, contents: &str) -> &mut Self {
        self.files
            .insert(format!("/w/{relative}"), contents.to_string());
        self
    }

    /// Walks crates, each given by its root and its name, one after the other.
    fn walk_all(&self, roots: &[(String, String)]) -> Walked {
        let mut walker = Walker::new(Style::Unix, "/w");
        let mut walked = Walked {
            files: Vec::new(),
            test_only: Vec::new(),
            items: Vec::new(),
            diagnostics: Vec::new(),
            parses: 0,
        };
        for (root, name) in roots {
            walker.begin(root, name);
            while let Some(file) = walker.next() {
                let identity = identity(file);
                if !walker.enter(&identity) {
                    continue;
                }
                let source = self.files.get(&identity).expect("the file is there");
                let file = parse_source(source).expect("the file parses");
                walked.parses += 1;
                let present: Vec<String> = walker
                    .probes(&file)
                    .into_iter()
                    .filter(|path| self.has(path))
                    .collect();
                let module = walker.visit(&file, &present, &mut walked.diagnostics);
                walked.items.push(file.nodes.len());
                walked.test_only.push(module.test_only);
                walked
                    .files
                    .push((module.module, workspace_relative("/w", &module.file)));
            }
        }
        walked
    }

    fn has(&self, path: &str) -> bool {
        self.files.contains_key(&identity(path))
    }

    /// Walks the crate `name` rooted at `root`.
    fn walk(&self, name: &str, root: &str) -> (Vec<(String, String)>, Vec<Diagnostic>) {
        let walked = self.walk_all(&[(format!("/w/{root}"), name.to_string())]);
        (walked.files, walked.diagnostics)
    }

    /// Walks the crate of a target, and lists the files by path.
    fn list(&self, name: &str, root: &str) -> (Vec<(String, String)>, Vec<String>) {
        let target = target(name, "lib", &format!("/w/{root}"));
        let (mut files, diagnostics) = self.walk(&target.crate_ident(), root);
        files.sort_by(|a, b| Path::new(&a.1).cmp(Path::new(&b.1)));
        (files, rendered(&diagnostics))
    }

    /// Walks the targets of packages, given as `(package, target, root)`.
    fn enumerate(&self, targets: &[(&str, &str, &str)]) -> (Vec<(String, String)>, Vec<Diagnostic>) {
        let packages = targets
            .iter()
            .map(|(package, name, root)| Package {
                name: package.to_string(),
                targets: vec![target(name, "lib", &format!("/w/{root}"))],
            })
            .collect();
        let metadata = Metadata {
            workspace_root: "/w".to_string(),
            packages,
        };
        let roots: Vec<(String, String)> = crate_roots(&metadata)
            .into_iter()
            .map(|root| (root.src_path, root.crate_ident))
            .collect();
        let walked = self.walk_all(&roots);
        (walked.files, walked.diagnostics)
    }
}

fn target(name: &str, kind: &str, src_path: &str) -> Target {
    Target {
        name: name.to_string(),
        kind: vec![kind.to_string()],
        src_path: src_path.to_string(),
    }
}

fn modules(files: &[(String, String)]) -> Vec<&str> {
    files.iter().map(|(module, _)| module.as_str()).collect()
}

fn rendered(diagnostics: &[Diagnostic]) -> Vec<String> {
    diagnostics.iter().map(Diagnostic::to_string).collect()
}

/// The attributes of the first module that a source declares.
fn attrs(source: &str) -> Vec<Clause> {
    parse_source(source)
        .expect("parse")
        .nodes
        .into_iter()
        .find_map(|node| match node.head {
            Head::Item {
                attrs,
                definition: Definition::Module { .. },
            } => Some(attrs),
            _ => None,
        })
        .expect("a mod declaration")
}

/// Every file is parsed once, and what it parsed to is what is measured.
#[test]
fn each_file_is_parsed_exactly_once_and_its_ast_is_streamed() {
    let mut tree = Tree::new();
    tree.write("src/lib.rs", "mod foo;\nfn root() {}\n")
        .write("src/foo.rs", "mod bar;\nfn one() {}\nfn two() {}\n")
        .write("src/foo/bar.rs", "fn three() {}\n");

    let walked = tree.walk_all(&[("/w/src/lib.rs".to_string(), "demo".to_string())]);

    // Three files, three parses, in the order of the graph.
    assert_eq!(walked.parses, 3);
    let items: Vec<(&str, usize)> = walked
        .files
        .iter()
        .map(|(module, _)| module.as_str())
        .zip(walked.items.iter().copied())
        .collect();
    assert_eq!(
        items,
        vec![("demo", 2), ("demo::foo", 3), ("demo::foo::bar", 1)]
    );
}

/// A file reached from two crate roots is parsed once, and the first to reach
/// it names it.
#[test]
fn a_file_reached_from_two_targets_is_parsed_once() {
    let mut tree = Tree::new();
    tree.write("src/lib.rs", "fn one() {}\n");

    let walked = tree.walk_all(&[
        ("/w/src/lib.rs".to_string(), "alpha".to_string()),
        ("/w/src/lib.rs".to_string(), "beta".to_string()),
    ]);

    assert_eq!(walked.parses, 1);
    assert_eq!(modules(&walked.files), vec!["alpha"]);
}

/// A file no crate root declares is not compiled
/// by cargo, so it is not product source — however inviting the directory
/// it sits in looks.
#[test]
fn modgraph_only_modules_reachable_from_the_crate_root_are_enumerated() {
    let mut tree = Tree::new();
    tree.write("src/lib.rs", "mod foo;\n")
        .write("src/foo.rs", "")
        .write("src/orphan.rs", "")
        .write("src/nested/orphan.rs", "");

    let (files, diagnostics) = tree.walk("demo", "src/lib.rs");

    assert_eq!(
        files,
        vec![
            ("demo".to_string(), "src/lib.rs".to_string()),
            ("demo::foo".to_string(), "src/foo.rs".to_string()),
        ]
    );
    assert!(diagnostics.is_empty(), "{:?}", rendered(&diagnostics));
}

/// The crate root file *is* the crate, and below it the graph — not the
/// path — names each module: `mod.rs` names its parent, and a file module's
/// own submodules live under its stem.
#[test]
fn modgraph_file_and_directory_modules_are_named_by_the_graph() {
    let mut tree = Tree::new();
    tree.write("src/lib.rs", "mod foo;\n")
        .write("src/foo/mod.rs", "mod bar;\n")
        .write("src/foo/bar.rs", "mod baz;\n")
        .write("src/foo/bar/baz.rs", "");

    let (files, diagnostics) = tree.walk("demo", "src/lib.rs");

    assert_eq!(
        files,
        vec![
            ("demo".to_string(), "src/lib.rs".to_string()),
            ("demo::foo".to_string(), "src/foo/mod.rs".to_string()),
            ("demo::foo::bar".to_string(), "src/foo/bar.rs".to_string()),
            (
                "demo::foo::bar::baz".to_string(),
                "src/foo/bar/baz.rs".to_string()
            ),
        ]
    );
    assert!(diagnostics.is_empty(), "{:?}", rendered(&diagnostics));
}

/// An inline `mod` is not a file, but it contributes both a name segment
/// and a directory segment to the modules it declares.
#[test]
fn modgraph_an_inline_module_contributes_a_name_and_a_directory() {
    let mut tree = Tree::new();
    tree.write("src/lib.rs", "mod outer {\n    mod inner;\n}\n")
        .write("src/outer/inner.rs", "");

    let (files, _) = tree.walk("demo", "src/lib.rs");

    assert_eq!(
        files,
        vec![
            ("demo".to_string(), "src/lib.rs".to_string()),
            (
                "demo::outer::inner".to_string(),
                "src/outer/inner.rs".to_string()
            ),
        ]
    );
}

/// `#[path]` decouples a module's file from its name — which is precisely
/// why path-derived naming is wrong and the graph is authoritative. The
/// relocated file's *own* declarations resolve in its new directory.
#[test]
fn modgraph_a_path_attribute_relocates_the_file_without_renaming_the_module() {
    let mut tree = Tree::new();
    tree.write(
        "src/lib.rs",
        "#[path = \"elsewhere/renamed.rs\"]\nmod aliased;\n",
    )
    .write("src/elsewhere/renamed.rs", "mod child;\n")
    .write("src/elsewhere/child.rs", "");

    let (files, diagnostics) = tree.walk("demo", "src/lib.rs");

    assert_eq!(
        files,
        vec![
            ("demo".to_string(), "src/lib.rs".to_string()),
            (
                "demo::aliased".to_string(),
                "src/elsewhere/renamed.rs".to_string()
            ),
            (
                "demo::aliased::child".to_string(),
                "src/elsewhere/child.rs".to_string()
            ),
        ]
    );
    assert!(diagnostics.is_empty(), "{:?}", rendered(&diagnostics));
}

/// A crate root that is not `lib.rs`/`main.rs` owns its own
/// directory exactly as rustc says, so a sibling module of `cmd/tool.rs` is
/// compiled product source and must be enumerated — not quietly dropped
/// because the directory is shared.
#[test]
fn modgraph_a_nonstandard_crate_root_reaches_its_sibling_modules() {
    let mut tree = Tree::new();
    tree.write("cmd/tool.rs", "mod helper;\n")
        .write("cmd/helper.rs", "")
        .write("cmd/other.rs", "");

    let (files, _) = tree.walk("tool", "cmd/tool.rs");

    assert_eq!(modules(&files), vec!["tool", "tool::helper"], "{files:?}");
    // `cmd/other.rs` is another bin's root, or nothing at all — either way
    // this crate does not declare it, so it is not this crate's source.
    assert!(
        !files.iter().any(|(_, file)| file == "cmd/other.rs"),
        "{files:?}"
    );
}

/// A declared module with no file is a real condition, not something to
/// pass over in silence: it is advisory, it names both places rustc
/// would have looked, and the rest of the graph is still enumerated.
#[test]
fn modgraph_a_declared_module_with_no_file_is_diagnosed() {
    let mut tree = Tree::new();
    tree.write("src/lib.rs", "mod present;\nmod absent;\n")
        .write("src/present.rs", "");

    let (files, diagnostics) = tree.walk("demo", "src/lib.rs");

    assert_eq!(modules(&files), vec!["demo", "demo::present"], "{files:?}");
    assert_eq!(diagnostics.len(), 1, "{:?}", rendered(&diagnostics));
    let line = diagnostics[0].to_string();
    assert!(line.contains("demo::absent"), "{line}");
    assert!(line.contains("src/absent.rs"), "{line}");
    assert!(line.contains("src/absent/mod.rs"), "{line}");
    // The module is simply not in the report.
    assert!(diagnostics[0].kind().declines_analysis(), "{line}");
}

/// Both files present is an error to rustc; here it is a warning naming
/// both, so which one the numbers describe is never a guess. It is *not* a
/// decline: one of them was analysed.
#[test]
fn modgraph_a_module_with_two_candidate_files_is_diagnosed() {
    let mut tree = Tree::new();
    tree.write("src/lib.rs", "mod foo;\n")
        .write("src/foo.rs", "")
        .write("src/foo/mod.rs", "");

    let (files, diagnostics) = tree.walk("demo", "src/lib.rs");

    assert_eq!(modules(&files), vec!["demo", "demo::foo"], "{files:?}");
    assert_eq!(diagnostics.len(), 1, "{:?}", rendered(&diagnostics));
    let line = diagnostics[0].to_string();
    assert!(line.contains("src/foo.rs"), "{line}");
    assert!(line.contains("src/foo/mod.rs"), "{line}");
    assert!(!diagnostics[0].kind().declines_analysis(), "{line}");
}

/// A declared module is followed, whatever attributes guard the declaration.
#[test]
fn modgraph_a_cfg_guarded_module_declaration_is_still_resolved() {
    let mut tree = Tree::new();
    tree.write("src/lib.rs", "#[cfg(test)]\nmod tests;\n")
        .write("src/tests.rs", "");

    let (files, diagnostics) = tree.walk("demo", "src/lib.rs");

    assert_eq!(modules(&files), vec!["demo", "demo::tests"], "{files:?}");
    assert!(diagnostics.is_empty(), "{:?}", rendered(&diagnostics));
}

/// `#[cfg_attr(.., path = "..")]` chooses which file rustc
/// compiles. With the default file present too, silently analysing it would
/// produce a confident report of source rustc may never have compiled — so
/// the module is diagnosed and left unanalysed instead.
#[test]
fn modgraph_a_conditionally_pathed_module_is_diagnosed_not_guessed() {
    let mut tree = Tree::new();
    tree.write(
        "src/lib.rs",
        "#[cfg_attr(windows, path = \"windows.rs\")]\nmod imp;\n",
    )
    .write("src/imp.rs", "")
    .write("src/windows.rs", "");

    let (files, diagnostics) = tree.walk("demo", "src/lib.rs");

    assert_eq!(modules(&files), vec!["demo"], "{files:?}");
    assert_eq!(diagnostics.len(), 1, "{:?}", rendered(&diagnostics));
    let line = diagnostics[0].to_string();
    assert!(line.contains("demo::imp"), "{line}");
    assert!(line.contains("cfg_attr"), "{line}");
    // The line names the declaration (file:line:column) and the predicate
    // that was not evaluated — enough for a reader to go and look.
    assert!(line.contains("src/lib.rs:2:5"), "{line}");
    assert!(line.contains("path = \"windows.rs\""), "{line}");
    // The module and its whole subtree are unmeasured, so it is counted.
    assert!(diagnostics[0].kind().declines_analysis(), "{line}");
}

/// The same holds for an inline module: a conditional `path` there names
/// the directory its children resolve in, so descending would look for them
/// in a directory rustc may not use.
#[test]
fn modgraph_a_conditionally_pathed_inline_module_is_not_descended() {
    let mut tree = Tree::new();
    tree.write(
        "src/lib.rs",
        "#[cfg_attr(unix, path = \"unix\")]\nmod outer {\n    mod inner;\n}\n",
    )
    .write("src/outer/inner.rs", "");

    let (files, diagnostics) = tree.walk("demo", "src/lib.rs");

    assert_eq!(modules(&files), vec!["demo"], "{files:?}");
    assert_eq!(diagnostics.len(), 1, "{:?}", rendered(&diagnostics));
    assert!(
        diagnostics[0].to_string().contains("demo::outer"),
        "{:?}",
        rendered(&diagnostics)
    );
}

/// Two mutually-exclusive declarations of one module are two conditions,
/// however alike they read: collapsing them would silently drop one, and a
/// reader would never learn that the other exists.
#[test]
fn modgraph_mutually_exclusive_declarations_of_one_module_stay_distinct() {
    let mut tree = Tree::new();
    tree.write(
        "src/lib.rs",
        "#[cfg(unix)]\n#[cfg_attr(unix, path = \"unix.rs\")]\nmod imp;\n\
         #[cfg(windows)]\n#[cfg_attr(windows, path = \"windows.rs\")]\nmod imp;\n",
    );

    let (_, diagnostics) = tree.walk("demo", "src/lib.rs");

    let lines = rendered(&diagnostics);
    assert_eq!(lines.len(), 2, "{lines:?}");
    assert!(
        lines[0].contains("src/lib.rs:3:5") && lines[0].contains("path = \"unix.rs\""),
        "{lines:?}"
    );
    assert!(
        lines[1].contains("src/lib.rs:6:5") && lines[1].contains("path = \"windows.rs\""),
        "{lines:?}"
    );
}

/// A `#[path]` that names the file it is written in spells that one file a new
/// way every time round, so it is its identity that ends the walk.
#[test]
fn modgraph_a_self_referential_path_attribute_terminates() {
    let mut tree = Tree::new();
    tree.write("src/lib.rs", "#[path = \"../src/lib.rs\"]\nmod again;\n");

    let (files, _) = tree.walk("demo", "src/lib.rs");

    assert_eq!(files.len(), 1);
}

/// Only a `cfg_attr` that could actually supply a `path` withdraws a
/// module; the ordinary ones must not cost us coverage of the graph.
#[test]
fn modgraph_cfg_attr_without_a_path_leaves_resolution_alone() {
    assert!(matches!(
        module_source(&attrs("#[cfg_attr(test, allow(dead_code))] mod foo;")),
        ModuleSource::Default
    ));
    assert!(matches!(
        module_source(&attrs("#[cfg(unix)] mod foo;")),
        ModuleSource::Default
    ));
    assert!(matches!(
        module_source(&attrs("#[path = \"a.rs\"] mod foo;")),
        ModuleSource::Fixed(path) if path == "a.rs"
    ));
    assert!(matches!(
        module_source(&attrs(
            "#[cfg_attr(all(unix, feature = \"x\"), path = \"a.rs\")] mod foo;"
        )),
        ModuleSource::Conditional(attribute)
            if attribute.starts_with("#[cfg_attr(") && attribute.contains("path = \"a.rs\"")
    ));
    // Nested, and alongside a direct `#[path]`: the cfg set still decides.
    assert!(matches!(
        module_source(&attrs(
            "#[cfg_attr(unix, cfg_attr(target_os = \"macos\", path = \"a.rs\"))] mod foo;"
        )),
        ModuleSource::Conditional(_)
    ));
    assert!(matches!(
        module_source(&attrs(
            "#[path = \"a.rs\"]\n#[cfg_attr(windows, path = \"b.rs\")] mod foo;"
        )),
        ModuleSource::Conditional(_)
    ));
}

/// A file no crate root declares is not compiled
/// by cargo, so it is not product source — however inviting the directory
/// it sits in looks.
#[test]
fn workspace_only_modules_reachable_from_the_crate_root_are_enumerated() {
    let mut tree = Tree::new();
    tree.write("src/lib.rs", "mod foo;\n")
        .write("src/foo.rs", "")
        .write("src/orphan.rs", "")
        .write("src/nested/orphan.rs", "");

    let (files, diagnostics) = tree.list("demo", "src/lib.rs");

    assert_eq!(
        files,
        vec![
            ("demo::foo".to_string(), "src/foo.rs".to_string()),
            ("demo".to_string(), "src/lib.rs".to_string()),
        ]
    );
    assert!(diagnostics.is_empty(), "{diagnostics:?}");
}

/// The crate root file *is* the crate, and below it the graph — not the
/// path — names each module: `mod.rs` names its parent, and a file module's
/// own submodules live under its stem.
#[test]
fn workspace_file_and_directory_modules_are_named_by_the_graph() {
    let mut tree = Tree::new();
    tree.write("src/lib.rs", "mod foo;\n")
        .write("src/foo/mod.rs", "mod bar;\n")
        .write("src/foo/bar.rs", "mod baz;\n")
        .write("src/foo/bar/baz.rs", "");

    let (files, diagnostics) = tree.list("demo", "src/lib.rs");

    assert_eq!(
        files,
        vec![
            (
                "demo::foo::bar::baz".to_string(),
                "src/foo/bar/baz.rs".to_string()
            ),
            ("demo::foo::bar".to_string(), "src/foo/bar.rs".to_string()),
            ("demo::foo".to_string(), "src/foo/mod.rs".to_string()),
            ("demo".to_string(), "src/lib.rs".to_string()),
        ]
    );
    assert!(diagnostics.is_empty(), "{diagnostics:?}");
}

/// An inline `mod` is not a file, but it contributes both a name segment
/// and a directory segment to the modules it declares.
#[test]
fn workspace_an_inline_module_contributes_a_name_and_a_directory() {
    let mut tree = Tree::new();
    tree.write("src/lib.rs", "mod outer {\n    mod inner;\n}\n")
        .write("src/outer/inner.rs", "");

    let (files, _) = tree.list("demo", "src/lib.rs");

    assert_eq!(
        files,
        vec![
            ("demo".to_string(), "src/lib.rs".to_string()),
            (
                "demo::outer::inner".to_string(),
                "src/outer/inner.rs".to_string()
            ),
        ]
    );
}

/// `#[path]` decouples a module's file from its name — which is precisely
/// why path-derived naming is wrong and the graph is authoritative. The
/// relocated file's *own* declarations resolve in its new directory.
#[test]
fn workspace_a_path_attribute_relocates_the_file_without_renaming_the_module() {
    let mut tree = Tree::new();
    tree.write(
        "src/lib.rs",
        "#[path = \"elsewhere/renamed.rs\"]\nmod aliased;\n",
    )
    .write("src/elsewhere/renamed.rs", "mod child;\n")
    .write("src/elsewhere/child.rs", "");

    let (files, diagnostics) = tree.list("demo", "src/lib.rs");

    assert_eq!(
        files,
        vec![
            (
                "demo::aliased::child".to_string(),
                "src/elsewhere/child.rs".to_string()
            ),
            (
                "demo::aliased".to_string(),
                "src/elsewhere/renamed.rs".to_string()
            ),
            ("demo".to_string(), "src/lib.rs".to_string()),
        ]
    );
    assert!(diagnostics.is_empty(), "{diagnostics:?}");
}

/// A crate root that is not `lib.rs`/`main.rs` owns its own
/// directory exactly as rustc says, so a sibling module of `cmd/tool.rs` is
/// compiled product source and must be enumerated — not quietly dropped
/// because the directory is shared.
#[test]
fn workspace_a_nonstandard_crate_root_reaches_its_sibling_modules() {
    let mut tree = Tree::new();
    tree.write("cmd/tool.rs", "mod helper;\n")
        .write("cmd/helper.rs", "")
        .write("cmd/other.rs", "");

    let (files, _) = tree.list("tool", "cmd/tool.rs");

    assert_eq!(modules(&files), vec!["tool::helper", "tool"], "{files:?}");
    // `cmd/other.rs` is another bin's root, or nothing at all — either way
    // this crate does not declare it, so it is not this crate's source.
    assert!(
        !files.iter().any(|(_, file)| file == "cmd/other.rs"),
        "{files:?}"
    );
}

/// A declared module with no file is a real condition, not something to
/// pass over in silence: it is advisory, it names both places rustc
/// would have looked, and the rest of the graph is still enumerated.
#[test]
fn workspace_a_declared_module_with_no_file_is_diagnosed() {
    let mut tree = Tree::new();
    tree.write("src/lib.rs", "mod present;\nmod absent;\n")
        .write("src/present.rs", "");

    let (files, diagnostics) = tree.list("demo", "src/lib.rs");

    assert_eq!(modules(&files), vec!["demo", "demo::present"], "{files:?}");
    assert_eq!(diagnostics.len(), 1, "{diagnostics:?}");
    assert!(diagnostics[0].contains("demo::absent"), "{diagnostics:?}");
    assert!(diagnostics[0].contains("src/absent.rs"), "{diagnostics:?}");
    assert!(
        diagnostics[0].contains("src/absent/mod.rs"),
        "{diagnostics:?}"
    );
}

/// Both files present is an error to rustc; here it is a warning naming
/// both, so which one the numbers describe is never a guess.
#[test]
fn workspace_a_module_with_two_candidate_files_is_diagnosed() {
    let mut tree = Tree::new();
    tree.write("src/lib.rs", "mod foo;\n")
        .write("src/foo.rs", "")
        .write("src/foo/mod.rs", "");

    let (files, diagnostics) = tree.list("demo", "src/lib.rs");

    assert_eq!(modules(&files), vec!["demo::foo", "demo"], "{files:?}");
    assert_eq!(diagnostics.len(), 1, "{diagnostics:?}");
    assert!(diagnostics[0].contains("src/foo.rs"), "{diagnostics:?}");
    assert!(diagnostics[0].contains("src/foo/mod.rs"), "{diagnostics:?}");
}

/// A declared module is followed, whatever attributes guard the declaration.
#[test]
fn workspace_a_cfg_guarded_module_declaration_is_still_resolved() {
    let mut tree = Tree::new();
    tree.write("src/lib.rs", "#[cfg(test)]\nmod tests;\n")
        .write("src/tests.rs", "");

    let (files, diagnostics) = tree.list("demo", "src/lib.rs");

    assert_eq!(modules(&files), vec!["demo", "demo::tests"], "{files:?}");
    assert!(diagnostics.is_empty(), "{diagnostics:?}");
}

#[test]
fn target_name_hyphens_become_crate_underscores() {
    let mut tree = Tree::new();
    tree.write("src/lib.rs", "mod foo;\n")
        .write("src/foo.rs", "");

    let (files, _) = tree.list("my-crate", "src/lib.rs");

    assert_eq!(modules(&files), vec!["my_crate::foo", "my_crate"]);
}

/// Two spellings of one file are one file.
#[test]
fn workspace_two_spellings_of_one_file_are_enumerated_once() {
    let mut tree = Tree::new();
    tree.write("src/lib.rs", "");

    let (files, diagnostics) = tree.enumerate(&[
        ("alpha", "alpha", "src/lib.rs"),
        ("beta", "beta", "src/../src/lib.rs"),
    ]);

    assert_eq!(modules(&files), vec!["alpha"], "{files:?}");
    assert!(diagnostics.is_empty(), "{:?}", rendered(&diagnostics));
}

/// One file reached from two targets declares one missing module.
#[test]
fn workspace_a_file_reached_from_two_targets_warns_once() {
    let mut tree = Tree::new();
    tree.write("src/lib.rs", "mod absent;\n");

    let (files, diagnostics) = tree.enumerate(&[
        ("alpha", "alpha", "src/lib.rs"),
        ("beta", "beta", "src/lib.rs"),
    ]);

    assert_eq!(files.len(), 1, "{files:?}");
    assert_eq!(diagnostics.len(), 1, "{:?}", rendered(&diagnostics));
    assert!(diagnostics[0].to_string().contains("alpha::absent"));
}

/// `#[cfg_attr(.., path = "..")]` chooses which file rustc
/// compiles. With the default file present too, silently analysing it would
/// produce a confident report of source rustc may never have compiled — so
/// the module is diagnosed and left unanalysed instead.
#[test]
fn workspace_a_conditionally_pathed_module_is_diagnosed_not_guessed() {
    let mut tree = Tree::new();
    tree.write(
        "src/lib.rs",
        "#[cfg_attr(windows, path = \"windows.rs\")]\nmod imp;\n",
    )
    .write("src/imp.rs", "")
    .write("src/windows.rs", "");

    let (files, diagnostics) = tree.list("demo", "src/lib.rs");

    assert_eq!(modules(&files), vec!["demo"], "{files:?}");
    assert_eq!(diagnostics.len(), 1, "{diagnostics:?}");
    assert!(diagnostics[0].contains("demo::imp"), "{diagnostics:?}");
    assert!(diagnostics[0].contains("cfg_attr"), "{diagnostics:?}");
    // The line names the declaration (file:line:column) and the predicate
    // that was not evaluated — enough for a reader to go and look.
    assert!(diagnostics[0].contains("src/lib.rs:2:5"), "{diagnostics:?}");
    assert!(
        diagnostics[0].contains("path = \"windows.rs\""),
        "{diagnostics:?}"
    );
}

/// Two mutually-exclusive declarations of one module are two conditions,
/// however alike they read: collapsing them would silently drop one, and a
/// reader would never learn that the other exists.
#[test]
fn workspace_mutually_exclusive_declarations_of_one_module_stay_distinct() {
    let mut tree = Tree::new();
    tree.write(
        "src/lib.rs",
        "#[cfg(unix)]\n#[cfg_attr(unix, path = \"unix.rs\")]\nmod imp;\n\
         #[cfg(windows)]\n#[cfg_attr(windows, path = \"windows.rs\")]\nmod imp;\n",
    );

    let (_, diagnostics) = tree.enumerate(&[("demo", "demo", "src/lib.rs")]);

    let lines = rendered(&diagnostics);
    assert_eq!(lines.len(), 2, "{lines:?}");
    assert!(
        lines[0].contains("src/lib.rs:3:5") && lines[0].contains("path = \"unix.rs\""),
        "{lines:?}"
    );
    assert!(
        lines[1].contains("src/lib.rs:6:5") && lines[1].contains("path = \"windows.rs\""),
        "{lines:?}"
    );
}

/// A `#[path]` that names the file it is written in ends the walk at once.
#[test]
fn workspace_a_self_referential_path_attribute_terminates() {
    let mut tree = Tree::new();
    tree.write("src/lib.rs", "#[path = \"../src/lib.rs\"]\nmod again;\n");

    let (files, _) = tree.list("demo", "src/lib.rs");

    assert_eq!(files.len(), 1);
}

/// The same holds for an inline module: a conditional `path` there names
/// the directory its children resolve in, so descending would look for them
/// in a directory rustc may not use.
#[test]
fn workspace_a_conditionally_pathed_inline_module_is_not_descended() {
    let mut tree = Tree::new();
    tree.write(
        "src/lib.rs",
        "#[cfg_attr(unix, path = \"unix\")]\nmod outer {\n    mod inner;\n}\n",
    )
    .write("src/outer/inner.rs", "");

    let (files, diagnostics) = tree.list("demo", "src/lib.rs");

    assert_eq!(modules(&files), vec!["demo"], "{files:?}");
    assert_eq!(diagnostics.len(), 1, "{diagnostics:?}");
    assert!(diagnostics[0].contains("demo::outer"), "{diagnostics:?}");
}

/// Only a `cfg_attr` that could actually supply a `path` withdraws a
/// module; the ordinary ones must not cost us coverage of the graph.
#[test]
fn workspace_cfg_attr_without_a_path_leaves_resolution_alone() {
    assert!(matches!(
        module_source(&attrs("#[cfg_attr(test, allow(dead_code))] mod foo;")),
        ModuleSource::Default
    ));
    assert!(matches!(
        module_source(&attrs("#[cfg(unix)] mod foo;")),
        ModuleSource::Default
    ));
    assert!(matches!(
        module_source(&attrs("#[path = \"a.rs\"] mod foo;")),
        ModuleSource::Fixed(path) if path == "a.rs"
    ));
    assert!(matches!(
        module_source(&attrs(
            "#[cfg_attr(all(unix, feature = \"x\"), path = \"a.rs\")] mod foo;"
        )),
        ModuleSource::Conditional(attribute)
            if attribute.starts_with("#[cfg_attr(") && attribute.contains("path = \"a.rs\"")
    ));
    // Nested, and alongside a direct `#[path]`: the cfg set still decides.
    assert!(matches!(
        module_source(&attrs(
            "#[cfg_attr(unix, cfg_attr(target_os = \"macos\", path = \"a.rs\"))] mod foo;"
        )),
        ModuleSource::Conditional(_)
    ));
    assert!(matches!(
        module_source(&attrs(
            "#[path = \"a.rs\"]\n#[cfg_attr(windows, path = \"b.rs\")] mod foo;"
        )),
        ModuleSource::Conditional(_)
    ));
}

/// Two spellings of one file are one file, and the first to reach it names it.
#[test]
fn mod_two_spellings_of_one_file_are_enumerated_once() {
    let mut tree = Tree::new();
    tree.write("src/lib.rs", "");

    let (files, diagnostics) = tree.enumerate(&[
        ("alpha", "alpha", "src/lib.rs"),
        ("beta", "beta", "src/../src/lib.rs"),
    ]);

    assert_eq!(
        files,
        vec![("alpha".to_string(), "src/lib.rs".to_string())],
        "{files:?}"
    );
    assert_eq!(diagnostics.len(), 0);
}

/// One file reached from two targets declares one missing module, so exactly
/// one warning is given: the second claim is never walked.
#[test]
fn mod_a_file_reached_from_two_targets_warns_once() {
    let mut tree = Tree::new();
    tree.write("src/lib.rs", "mod absent;\n");

    let (files, diagnostics) = tree.enumerate(&[
        ("alpha", "alpha", "src/lib.rs"),
        ("beta", "beta", "src/lib.rs"),
    ]);

    assert_eq!(files.len(), 1, "{files:?}");
    assert_eq!(diagnostics.len(), 1);
}

/// What is declared for tests only is followed and marked, and a test file that
/// is missing is not missed.
#[test]
fn tests_are_marked_and_their_missing_files_are_not_missed() {
    let mut tree = Tree::new();
    tree.write(
        "src/lib.rs",
        "mod foo;\n#[cfg(test)]\nmod tests;\n#[cfg(test)]\nmod absent;\n",
    )
    .write("src/foo.rs", "fn f() {}\n")
    .write("src/tests.rs", "mod helper;\nmod gone;\nfn h() {}\n")
    .write("src/tests/helper.rs", "fn g() {}\n");

    let walked = tree.walk_all(&[("/w/src/lib.rs".to_string(), "demo".to_string())]);

    assert_eq!(
        modules(&walked.files),
        vec!["demo", "demo::foo", "demo::tests", "demo::tests::helper"]
    );
    assert_eq!(walked.test_only, vec![false, false, true, true]);
    assert!(
        walked.diagnostics.is_empty(),
        "{:?}",
        rendered(&walked.diagnostics)
    );
}

/// A file of nothing but test code is compiled for tests only, with all that it
/// declares.
#[test]
fn a_test_only_file_makes_test_only_children() {
    let mut tree = Tree::new();
    tree.write("src/lib.rs", "mod support;\nfn f() {}\n")
        .write("src/support.rs", "#![cfg(test)]\nmod child;\nmod gone;\n")
        .write("src/support/child.rs", "fn g() {}\n");

    let walked = tree.walk_all(&[("/w/src/lib.rs".to_string(), "demo".to_string())]);

    assert_eq!(walked.test_only, vec![false, true, true]);
    assert!(walked.diagnostics.is_empty());
}

/// A file that the tests of one crate share with the product of another is
/// product.
#[test]
fn a_file_walked_for_tests_is_walked_again_as_product() {
    let mut tree = Tree::new();
    tree.write("src/lib.rs", "fn f() {}\n#[cfg(test)]\nmod util;\n")
        .write("src/main.rs", "mod util;\nfn main() {}\n")
        .write("src/util.rs", "fn u() {}\n");

    let walked = tree.walk_all(&[
        ("/w/src/lib.rs".to_string(), "demo".to_string()),
        ("/w/src/main.rs".to_string(), "tool".to_string()),
    ]);

    assert_eq!(
        modules(&walked.files),
        vec!["demo", "demo::util", "tool", "tool::util"]
    );
    assert_eq!(walked.test_only, vec![false, true, false, false]);
}

/// An inline module with a `path` lays its children in the directory that it
/// names.
#[test]
fn a_path_attribute_on_an_inline_module_names_a_directory() {
    let mut tree = Tree::new();
    tree.write(
        "src/lib.rs",
        "#[path = \"inside\"]\nmod outer {\n    mod inner;\n}\n",
    )
    .write("src/inside/inner.rs", "");

    let (files, diagnostics) = tree.walk("demo", "src/lib.rs");

    assert_eq!(
        files,
        vec![
            ("demo".to_string(), "src/lib.rs".to_string()),
            (
                "demo::outer::inner".to_string(),
                "src/inside/inner.rs".to_string()
            ),
        ]
    );
    assert!(diagnostics.is_empty());
}

/// The files that wait come before those that a file declares.
#[test]
fn the_walk_is_breadth_first() {
    let mut tree = Tree::new();
    tree.write("src/lib.rs", "mod a;\nmod b;\n")
        .write("src/a.rs", "mod deep;\n")
        .write("src/a/deep.rs", "")
        .write("src/b.rs", "");

    let (files, _) = tree.walk("demo", "src/lib.rs");

    assert_eq!(
        modules(&files),
        vec!["demo", "demo::a", "demo::b", "demo::a::deep"]
    );
}

/// The diagnostics and the files of a walk on Windows over `C:\w`, where the files
/// that are there are given with slashes.
fn walk_on_windows(root: &str, files: &[(&str, &str)]) -> (Vec<String>, Vec<String>) {
    let mut walker = Walker::new(Style::Windows, r"C:\w");
    let mut found = Vec::new();
    let mut diagnostics = Vec::new();
    walker.begin(root, "demo");
    while let Some(file) = walker.next() {
        let file = file.replace('\\', "/");
        if !walker.enter(&file) {
            continue;
        }
        let source = files
            .iter()
            .find(|(path, _)| *path == file)
            .map(|(_, source)| *source)
            .expect("the file is there");
        let parsed = parse_source(source).expect("the file parses");
        let present: Vec<String> = walker
            .probes(&parsed)
            .into_iter()
            .filter(|probe| files.iter().any(|(path, _)| path == probe))
            .collect();
        let module = walker.visit(&parsed, &present, &mut diagnostics);
        found.push(module.file);
    }
    (found, diagnostics.iter().map(Diagnostic::to_string).collect())
}

#[test]
fn a_walk_on_windows_knows_separators_and_drives() {
    let (files, diagnostics) = walk_on_windows(
        r"C:\w\src\lib.rs",
        &[
            (
                "C:/w/src/lib.rs",
                "mod a;\n#[path = \"gen\\\\b.rs\"]\nmod b;\n#[path = \"D:/c.rs\"]\nmod c;\n\
                 #[path = \"/d.rs\"]\nmod d;\n",
            ),
            ("C:/w/src/a/mod.rs", "mod inner;\n"),
            ("C:/w/src/a/inner.rs", ""),
            ("C:/w/src/gen/b.rs", "mod beside;\n"),
            ("C:/w/src/gen/beside.rs", ""),
            ("D:/c.rs", "mod near;\n"),
            ("D:/near.rs", ""),
            ("C:/d.rs", "mod gone;\n"),
        ],
    );
    assert_eq!(
        files,
        vec![
            r"C:\w\src\lib.rs",
            "C:/w/src/a/mod.rs",
            "C:/w/src/gen/b.rs",
            "D:/c.rs",
            "C:/d.rs",
            "C:/w/src/a/inner.rs",
            "C:/w/src/gen/beside.rs",
            "D:/near.rs",
        ]
    );
    assert_eq!(diagnostics.len(), 1, "{diagnostics:?}");
    assert!(diagnostics[0].contains("../d.rs"), "{diagnostics:?}");
    assert!(diagnostics[0].contains("../gone.rs"), "{diagnostics:?}");
    assert!(!diagnostics[0].contains("C:"), "{diagnostics:?}");
}
