//! Whole runs, on workspaces that are held in memory.

use crap4rust::cli::{analyse, measure, render, run, RunConfig};
use crap4rust::coverage::parse_lcov;
use crap4rust::diagnostic::Diagnostic;
use crap4rust::join::{Figure, Figures, Fraction, SourceUnit};
use crap4rust::modgraph::Walker;
use crap4rust::path::{workspace_relative, Style};
use crap4rust::syntax::parse_source;
use crap4rust::workspace::{crate_roots, Metadata, Package, Target};
use std::collections::BTreeMap;

const SOURCE: &str = "\
fn covered() -> i32 {
    1
}

fn risky(x: i32) -> i32 {
    if x > 0 && x < 10 {
        return x;
    }
    match x {
        0 => 0,
        1 => 1,
        2 => 2,
        _ => -1,
    }
}
";

/// `covered` [1..=3]: line 2 hit, 1/1 = 100%.
/// `risky` [5..=15]: lines 6,7,9..13 not hit, 0/7 = 0%.
const LCOV: &str = "\
SF:src/lib.rs
DA:2,3
DA:6,0
DA:7,0
DA:9,0
DA:10,0
DA:11,0
DA:12,0
DA:13,0
end_of_record
";

/// `alpha_one` spans lines 1..=3 with one instrumented line (2), and has a
/// complexity of 2.
const ALPHA_SOURCE: &str = "\
fn alpha_one(x: i32) -> i32 {
    if x > 0 { 1 } else { 0 }
}
";

/// `beta_one` spans lines 1..=3 with one instrumented line (2), and has a
/// complexity of 1.
const BETA_SOURCE: &str = "\
fn beta_one() -> i32 {
    2
}
";

const PREAMBLE: &str = "\
CRAP Report
===========
Function                       Module                                CC    Cov%     CRAP
----------------------------------------------------------------------------------------
";

fn crap(cc: u32, cov: f64) -> f64 {
    let cc = f64::from(cc);
    let uncovered = 1.0 - cov;
    cc * cc * uncovered * uncovered * uncovered + cc
}

fn figures(cc: u32, fraction: Fraction) -> Figures {
    let coverage = fraction.numerator as f64 / fraction.denominator as f64;
    let score = crap(cc, coverage);
    Figures {
        coverage: Figure {
            bits: coverage.to_bits(),
            text: format!("{:.1}", coverage * 100.0),
        },
        crap: Figure {
            bits: score.to_bits(),
            text: format!("{score:.1}"),
        },
    }
}

/// A workspace below `/w`: its files, and what cargo says about it.
struct Workspace {
    files: BTreeMap<String, String>,
    packages: Vec<Package>,
}

/// What a run printed.
struct Output {
    stdout: String,
    stderr: Vec<String>,
}

fn identity(path: &str) -> String {
    let mut segments: Vec<&str> = Vec::new();
    for segment in path.split('/') {
        match segment {
            "" | "." => {}
            ".." => {
                segments.pop();
            }
            _ => segments.push(segment),
        }
    }
    format!("/{}", segments.join("/"))
}

fn target(name: &str, kind: &str, src_path: &str) -> Target {
    Target {
        name: name.to_string(),
        kind: vec![kind.to_string()],
        src_path: format!("/w/{src_path}"),
    }
}

impl Workspace {
    fn new() -> Self {
        Workspace {
            files: BTreeMap::new(),
            packages: Vec::new(),
        }
    }

    fn package(mut self, name: &str, targets: Vec<Target>) -> Self {
        self.packages.push(Package {
            name: name.to_string(),
            targets,
        });
        self
    }

    fn file(mut self, path: &str, contents: &str) -> Self {
        self.files
            .insert(identity(&format!("/w/{path}")), contents.to_string());
        self
    }

    /// Walks and measures the workspace.
    fn discover(&self, diagnostics: &mut Vec<Diagnostic>) -> Vec<SourceUnit> {
        let metadata = Metadata {
            workspace_root: "/w".to_string(),
            packages: self
                .packages
                .iter()
                .map(|package| Package {
                    name: package.name.clone(),
                    targets: package
                        .targets
                        .iter()
                        .map(|target| Target {
                            name: target.name.clone(),
                            kind: target.kind.clone(),
                            src_path: target.src_path.clone(),
                        })
                        .collect(),
                })
                .collect(),
        };
        let mut units = Vec::new();
        let mut walker = Walker::new(Style::Unix, "/w");
        for root in crate_roots(&metadata) {
            walker.begin(&root.src_path, &root.crate_ident);
            while let Some(file) = walker.next() {
                let identity = identity(file);
                if !walker.enter(&identity) {
                    continue;
                }
                let file = parse_source(&self.files[&identity]).expect("the file parses");
                let present: Vec<String> = walker
                    .probes(&file)
                    .into_iter()
                    .filter(|path| self.has(path))
                    .collect();
                let module = walker.visit(&file, &present, diagnostics);
                let path = workspace_relative("/w", &module.file);
                if let Some(unit) = measure(&module, &path, &file).expect("measurable") {
                    units.push(unit);
                }
            }
        }
        units
    }

    fn has(&self, path: &str) -> bool {
        self.files.contains_key(&identity(path))
    }

    fn run(&self, lcov: &str, filters: &[&str]) -> Output {
        let filters: Vec<String> = filters.iter().map(|filter| filter.to_string()).collect();
        let config = RunConfig::new(
            ".".to_string(),
            Some("coverage.lcov".to_string()),
            None,
            &filters,
        );
        let lcov = parse_lcov(lcov).expect("valid LCOV");
        let mut diagnostics = Vec::new();
        let units = self.discover(&mut diagnostics);
        let stdout = run(&config, &lcov, &units, &figures, 0, &mut diagnostics);
        Output {
            stdout,
            stderr: diagnostics.iter().map(Diagnostic::to_string).collect(),
        }
    }
}

/// One package with one library.
fn fixture(source: &str) -> Workspace {
    Workspace::new()
        .package("demo", vec![target("demo", "lib", "src/lib.rs")])
        .file("src/lib.rs", source)
}

/// The root package `alpha` and the member `beta`.
fn workspace_fixture() -> Workspace {
    Workspace::new()
        .package("alpha", vec![target("alpha", "lib", "src/lib.rs")])
        .package("beta", vec![target("beta", "lib", "crates/beta/src/lib.rs")])
        .file("src/lib.rs", ALPHA_SOURCE)
        .file("crates/beta/src/lib.rs", BETA_SOURCE)
}

#[test]
fn normal_run_prints_report_to_stdout_and_exits_zero() {
    let out = fixture(SOURCE).run(LCOV, &[]);
    assert_eq!(
        out.stdout,
        format!(
            "{PREAMBLE}\
risky                          demo                                   6    0.0%     42.0
covered                        demo                                   1  100.0%      1.0
"
        )
    );
    assert!(out.stderr.is_empty(), "{:?}", out.stderr);
}

#[test]
fn high_crap_function_still_exits_zero() {
    let out = fixture(SOURCE).run(LCOV, &[]);
    assert!(out.stdout.contains("42.0"), "{}", out.stdout);
}

#[test]
fn non_exact_path_match_warns_on_stderr_and_still_exits_zero() {
    let lcov = LCOV.replace("SF:src/lib.rs", "SF:/build/proj/crates/demo/src/lib.rs");
    let out = fixture(SOURCE).run(&lcov, &[]);

    // Coverage still resolves, so the numbers match the exact-match run.
    assert!(out.stdout.contains("CRAP Report"), "{}", out.stdout);
    assert!(out.stdout.contains("42.0"), "{}", out.stdout);
    assert!(out.stdout.contains("100.0%"), "{}", out.stdout);
    // One diagnostic for the single source file, not one per function.
    assert_eq!(out.stderr.len(), 1, "{:?}", out.stderr);
    assert!(out.stderr[0].contains("suffix match"), "{:?}", out.stderr);
    assert!(out.stderr[0].contains("lib.rs"), "{:?}", out.stderr);
    assert!(
        out.stderr[0].contains("/build/proj/crates/demo/src/lib.rs"),
        "{:?}",
        out.stderr
    );
}

#[test]
fn unresolved_path_warns_on_stderr_and_still_exits_zero() {
    let lcov = LCOV.replace("SF:src/lib.rs", "SF:src/somewhere_else.rs");
    let out = fixture(SOURCE).run(&lcov, &[]);

    assert!(out.stdout.contains("CRAP Report"), "{}", out.stdout);
    assert!(out.stdout.contains("N/A"), "{}", out.stdout);
    assert_eq!(out.stderr.len(), 1, "{:?}", out.stderr);
    assert!(out.stderr[0].contains("lib.rs"), "{:?}", out.stderr);
    assert!(
        out.stderr[0].contains("absent from the coverage profile"),
        "{:?}",
        out.stderr
    );
    assert!(out.stderr[0].contains("N/A"), "{:?}", out.stderr);
}

#[test]
fn every_workspace_member_is_analysed_with_crate_qualified_modules() {
    let out = workspace_fixture().run(
        "SF:src/lib.rs\nDA:2,0\nend_of_record\n\
         SF:crates/beta/src/lib.rs\nDA:2,1\nend_of_record\n",
        &[],
    );
    assert_eq!(
        out.stdout,
        format!(
            "{PREAMBLE}\
alpha_one                      alpha                                  2    0.0%      6.0
beta_one                       beta                                   1  100.0%      1.0
"
        )
    );
    // Both paths resolve exactly, so nothing is guessed.
    assert!(out.stderr.is_empty(), "{:?}", out.stderr);
}

#[test]
fn a_cross_member_path_collision_is_reported_as_ambiguous_not_guessed() {
    let out = workspace_fixture().run(
        "SF:/build/proj/src/lib.rs\nDA:2,0\nend_of_record\n\
         SF:/build/proj/crates/beta/src/lib.rs\nDA:2,1\nend_of_record\n",
        &[],
    );
    assert_eq!(
        out.stdout,
        format!(
            "{PREAMBLE}\
beta_one                       beta                                   1  100.0%      1.0
alpha_one                      alpha                                  2    N/A       N/A
"
        )
    );
    // One diagnostic per source file, in the order of discovery.
    let lines = out.stderr;
    assert_eq!(lines.len(), 2, "{lines:?}");
    assert!(lines[0].contains("src/lib.rs"), "{lines:?}");
    assert!(lines[0].contains("ambiguous"), "{lines:?}");
    assert!(lines[0].contains("/build/proj/src/lib.rs"), "{lines:?}");
    assert!(
        lines[0].contains("/build/proj/crates/beta/src/lib.rs"),
        "{lines:?}"
    );
    assert!(lines[0].contains("N/A"), "{lines:?}");
    assert!(lines[1].contains("suffix match"), "{lines:?}");
    assert!(
        lines[1].contains("/build/proj/crates/beta/src/lib.rs"),
        "{lines:?}"
    );
}

#[test]
fn a_contested_record_goes_to_its_single_exact_claimant() {
    let out = workspace_fixture().run("SF:src/lib.rs\nDA:2,1\nend_of_record\n", &[]);
    assert_eq!(
        out.stdout,
        format!(
            "{PREAMBLE}\
alpha_one                      alpha                                  2  100.0%      2.0
beta_one                       beta                                   1    N/A       N/A
"
        )
    );
    // Only the loser is diagnosed: an exact match is silent.
    let lines = out.stderr;
    assert_eq!(lines.len(), 1, "{lines:?}");
    assert!(
        lines[0].contains(
            "crates/beta/src/lib.rs: LCOV entry src/lib.rs matches src/lib.rs exactly, \
             so it is attributed there"
        ),
        "{lines:?}"
    );
    assert!(lines[0].contains("N/A"), "{lines:?}");
}

#[test]
fn a_record_no_claimant_matches_exactly_is_a_collision_and_both_report_na() {
    let out = workspace_fixture().run("SF:lib.rs\nDA:2,1\nend_of_record\n", &[]);
    assert_eq!(
        out.stdout,
        format!(
            "{PREAMBLE}\
alpha_one                      alpha                                  2    N/A       N/A
beta_one                       beta                                   1    N/A       N/A
"
        )
    );
    let lines = out.stderr;
    assert_eq!(lines.len(), 2, "{lines:?}");
    for line in &lines {
        assert!(
            line.contains("LCOV entry lib.rs is claimed by src/lib.rs, crates/beta/src/lib.rs"),
            "{lines:?}"
        );
        assert!(line.contains("N/A"), "{lines:?}");
    }
}

#[test]
fn crates_are_named_by_their_targets() {
    let workspace = Workspace::new()
        .package(
            "alpha",
            vec![
                target("alpha", "lib", "src/lib.rs"),
                target("tool", "bin", "src/bin/tool.rs"),
                target("renamed", "bin", "cmd/tool.rs"),
            ],
        )
        .package(
            "solo",
            vec![target("solo-tool", "bin", "crates/solo/cmd/main.rs")],
        )
        .file(
            "src/lib.rs",
            "#[path = \"aliased_file.rs\"]\nmod aliased;\n\nfn alpha_one() -> i32 {\n    1\n}\n",
        )
        .file(
            "src/aliased_file.rs",
            "fn aliased_one() -> i32 {\n    6\n}\n",
        )
        .file("src/orphan.rs", "fn orphan_one() -> i32 {\n    7\n}\n")
        .file(
            "src/bin/tool.rs",
            "fn main() {}\n\nfn tool_one() -> i32 {\n    2\n}\n",
        )
        .file(
            "cmd/tool.rs",
            "mod helper;\n\nfn main() {}\n\nfn renamed_one() -> i32 {\n    3\n}\n",
        )
        .file("cmd/helper.rs", "fn helper_one() -> i32 {\n    8\n}\n")
        .file(
            "crates/solo/cmd/main.rs",
            "fn main() {}\n\nfn solo_one() -> i32 {\n    4\n}\n",
        )
        .file(
            "crates/solo/src/stray.rs",
            "fn stray_one() -> i32 {\n    5\n}\n",
        );
    let out = workspace.run(
        "SF:src/lib.rs\nDA:5,1\nend_of_record\n\
         SF:src/aliased_file.rs\nDA:2,1\nend_of_record\n\
         SF:src/bin/tool.rs\nDA:4,1\nend_of_record\n\
         SF:cmd/tool.rs\nDA:6,1\nend_of_record\n\
         SF:cmd/helper.rs\nDA:2,1\nend_of_record\n\
         SF:crates/solo/cmd/main.rs\nDA:4,1\nend_of_record\n",
        &[],
    );
    // Rows of one score and one name are told apart by their files.
    assert_eq!(
        out.stdout,
        format!(
            "{PREAMBLE}\
aliased_one                    alpha::aliased                         1  100.0%      1.0
alpha_one                      alpha                                  1  100.0%      1.0
helper_one                     renamed::helper                        1  100.0%      1.0
main                           renamed                                1  100.0%      1.0
main                           solo_tool                              1  100.0%      1.0
main                           tool                                   1  100.0%      1.0
renamed_one                    renamed                                1  100.0%      1.0
solo_one                       solo_tool                              1  100.0%      1.0
tool_one                       tool                                   1  100.0%      1.0
"
        )
    );
    assert!(out.stderr.is_empty(), "{:?}", out.stderr);
}

#[test]
fn a_source_named_by_two_packages_is_analysed_exactly_once() {
    let workspace = Workspace::new()
        .package(
            "alpha",
            vec![
                target("alpha", "lib", "src/lib.rs"),
                target("alpha-shared", "bin", "shared/tool.rs"),
            ],
        )
        .package(
            "beta",
            vec![
                target("beta", "lib", "crates/beta/src/lib.rs"),
                target("beta-shared", "bin", "crates/beta/../../shared/tool.rs"),
            ],
        )
        .file("src/lib.rs", ALPHA_SOURCE)
        .file("crates/beta/src/lib.rs", BETA_SOURCE)
        .file(
            "shared/tool.rs",
            "fn main() {}\n\nfn shared_one() -> i32 {\n    9\n}\n",
        );
    let out = workspace.run(
        "SF:src/lib.rs\nDA:2,1\nend_of_record\n\
         SF:crates/beta/src/lib.rs\nDA:2,1\nend_of_record\n\
         SF:shared/tool.rs\nDA:4,1\nend_of_record\n",
        &[],
    );
    assert_eq!(
        out.stdout,
        format!(
            "{PREAMBLE}\
alpha_one                      alpha                                  2  100.0%      2.0
beta_one                       beta                                   1  100.0%      1.0
main                           alpha_shared                           1  100.0%      1.0
shared_one                     alpha_shared                           1  100.0%      1.0
"
        )
    );
    assert!(out.stderr.is_empty(), "{:?}", out.stderr);
}

#[test]
fn a_declared_module_with_no_file_warns_and_still_exits_zero() {
    let lcov = LCOV.replace("DA:2,3", "DA:4,3").replace("DA:6,", "DA:8,");
    let out = fixture(&format!("mod absent;\n\n{SOURCE}")).run(&lcov, &[]);

    assert!(out.stdout.contains("covered"), "{}", out.stdout);
    assert!(out.stdout.contains("risky"), "{}", out.stdout);
    let lines = out.stderr;
    assert_eq!(lines.len(), 1, "{lines:?}");
    assert!(lines[0].contains("src/lib.rs"), "{lines:?}");
    assert!(lines[0].contains("demo::absent"), "{lines:?}");
    assert!(lines[0].contains("src/absent.rs"), "{lines:?}");
    assert!(lines[0].contains("src/absent/mod.rs"), "{lines:?}");
}

#[test]
fn a_single_declined_module_is_counted_on_stdout() {
    let lcov = LCOV.replace("DA:2,3", "DA:4,3").replace("DA:6,", "DA:8,");
    let out = fixture(&format!("mod absent;\n\n{SOURCE}")).run(&lcov, &[]);
    assert!(
        out.stdout
            .ends_with("\n\n1 module not analysed (see stderr)\n"),
        "{}",
        out.stdout
    );
}

#[test]
fn several_declined_modules_are_counted_on_stdout() {
    let source = format!(
        "mod absent;\n\
         #[cfg_attr(windows, path = \"win.rs\")]\nmod imp;\n\n{SOURCE}"
    );
    let out = fixture(&source).run("SF:src/lib.rs\nend_of_record\n", &[]);
    assert!(
        out.stdout
            .ends_with("\n\n2 modules not analysed (see stderr)\n"),
        "{}",
        out.stdout
    );
    assert_eq!(out.stderr.len(), 2, "{:?}", out.stderr);
}

#[test]
fn a_complete_report_carries_no_notice() {
    let out = fixture(SOURCE).run(LCOV, &[]);
    assert!(!out.stdout.contains("not analysed"), "{}", out.stdout);
}

#[test]
fn an_inline_module_names_the_function_in_the_module_column() {
    let out = fixture("mod inner {\n    pub fn bar() -> i32 {\n        1\n    }\n}\n")
        .run("SF:src/lib.rs\nDA:3,1\nend_of_record\n", &[]);
    let row = out
        .stdout
        .lines()
        .find(|line| line.starts_with("bar "))
        .unwrap_or_else(|| panic!("no row for `bar`: {}", out.stdout));
    assert!(row.contains("demo::inner"), "{row}");
    assert!(!out.stdout.contains("inner::bar"), "{}", out.stdout);
}

#[test]
fn a_source_outside_the_workspace_root_is_reported_by_a_relative_path() {
    let workspace = Workspace::new()
        .package(
            "alpha",
            vec![
                target("alpha", "lib", "src/lib.rs"),
                Target {
                    name: "shared".to_string(),
                    kind: vec!["bin".to_string()],
                    src_path: "/shared/tool.rs".to_string(),
                },
            ],
        )
        .file("src/lib.rs", ALPHA_SOURCE)
        .file(
            "../shared/tool.rs",
            "fn main() {}\n\nfn shared_one() -> i32 {\n    2\n}\n",
        );
    let out = workspace.run("SF:src/lib.rs\nDA:2,1\nend_of_record\n", &[]);

    assert!(out.stdout.contains("shared_one"), "{}", out.stdout);
    let line = out
        .stderr
        .iter()
        .find(|line| line.contains("tool.rs"))
        .unwrap_or_else(|| panic!("not diagnosed: {:?}", out.stderr));
    assert!(line.contains("../shared/tool.rs"), "{line}");
    assert!(!line.contains(":/") && !line.contains(" /"), "{line}");
}

/// A filter narrows the rows and changes none of them: beta's claim on the
/// record is still superseded by a file that is not shown.
#[test]
fn a_filter_changes_no_value() {
    let lcov = "SF:src/lib.rs\nDA:2,1\nend_of_record\n";
    let all = workspace_fixture().run(lcov, &[]);
    let narrowed = workspace_fixture().run(lcov, &["crates/beta"]);

    let row = "beta_one                       beta                                   1    N/A       N/A\n";
    assert!(all.stdout.contains(row), "{}", all.stdout);
    assert_eq!(narrowed.stdout, format!("{PREAMBLE}{row}"));
    assert_eq!(narrowed.stderr, all.stderr);
}

/// A fragment that matches no file is said, after everything else, and a report
/// without rows says that it has none.
#[test]
fn a_fragment_that_matches_nothing_is_said() {
    let out = workspace_fixture().run(
        "SF:src/lib.rs\nDA:2,1\nend_of_record\n",
        &["crates/gone", "", "crates/beta"],
    );
    assert_eq!(out.stderr.len(), 3, "{:?}", out.stderr);
    assert_eq!(
        out.stderr[1],
        "warning: --filter crates/gone matched no source file"
    );
    assert_eq!(out.stderr[2], "warning: --filter  matched no source file");

    let out = workspace_fixture().run("", &["nowhere"]);
    assert_eq!(out.stdout, format!("{PREAMBLE}\nno functions reported\n"));
    assert_eq!(
        out.stderr,
        vec!["warning: --filter nowhere matched no source file"]
    );
}

/// What is declined outside a filter is neither said nor counted.
#[test]
fn a_narrowed_report_counts_only_its_own_declined_modules() {
    let workspace = Workspace::new()
        .package("alpha", vec![target("alpha", "lib", "src/lib.rs")])
        .package("beta", vec![target("beta", "lib", "crates/beta/src/lib.rs")])
        .file("src/lib.rs", "mod absent;\nfn f() {}\n")
        .file("crates/beta/src/lib.rs", BETA_SOURCE);
    let lcov = "SF:crates/beta/src/lib.rs\nDA:2,1\nend_of_record\n";

    let all = workspace.run(lcov, &[]);
    assert!(all.stdout.contains("1 module not analysed"), "{}", all.stdout);

    let narrowed = workspace.run(lcov, &["crates/beta"]);
    assert!(
        !narrowed.stdout.contains("not analysed"),
        "{}",
        narrowed.stdout
    );
    assert!(narrowed.stderr.is_empty(), "{:?}", narrowed.stderr);
}

/// A test-only file claims no record, so the record is left to the file that it
/// describes.
#[test]
fn a_test_only_file_claims_no_record() {
    let workspace = fixture("mod support;\nfn f() {}\n")
        .file("src/support.rs", "#![cfg(test)]\nmod lib;\nfn s() {}\n")
        .file("src/support/lib.rs", "fn t() {}\n");
    let out = workspace.run("SF:lib.rs\nDA:2,1\nend_of_record\n", &[]);
    assert_eq!(
        out.stdout,
        format!(
            "{PREAMBLE}\
f                              demo                                   1  100.0%      1.0
"
        )
    );
    assert_eq!(out.stderr.len(), 1, "{:?}", out.stderr);
    assert!(out.stderr[0].contains("suffix match"), "{:?}", out.stderr);
}

/// The report is the table of what was analysed.
#[test]
fn a_report_is_its_analysis_rendered() {
    let config = RunConfig::new(".".to_string(), None, None, &Vec::new());
    let lcov = parse_lcov(LCOV).expect("valid LCOV");
    let mut diagnostics = Vec::new();
    let units = fixture(SOURCE).discover(&mut diagnostics);
    let analysis = analyse(&config, &lcov, &units, &figures, 0, &mut diagnostics);
    assert_eq!(analysis.files.len(), 1);
    assert_eq!(analysis.declined, 0);
    assert_eq!(render(&analysis), fixture(SOURCE).run(LCOV, &[]).stdout);
}

#[test]
fn a_filter_leaves_rows_and_their_order_as_they_are() {
    let workspace = Workspace::new()
        .package("alpha", vec![target("alpha", "lib", "src/lib.rs")])
        .package("beta", vec![target("beta", "lib", "crates/beta/src/lib.rs")])
        .file("src/lib.rs", SOURCE)
        .file("crates/beta/src/lib.rs", BETA_SOURCE);
    let lcov = format!("{LCOV}SF:crates/beta/src/lib.rs\nDA:2,0\nend_of_record\n");
    let all = workspace.run(&lcov, &[]).stdout;
    let shown = workspace.run(&lcov, &["src/lib.rs"]).stdout;
    let beta = workspace.run(&lcov, &["crates/"]).stdout;
    assert_eq!(shown, all);
    assert_eq!(
        all,
        format!(
            "{PREAMBLE}\
risky                          alpha                                  6    0.0%     42.0
beta_one                       beta                                   1    0.0%      2.0
covered                        alpha                                  1  100.0%      1.0
"
        )
    );
    assert_eq!(
        beta,
        format!(
            "{PREAMBLE}\
beta_one                       beta                                   1    0.0%      2.0
"
        )
    );
}

#[test]
fn both_spellings_of_a_module_lead_on_to_one_directory() {
    for spelling in ["src/a.rs", "src/a/mod.rs"] {
        let out = Workspace::new()
            .package("demo", vec![target("demo", "lib", "src/lib.rs")])
            .file("src/lib.rs", "mod a;\n")
            .file(spelling, "mod b;\n")
            .file("src/a/b.rs", BETA_SOURCE)
            .run("SF:src/a/b.rs\nDA:2,1\nend_of_record\n", &["src/a/b.rs"]);
        assert_eq!(
            out.stdout,
            format!(
                "{PREAMBLE}\
beta_one                       demo::a::b                             1  100.0%      1.0
"
            )
        );
        assert!(out.stderr.is_empty(), "{:?}", out.stderr);
    }
}
