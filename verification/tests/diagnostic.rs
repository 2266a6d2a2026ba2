//! What a run has to say, and how it is put.

use crap4rust::diagnostic::{Diagnostic, Kind, Phase, Severity, Site};

#[test]
fn a_config_diagnostic_renders_without_a_site() {
    let diagnostic = Diagnostic::config(Kind::IgnoredTestCommand);
    assert_eq!(
        diagnostic.to_string(),
        "warning: --lcov-path given; --test-command ignored, no coverage command was run"
    );
    assert_eq!(diagnostic.phase(), Phase::Config);
    assert_eq!(diagnostic.code(), "ignored-test-command");
}

#[test]
fn a_whole_file_site_renders_without_a_position() {
    let diagnostic = Diagnostic::run(Site::file("src/lib.rs"), Kind::CoverageAbsent);
    assert_eq!(
        diagnostic.to_string(),
        "warning: src/lib.rs: absent from the coverage profile; its functions report N/A"
    );
}

#[test]
fn a_declaration_site_renders_file_line_and_column() {
    let diagnostic = Diagnostic::run(
        Site::at("src/lib.rs", 2, 5),
        Kind::ModuleFileMissing {
            module: "demo::absent".to_string(),
            candidates: vec!["src/absent.rs".to_string(), "src/absent/mod.rs".to_string()],
        },
    );
    assert_eq!(
        diagnostic.to_string(),
        "warning: src/lib.rs:2:5: module `demo::absent` is declared but no file was found \
         for it (looked for src/absent.rs and src/absent/mod.rs); it is not analysed"
    );
}

/// Only declined work is counted : a module resolved from
/// two candidates was analysed, and a coverage miss still reports its
/// functions.
#[test]
fn only_declined_work_counts_as_not_analysed() {
    assert!(Kind::ModuleFileMissing {
        module: "demo::absent".to_string(),
        candidates: Vec::new(),
    }
    .declines_analysis());
    assert!(Kind::ModulePathConditional {
        module: "demo::imp".to_string(),
        attribute: "#[cfg_attr(windows, path = \"windows.rs\")]".to_string(),
    }
    .declines_analysis());
    assert!(!Kind::ModuleFileAmbiguous {
        module: "demo::foo".to_string(),
        candidates: Vec::new(),
        analysed: "src/foo.rs".to_string(),
    }
    .declines_analysis());
    assert!(!Kind::CoverageAbsent.declines_analysis());
}

/// Every kind has its own code: a shared one could not tell two conditions
/// apart.
#[test]
fn every_kind_has_a_distinct_code() {
    let kinds = [
        Kind::IgnoredTestCommand,
        Kind::TestCommandWithoutLcovToken {
            token: "{lcov}",
            artifact: "target/crap4rust/coverage.lcov".to_string(),
        },
        Kind::ModuleFileMissing {
            module: String::new(),
            candidates: Vec::new(),
        },
        Kind::ModuleFileAmbiguous {
            module: String::new(),
            candidates: Vec::new(),
            analysed: String::new(),
        },
        Kind::ModulePathConditional {
            module: String::new(),
            attribute: String::new(),
        },
        Kind::CoverageSuffixMatch { key: String::new() },
        Kind::CoverageAmbiguous { keys: Vec::new() },
        Kind::CoverageAbsent,
        Kind::CoverageContested {
            key: String::new(),
            claimants: Vec::new(),
        },
        Kind::CoverageSuperseded {
            key: String::new(),
            winner: String::new(),
        },
    ];
    let mut codes: Vec<&str> = kinds.iter().map(Kind::code).collect();
    let count = codes.len();
    codes.sort_unstable();
    codes.dedup();
    assert_eq!(codes.len(), count, "duplicate diagnostic codes: {codes:?}");
}

#[test]
fn a_diagnostic_about_the_run_has_no_site() {
    let diagnostic = Diagnostic::global(Kind::FilterMatchedNothing {
        filter: "crates/gone".to_string(),
    });
    assert_eq!(
        diagnostic.to_string(),
        "warning: --filter crates/gone matched no source file"
    );
    assert_eq!(diagnostic.phase(), Phase::Run);
    assert_eq!(diagnostic.severity(), Severity::Warning);
    assert!(diagnostic.site().is_none());
    assert_eq!(diagnostic.severity().to_string(), "warning");
}

#[test]
fn a_site_is_kept() {
    let diagnostic = Diagnostic::run(Site::at("src/lib.rs", 3, 1), Kind::CoverageAbsent);
    let site = diagnostic.site().unwrap();
    assert_eq!(site, &Site::at("src/lib.rs", 3, 1));
    assert_eq!(site.to_string(), "src/lib.rs:3:1");
    assert_eq!(Site::file("src/lib.rs").to_string(), "src/lib.rs");
    assert_eq!(diagnostic.kind(), &Kind::CoverageAbsent);
    assert_eq!(diagnostic.clone(), diagnostic);
}

#[test]
fn a_declined_module_is_named() {
    let missing = Kind::ModuleFileMissing {
        module: "demo::absent".to_string(),
        candidates: Vec::new(),
    };
    assert_eq!(missing.declined_module(), Some("demo::absent"));
    assert_eq!(Kind::CoverageAbsent.declined_module(), None);
    assert_eq!(Kind::IgnoredTestCommand.declined_module(), None);
}
