//! What was asked for, and how a run is put together.

use clap::{Arg, ArgAction, ArgMatches, Command};
use crap4rust::cli::{
    attribution_diagnostics, declined, measure, retain_selected, scope_to_filters, Caveats, Cli,
    RunConfig,
};
use crap4rust::coverage::Resolution;
use crap4rust::diagnostic::{Diagnostic, Kind, Site};
use crap4rust::filter::Filters;
use crap4rust::join::{Attribution, JoinedFile};
use crap4rust::modgraph::Module;
use crap4rust::syntax::parse_source;

/// The arguments of the program.
fn command() -> Command {
    Command::new("crap4rust")
        .arg(Arg::new("lcov-path").long("lcov-path"))
        .arg(Arg::new("test-command").long("test-command"))
        .arg(Arg::new("filter").long("filter").action(ArgAction::Append))
        .arg(Arg::new("path").required(true))
}

fn text(matches: &ArgMatches, name: &str) -> Option<String> {
    matches.get_one::<String>(name).cloned()
}

fn try_parse(args: &[&str]) -> Option<Cli> {
    let matches = command().try_get_matches_from(args).ok()?;
    Some(Cli {
        lcov_path: text(&matches, "lcov-path"),
        test_command: text(&matches, "test-command"),
        filter: matches
            .get_many::<String>("filter")
            .map(|values| values.cloned().collect())
            .unwrap_or_default(),
        path: text(&matches, "path").expect("a path"),
    })
}

/// Builds a config from plain inputs, without a parser.
fn config(path: &str, lcov_path: Option<&str>, test_command: Option<&str>) -> RunConfig {
    RunConfig::new(
        path.to_string(),
        lcov_path.map(str::to_string),
        test_command,
        &Vec::new(),
    )
}

/// Each diagnostic as it is shown.
fn rendered(diagnostics: &[Diagnostic]) -> Vec<String> {
    diagnostics.iter().map(Diagnostic::to_string).collect()
}

#[test]
fn parsed_arguments_resolve_the_same_way_as_plain_inputs() {
    let cli = try_parse(&["crap4rust", "--test-command", "my-tool --out {lcov}", "src"])
        .expect("valid arguments");
    let from_parser = RunConfig::from(&cli);
    let from_plain = config("src", None, Some("my-tool --out {lcov}"));
    assert_eq!(from_parser.coverage(), from_plain.coverage());
    assert_eq!(from_parser.diagnostics(), from_plain.diagnostics());
    assert_eq!(from_parser.path(), from_plain.path());
    assert_eq!(from_parser.filters(), from_plain.filters());
}

/// The positional argument locates the workspace and nothing else. Filters are
/// a flag that may be repeated, and a second positional is an error.
#[test]
fn filters_are_a_repeatable_flag_not_the_positional() {
    let cli = try_parse(&[
        "crap4rust",
        "--filter",
        "crates/alpha",
        "--filter",
        "crates/beta",
        ".",
    ])
    .expect("valid arguments");
    let resolved = RunConfig::from(&cli);
    assert_eq!(resolved.path(), ".");
    assert_eq!(
        resolved.filters(),
        &Filters::new(&vec!["crates/alpha".to_string(), "crates/beta".to_string()])
    );

    assert!(try_parse(&["crap4rust", "crates/alpha", "crates/beta"]).is_none());
    assert!(config("crates/alpha", None, None).filters().is_empty());
}

/// The notice is a fact about the *artifact*, so it is on the artifact
/// — and it says how many, so an incomplete report cannot be mistaken for a
/// complete one. One module is not "1 modules".
#[test]
fn the_declined_notice_agrees_with_itself_in_number() {
    let declined = |declined| Caveats { rows: 1, declined }.render();
    assert_eq!(declined(1), "\n1 module not analysed (see stderr)\n");
    assert_eq!(declined(3), "\n3 modules not analysed (see stderr)\n");
}

/// An empty report says so on the artifact, in one shape, whatever
/// emptied it — and a complete, non-empty report says nothing at all, so
/// the happy path is byte for byte the table.
#[test]
fn the_caveats_block_is_one_block_and_is_empty_when_there_is_nothing_to_say() {
    assert_eq!(
        Caveats {
            rows: 0,
            declined: 0
        }
        .render(),
        "\nno functions reported\n"
    );
    // Both conditions at once are one block, not two trailers.
    assert_eq!(
        Caveats {
            rows: 0,
            declined: 2
        }
        .render(),
        "\nno functions reported\n2 modules not analysed (see stderr)\n"
    );
    assert_eq!(
        Caveats {
            rows: 3,
            declined: 0
        }
        .render(),
        ""
    );
}

/// Only declined work is counted: a module that is not in the report at all.
/// A coverage miss is not one — those functions are reported, with N/A.
#[test]
fn only_declined_work_is_counted_for_the_notice() {
    let diagnostics = vec![
        Diagnostic::run(
            Site::at("src/lib.rs", 1, 1),
            Kind::ModuleFileMissing {
                module: "demo::absent".to_string(),
                candidates: Vec::new(),
            },
        ),
        Diagnostic::run(Site::file("src/lib.rs"), Kind::CoverageAbsent),
    ];
    assert_eq!(declined(&diagnostics, 0), 1);
}

/// The notice counts **distinct modules**, not diagnostics. Two
/// mutually exclusive declarations of one module are two lines on stderr —
/// both worth printing, they name different sites — but exactly one module
/// missing from the report, and the artifact says how many *modules*.
#[test]
fn two_declarations_of_one_module_are_one_declined_module() {
    let missing = |line| {
        Diagnostic::run(
            Site::at("src/lib.rs", line, 1),
            Kind::ModuleFileMissing {
                module: "demo::imp".to_string(),
                candidates: Vec::new(),
            },
        )
    };
    let diagnostics = vec![missing(2), missing(5)];
    assert_eq!(diagnostics.len(), 2);
    assert_eq!(declined(&diagnostics, 0), 1);
}

/// A narrowed report must not trail diagnostics about code it never
/// claimed to cover — and those diagnostics must not be counted by the
/// notice on it either. A site-less diagnostic is about the run as a whole
/// and stays regardless.
#[test]
fn filtered_out_files_take_their_diagnostics_with_them() {
    let mut diagnostics = vec![
        Diagnostic::run(Site::file("crates/alpha/src/lib.rs"), Kind::CoverageAbsent),
        Diagnostic::run(
            Site::at("crates/beta/src/lib.rs", 1, 1),
            Kind::ModuleFileMissing {
                module: "beta::absent".to_string(),
                candidates: Vec::new(),
            },
        ),
        Diagnostic::global(Kind::FilterMatchedNothing {
            filter: "crates/gone".to_string(),
        }),
    ];

    scope_to_filters(
        &Filters::new(&vec!["crates/alpha".to_string()]),
        &mut diagnostics,
        0,
    );

    assert_eq!(diagnostics.len(), 2, "{:?}", rendered(&diagnostics));
    assert!(diagnostics[0].to_string().contains("crates/alpha"));
    assert!(diagnostics[1].to_string().contains("crates/gone"));
    assert_eq!(declined(&diagnostics, 0), 0);
}

#[test]
fn exact_resolutions_produce_no_diagnostics() {
    let diags = attribution_diagnostics(&vec![(
        "src/lib.rs".to_string(),
        Attribution::Resolved(Resolution::Exact("src/lib.rs".to_string())),
    )]);
    assert!(diags.is_empty(), "{diags:?}");
}

#[test]
fn suffix_and_unresolved_resolutions_produce_one_diagnostic_each() {
    let diags = rendered(&attribution_diagnostics(&vec![
        (
            "src/lib.rs".to_string(),
            Attribution::Resolved(Resolution::Exact("src/lib.rs".to_string())),
        ),
        (
            "src/fuzzy.rs".to_string(),
            Attribution::Resolved(Resolution::Suffix("crates/demo/src/fuzzy.rs".to_string())),
        ),
        (
            "src/gone.rs".to_string(),
            Attribution::Resolved(Resolution::Unresolved),
        ),
    ]));

    assert_eq!(diags.len(), 2, "{diags:?}");
    assert!(diags[0].contains("src/fuzzy.rs"), "{}", diags[0]);
    assert!(
        diags[0].contains("crates/demo/src/fuzzy.rs"),
        "{}",
        diags[0]
    );
    assert!(diags[1].contains("src/gone.rs"), "{}", diags[1]);
    assert!(diags[1].contains("N/A"), "{}", diags[1]);
}

/// A claim that lost to an exact match is still diagnosed, and says
/// *where* the record went — "absent from the coverage profile" would be a
/// lie, the record exists and belongs to a named file.
#[test]
fn a_superseded_claim_names_the_record_and_its_winner() {
    let diags = rendered(&attribution_diagnostics(&vec![(
        "crates/beta/src/lib.rs".to_string(),
        Attribution::Superseded {
            key: "src/lib.rs".to_string(),
            winner: "src/lib.rs".to_string(),
        },
    )]));

    assert_eq!(diags.len(), 1, "{diags:?}");
    assert!(
        diags[0].contains(
            "crates/beta/src/lib.rs: LCOV entry src/lib.rs matches src/lib.rs exactly"
        ),
        "{}",
        diags[0]
    );
    assert!(diags[0].contains("N/A"), "{}", diags[0]);
}

/// A tie must be *actionable* — "ambiguous, good luck" is worse
/// than no warning, so the diagnostic names every tied candidate.
#[test]
fn an_ambiguous_resolution_names_the_tied_candidates() {
    let diags = rendered(&attribution_diagnostics(&vec![(
        "src/lib.rs".to_string(),
        Attribution::Resolved(Resolution::Ambiguous(vec![
            "crates/alpha/src/lib.rs".to_string(),
            "crates/beta/src/lib.rs".to_string(),
        ])),
    )]));

    assert_eq!(diags.len(), 1, "{diags:?}");
    assert!(diags[0].contains("ambiguous"), "{}", diags[0]);
    assert!(diags[0].contains("crates/alpha/src/lib.rs"), "{}", diags[0]);
    assert!(diags[0].contains("crates/beta/src/lib.rs"), "{}", diags[0]);
    assert!(diags[0].contains("N/A"), "{}", diags[0]);
}

/// A contested LCOV record must name the record *and* every
/// source file claiming it — the many-to-one mapping is what has to be
/// fixed, and neither claimant can be identified from its own line alone.
#[test]
fn a_collision_names_the_contested_key_and_every_claimant() {
    let sources = vec![
        "src/lib.rs".to_string(),
        "crates/beta/src/lib.rs".to_string(),
    ];
    let diags = rendered(&attribution_diagnostics(&vec![
        (
            "src/lib.rs".to_string(),
            Attribution::Collision {
                key: "src/lib.rs".to_string(),
                sources: sources.clone(),
            },
        ),
        (
            "crates/beta/src/lib.rs".to_string(),
            Attribution::Collision {
                key: "src/lib.rs".to_string(),
                sources,
            },
        ),
    ]));

    assert_eq!(diags.len(), 2, "{diags:?}");
    for diag in &diags {
        // The claimant list is asserted whole: checking for `src/lib.rs`
        // alone would be satisfied by the contested LCOV key of the same
        // name, so neither claimant would actually be required.
        assert!(
            diag.contains(
                "LCOV entry src/lib.rs is claimed by src/lib.rs, crates/beta/src/lib.rs"
            ),
            "{diag}"
        );
        assert!(diag.contains("N/A"), "{diag}");
    }
}

#[test]
fn a_given_profile_is_resolved_with_its_advice() {
    let resolved = config("src", Some("mine.lcov"), Some("my-tool"));
    assert_eq!(resolved.coverage().lcov_path(), "mine.lcov");
    assert_eq!(
        rendered(resolved.diagnostics()),
        vec!["warning: --lcov-path given; --test-command ignored, no coverage command was run"]
    );
}

#[test]
fn what_was_said_before_discovery_is_not_scoped() {
    let mut diagnostics = vec![
        Diagnostic::run(Site::file("crates/beta/src/lib.rs"), Kind::CoverageAbsent),
        Diagnostic::run(Site::file("crates/beta/src/lib.rs"), Kind::CoverageAbsent),
    ];
    scope_to_filters(
        &Filters::new(&vec!["crates/alpha".to_string()]),
        &mut diagnostics,
        1,
    );
    assert_eq!(diagnostics.len(), 1);
    scope_to_filters(&Filters::new(&Vec::new()), &mut diagnostics, 0);
    assert_eq!(diagnostics.len(), 1);
}

#[test]
fn declined_modules_are_counted_from_a_place_on() {
    let missing = |module: &str| {
        Diagnostic::run(
            Site::file("src/lib.rs"),
            Kind::ModuleFileMissing {
                module: module.to_string(),
                candidates: Vec::new(),
            },
        )
    };
    let diagnostics = vec![missing("a"), missing("b"), missing("b"), missing("c")];
    assert_eq!(declined(&diagnostics, 0), 3);
    assert_eq!(declined(&diagnostics, 2), 2);
    assert_eq!(declined(&diagnostics, 4), 0);
}

#[test]
fn files_that_are_not_selected_are_dropped() {
    let file = |path: &str| JoinedFile {
        file: path.to_string(),
        attribution: Attribution::Resolved(Resolution::Unresolved),
        functions: Vec::new(),
    };
    let kept = retain_selected(
        vec![file("a/x.rs"), file("b/y.rs"), file("a/z.rs")],
        &Filters::new(&vec!["a".to_string()]),
    );
    let paths: Vec<&str> = kept.iter().map(|file| file.file.as_str()).collect();
    assert_eq!(paths, vec!["a/x.rs", "a/z.rs"]);
    let kept = retain_selected(vec![file("a/x.rs")], &Filters::new(&Vec::new()));
    assert_eq!(kept.len(), 1);
}

#[test]
fn a_test_file_yields_no_unit() {
    let file = parse_source("fn f() {}\nmod m { fn g(x: bool) { if x {} } }\n").expect("parses");
    let module = |test_only: bool| Module {
        module: "demo".to_string(),
        file: "/w/src/lib.rs".to_string(),
        test_only,
    };
    let unit = measure(&module(false), "src/lib.rs", &file)
        .expect("measurable")
        .expect("a unit");
    assert_eq!(unit.module, "demo");
    assert_eq!(unit.path, "src/lib.rs");
    let found: Vec<(&str, u32)> = unit
        .functions
        .iter()
        .map(|f| (f.name.as_str(), f.complexity))
        .collect();
    assert_eq!(found, vec![("f", 1), ("g", 2)]);
    assert!(measure(&module(true), "src/lib.rs", &file)
        .expect("measurable")
        .is_none());
}
