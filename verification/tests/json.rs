//! The document of a report.

use crap4rust::coverage::Resolution;
use crap4rust::diagnostic::{Diagnostic, Kind, Site};
use crap4rust::join::{
    Attribution, Figure, Fraction, JoinedFile, JoinedFunction, LineCounts,
};
use crap4rust::json::{
    data, document, functions, warning, CoverageSourceEcho, Datum, Document, Findings, Function,
    Particular, Request, Warning, SCHEMA_VERSION,
};
use crap4rust::runner::CoverageSource;

const VERSION: &str = "0.1.0";

fn crap(cc: u32, cov: f64) -> f64 {
    let cc = f64::from(cc);
    let uncovered = 1.0 - cov;
    cc * cc * uncovered * uncovered * uncovered + cc
}

fn figure(number: f64, shown: f64) -> Figure {
    Figure {
        bits: number.to_bits(),
        text: format!("{shown:.1}"),
    }
}

fn divided(fraction: Fraction) -> f64 {
    fraction.numerator as f64 / fraction.denominator as f64
}

/// A scored function whose counts agree with its fraction: the fixtures use
/// quarters, so `cov` is exactly `covered / 4`.
fn function(
    name: &str,
    file: &str,
    start_line: usize,
    cc: u32,
    cov: Option<f64>,
) -> JoinedFunction {
    lined(
        name,
        file,
        start_line,
        cc,
        cov.map(|c| LineCounts {
            covered: (c * 4.0) as u64,
            total: 4,
        }),
    )
}

/// A function with its line counts stated outright, for where the counts and
/// not the fraction are the point.
fn lined(
    name: &str,
    file: &str,
    start_line: usize,
    cc: u32,
    lines: Option<LineCounts>,
) -> JoinedFunction {
    let cov = lines.map(|lines| divided(lines.fraction()));
    JoinedFunction {
        name: name.to_string(),
        module: "demo".to_string(),
        file: file.to_string(),
        start_line,
        complexity: cc,
        coverage: cov.map(|c| figure(c, c * 100.0)),
        lines,
        crap: cov.map(|c| {
            let score = crap(cc, c);
            figure(score, score)
        }),
    }
}

fn file(path: &str, attribution: Attribution, fns: Vec<JoinedFunction>) -> JoinedFile {
    JoinedFile {
        file: path.to_string(),
        attribution,
        functions: fns,
    }
}

fn exact(path: &str) -> Attribution {
    Attribution::Resolved(Resolution::Exact(path.to_string()))
}

fn suffix(key: &str) -> Attribution {
    Attribution::Resolved(Resolution::Suffix(key.to_string()))
}

fn render(
    files: Vec<JoinedFile>,
    filters: Vec<&str>,
    source: CoverageSourceEcho,
    declined: usize,
    warnings: Vec<Diagnostic>,
) -> Document {
    let filters: Vec<String> = filters.into_iter().map(str::to_string).collect();
    document(&files, VERSION, filters, source, declined, &warnings)
}

fn number(bits: Option<u64>) -> Option<f64> {
    bits.map(f64::from_bits)
}

fn text(key: &'static str, value: &str) -> Datum {
    Datum {
        key,
        value: Particular::Text(value.to_string()),
    }
}

fn list(key: &'static str, values: &[&str]) -> Datum {
    Datum {
        key,
        value: Particular::List(values.iter().map(|value| value.to_string()).collect()),
    }
}

/// The functions are in the order of the table, never in that of the input: the
/// join hands over the order of the walk, and inheriting it would make a detail
/// of the traversal part of the document.
#[test]
fn functions_are_sorted_by_crap_descending_not_by_input_order() {
    let files = vec![file(
        "src/lib.rs",
        exact("src/lib.rs"),
        vec![
            function("low", "src/lib.rs", 1, 1, Some(1.0)),
            function("absent", "src/lib.rs", 20, 9, None),
            function("high", "src/lib.rs", 10, 6, Some(0.0)),
        ],
    )];

    let document = render(files, Vec::new(), CoverageSourceEcho::Provided, 0, vec![]);
    let names: Vec<&str> = document
        .findings
        .functions
        .iter()
        .map(|f| f.name.as_str())
        .collect();

    // high 42.0, low 1.0, absent without a score and so last.
    assert_eq!(names, ["high", "low", "absent"]);
    assert_eq!(number(document.findings.functions[0].crap), Some(42.0));
}

/// The whole of a small document.
#[test]
fn the_document_shape_is_frozen() {
    let files = vec![file(
        "src/lib.rs",
        suffix("crates/demo/src/lib.rs"),
        vec![function("risky", "src/lib.rs", 5, 2, Some(0.5))],
    )];
    let diagnostic = Diagnostic::run(Site::file("src/lib.rs"), Kind::CoverageAbsent);

    let document = render(
        files,
        vec!["crates/demo"],
        CoverageSourceEcho::Generated,
        1,
        vec![diagnostic],
    );

    assert_eq!(
        document,
        Document {
            schema_version: 1,
            request: Request {
                crap4rust_version: VERSION.to_string(),
                filters: vec!["crates/demo".to_string()],
                coverage_source: CoverageSourceEcho::Generated,
            },
            findings: Findings {
                functions: vec![Function {
                    name: "risky".to_string(),
                    module: "demo".to_string(),
                    file: "src/lib.rs".to_string(),
                    start_line: 5,
                    complexity: 2,
                    coverage: Some(0.5f64.to_bits()),
                    covered_lines: Some(2),
                    total_lines: Some(4),
                    crap: Some(2.5f64.to_bits()),
                    coverage_caveat: Some("suffix"),
                }],
                declined_modules: 1,
                warnings: vec![Warning {
                    code: "coverage-absent",
                    severity: "warning".to_string(),
                    phase: "run",
                    file: Some("src/lib.rs".to_string()),
                    line: None,
                    column: None,
                    message: "absent from the coverage profile; its functions report N/A"
                        .to_string(),
                    data: vec![],
                }],
            },
        }
    );
    assert_eq!(SCHEMA_VERSION, 1);
    assert_eq!(document.request.coverage_source.tag(), "generated");
}

/// A whole score and a whole coverage are `30.0` and `1.0`, never `30` and `1`.
#[test]
fn integral_floats_render_with_a_decimal_point() {
    // cov = 1.0 gives a score of the complexity, 30.
    let files = vec![file(
        "src/lib.rs",
        exact("src/lib.rs"),
        vec![function("round", "src/lib.rs", 1, 30, Some(1.0))],
    )];

    let document = render(files, Vec::new(), CoverageSourceEcho::Provided, 0, vec![]);
    let row = &document.findings.functions[0];

    assert_eq!(
        serde_json::to_string(&number(row.coverage)).expect("a number"),
        "1.0"
    );
    assert_eq!(
        serde_json::to_string(&number(row.crap)).expect("a number"),
        "30.0"
    );
}

/// A file that is in the profile with nothing instrumented under the function
/// scores `1.0`, and the counts say why.
#[test]
fn nothing_instrumented_is_full_coverage_over_zero_lines() {
    let files = vec![file(
        "src/lib.rs",
        exact("src/lib.rs"),
        vec![lined(
            "uninstrumented",
            "src/lib.rs",
            1,
            4,
            Some(LineCounts {
                covered: 0,
                total: 0,
            }),
        )],
    )];

    let document = render(files, Vec::new(), CoverageSourceEcho::Provided, 0, vec![]);
    let row = &document.findings.functions[0];

    assert_eq!(number(row.coverage), Some(1.0));
    assert_eq!(row.covered_lines, Some(0));
    assert_eq!(row.total_lines, Some(0));
}

/// A file that is absent has no ratio and no counts: `0` would claim that zero
/// instrumented lines were counted, which is a different statement.
#[test]
fn an_unattributed_row_has_no_ratio_and_no_counts() {
    let files = vec![file(
        "src/lib.rs",
        Attribution::Resolved(Resolution::Unresolved),
        vec![lined("absent", "src/lib.rs", 1, 4, None)],
    )];

    let document = render(files, Vec::new(), CoverageSourceEcho::Provided, 0, vec![]);
    let row = &document.findings.functions[0];

    assert_eq!(row.coverage, None);
    assert_eq!(row.crap, None);
    assert_eq!(row.covered_lines, None);
    assert_eq!(row.total_lines, None);
}

/// Rows that agree on score and name are still ordered, by file and then line.
/// The order of the input is the reverse of the expected one.
#[test]
fn rows_with_equal_crap_and_equal_name_are_ordered_by_c15_identity() {
    let files = vec![
        file(
            "src/z.rs",
            exact("src/z.rs"),
            vec![
                function("new", "src/z.rs", 20, 2, Some(0.5)),
                function("new", "src/z.rs", 10, 2, Some(0.5)),
            ],
        ),
        file(
            "src/a.rs",
            exact("src/a.rs"),
            vec![function("new", "src/a.rs", 30, 2, Some(0.5))],
        ),
    ];

    let document = render(files, Vec::new(), CoverageSourceEcho::Provided, 0, vec![]);
    let identity: Vec<(&str, usize)> = document
        .findings
        .functions
        .iter()
        .map(|f| (f.file.as_str(), f.start_line))
        .collect();

    assert_eq!(
        identity,
        [("src/a.rs", 30), ("src/z.rs", 10), ("src/z.rs", 20)]
    );
}

/// A document with no rows still says why: the warnings name the modules and
/// the count counts them.
#[test]
fn an_empty_report_still_describes_why_it_is_empty() {
    let diagnostic = Diagnostic::run(
        Site::file("src/lib.rs"),
        Kind::ModulePathConditional {
            module: "demo::imp".to_string(),
            attribute: "#[cfg_attr(windows, path = \"windows.rs\")]".to_string(),
        },
    );

    let document = render(
        vec![],
        Vec::new(),
        CoverageSourceEcho::Generated,
        1,
        vec![diagnostic],
    );

    assert!(document.findings.functions.is_empty());
    assert_eq!(document.findings.declined_modules, 1);
    assert_eq!(
        document.findings.warnings[0].code,
        "module-path-conditional"
    );
}

/// The five caveats reach the rows, and an exact match has none. They come from
/// the attribution that the rows sit under.
#[test]
fn each_row_carries_its_files_caveat() {
    let files = vec![
        file(
            "a.rs",
            exact("a.rs"),
            vec![function("a", "a.rs", 1, 1, Some(1.0))],
        ),
        file(
            "b.rs",
            suffix("x/b.rs"),
            vec![function("b", "b.rs", 1, 1, Some(1.0))],
        ),
        file(
            "c.rs",
            Attribution::Resolved(Resolution::Unresolved),
            vec![function("c", "c.rs", 1, 1, None)],
        ),
        file(
            "d.rs",
            Attribution::Resolved(Resolution::Ambiguous(vec![
                "x/d.rs".to_string(),
                "y/d.rs".to_string(),
            ])),
            vec![function("d", "d.rs", 1, 1, None)],
        ),
        file(
            "e.rs",
            Attribution::Collision {
                key: "e.rs".to_string(),
                sources: vec!["e.rs".to_string(), "x/e.rs".to_string()],
            },
            vec![function("e", "e.rs", 1, 1, None)],
        ),
        file(
            "f.rs",
            Attribution::Superseded {
                key: "f.rs".to_string(),
                winner: "x/f.rs".to_string(),
            },
            vec![function("f", "f.rs", 1, 1, None)],
        ),
    ];

    let document = render(files, Vec::new(), CoverageSourceEcho::Provided, 0, vec![]);
    let caveat = |name: &str| {
        document
            .findings
            .functions
            .iter()
            .find(|f| f.name == name)
            .expect("a row")
            .coverage_caveat
    };

    assert_eq!(caveat("a"), None);
    assert_eq!(caveat("b"), Some("suffix"));
    assert_eq!(caveat("c"), Some("absent"));
    assert_eq!(caveat("d"), Some("ambiguous"));
    assert_eq!(caveat("e"), Some("contested"));
    assert_eq!(caveat("f"), Some("superseded"));
}

/// Codes are what consumers branch on: they may be added to and are never
/// renamed.
#[test]
fn every_diagnostic_code_is_byte_locked() {
    let codes: Vec<&str> = all_kinds()
        .into_iter()
        .map(|kind| Diagnostic::global(kind).code())
        .collect();
    assert_eq!(
        codes,
        [
            "ignored-test-command",
            "test-command-without-lcov-token",
            "module-file-missing",
            "module-file-ambiguous",
            "module-path-conditional",
            "coverage-suffix-match",
            "coverage-ambiguous",
            "coverage-absent",
            "coverage-contested",
            "coverage-superseded",
            "filter-matched-nothing",
        ]
    );
}

/// Every kind makes a warning, with its words and where it points.
#[test]
fn every_kind_renders_a_warning_with_its_particulars() {
    for kind in all_kinds() {
        let message = kind.to_string();
        let diagnostic = Diagnostic::run(Site::at("src/lib.rs", 2, 5), kind);
        let document = render(
            vec![],
            Vec::new(),
            CoverageSourceEcho::Provided,
            0,
            vec![diagnostic],
        );
        let warning = &document.findings.warnings[0];

        assert_eq!(warning.severity, "warning");
        assert_eq!(warning.phase, "run");
        assert_eq!(warning.file.as_deref(), Some("src/lib.rs"));
        assert_eq!(warning.line, Some(2));
        assert_eq!(warning.column, Some(5));
        assert_eq!(warning.message, message);
    }
}

/// A winner that has no row is a correct outcome: attribution is settled over
/// the whole workspace, while the rows are narrowed.
#[test]
fn a_cross_reference_may_name_a_file_with_no_row() {
    let diagnostic = Diagnostic::run(
        Site::file("crates/beta/src/lib.rs"),
        Kind::CoverageSuperseded {
            key: "src/lib.rs".to_string(),
            winner: "crates/alpha/src/lib.rs".to_string(),
        },
    );
    let files = vec![file(
        "crates/beta/src/lib.rs",
        Attribution::Superseded {
            key: "src/lib.rs".to_string(),
            winner: "crates/alpha/src/lib.rs".to_string(),
        },
        vec![function("beta", "crates/beta/src/lib.rs", 1, 1, None)],
    )];

    let document = render(
        files,
        vec!["crates/beta"],
        CoverageSourceEcho::Provided,
        0,
        vec![diagnostic],
    );

    let winner = document.findings.warnings[0]
        .data
        .iter()
        .find(|datum| datum.key == "winner")
        .expect("a winner");
    assert_eq!(winner, &text("winner", "crates/alpha/src/lib.rs"));
    let rows: Vec<&str> = document
        .findings
        .functions
        .iter()
        .map(|f| f.file.as_str())
        .collect();
    assert_eq!(rows, ["crates/beta/src/lib.rs"]);
}

/// The number of declined modules is there even when nothing was declined.
#[test]
fn the_document_carries_declined_modules_and_no_row_count() {
    let document = render(vec![], Vec::new(), CoverageSourceEcho::Provided, 0, vec![]);
    assert_eq!(document.findings.declined_modules, 0);
    assert!(document.findings.functions.is_empty());
    assert_eq!(document.request.coverage_source.tag(), "provided");
}

#[test]
fn every_kind_has_its_particulars_by_ascending_key() {
    let kinds = all_kinds();
    let expected: Vec<Vec<Datum>> = vec![
        vec![],
        vec![
            text("artifact", "target/crap4rust/coverage.lcov"),
            text("token", "{lcov}"),
        ],
        vec![
            list("candidates", &["src/absent.rs"]),
            text("module", "demo::absent"),
        ],
        vec![
            text("analysed", "src/foo.rs"),
            list("candidates", &["src/foo.rs", "src/foo/mod.rs"]),
            text("module", "demo::foo"),
        ],
        vec![
            text(
                "attribute",
                "#[cfg_attr(windows, path = \"windows.rs\")]",
            ),
            text("module", "demo::imp"),
        ],
        vec![text("key", "src/lib.rs")],
        vec![list("keys", &["a/src/lib.rs", "b/src/lib.rs"])],
        vec![],
        vec![
            list("claimants", &["a/src/lib.rs", "b/src/lib.rs"]),
            text("key", "src/lib.rs"),
        ],
        vec![text("key", "src/lib.rs"), text("winner", "a/src/lib.rs")],
        vec![text("filter", "crates/gone")],
    ];
    for (kind, expected) in kinds.iter().zip(expected) {
        assert_eq!(data(kind), expected, "{kind:?}");
    }
}

#[test]
fn a_warning_about_the_arguments_has_no_place() {
    let said = warning(&Diagnostic::config(Kind::IgnoredTestCommand));
    assert_eq!(said.phase, "config");
    assert_eq!(said.file, None);
    assert_eq!(said.line, None);
    assert_eq!(said.column, None);
}

#[test]
fn the_echo_follows_the_source() {
    let (given, _) = CoverageSource::resolve(Some("mine.lcov".to_string()), None);
    assert_eq!(
        CoverageSourceEcho::of(&given),
        CoverageSourceEcho::Provided
    );
    let (made, _) = CoverageSource::resolve(None, None);
    assert_eq!(
        CoverageSourceEcho::of(&made),
        CoverageSourceEcho::Generated
    );
}

#[test]
fn no_file_makes_no_function() {
    assert!(functions(&vec![]).is_empty());
}

/// One of every kind, in `code()` order.
fn all_kinds() -> Vec<Kind> {
    vec![
        Kind::IgnoredTestCommand,
        Kind::TestCommandWithoutLcovToken {
            token: "{lcov}",
            artifact: "target/crap4rust/coverage.lcov".to_string(),
        },
        Kind::ModuleFileMissing {
            module: "demo::absent".to_string(),
            candidates: vec!["src/absent.rs".to_string()],
        },
        Kind::ModuleFileAmbiguous {
            module: "demo::foo".to_string(),
            candidates: vec!["src/foo.rs".to_string(), "src/foo/mod.rs".to_string()],
            analysed: "src/foo.rs".to_string(),
        },
        Kind::ModulePathConditional {
            module: "demo::imp".to_string(),
            attribute: "#[cfg_attr(windows, path = \"windows.rs\")]".to_string(),
        },
        Kind::CoverageSuffixMatch {
            key: "src/lib.rs".to_string(),
        },
        Kind::CoverageAmbiguous {
            keys: vec!["a/src/lib.rs".to_string(), "b/src/lib.rs".to_string()],
        },
        Kind::CoverageAbsent,
        Kind::CoverageContested {
            key: "src/lib.rs".to_string(),
            claimants: vec!["a/src/lib.rs".to_string(), "b/src/lib.rs".to_string()],
        },
        Kind::CoverageSuperseded {
            key: "src/lib.rs".to_string(),
            winner: "a/src/lib.rs".to_string(),
        },
        Kind::FilterMatchedNothing {
            filter: "crates/gone".to_string(),
        },
    ]
}
