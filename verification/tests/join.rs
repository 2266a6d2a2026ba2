//! Measured functions joined with line coverage.

use crap4rust::complexity::{analyze_str, FunctionComplexity};
use crap4rust::coverage::{parse_lcov, Resolution};
use crap4rust::filter::Filters;
use crap4rust::join::{
    join, query_key, Attribution, Caveat, Figure, Figures, Fraction,
    JoinResult, JoinedFunction, LineCounts, SourceUnit,
};

fn crap(cc: u32, cov: f64) -> f64 {
    let cc = f64::from(cc);
    let uncovered = 1.0 - cov;
    cc * cc * uncovered * uncovered * uncovered + cc
}

fn figure(number: f64, shown: f64) -> Figure {
    Figure {
        bits: number.to_bits(),
        text: format!("{shown:.1}"),
    }
}

fn score(cc: u32, cov: Option<f64>) -> Option<f64> {
    cov.map(|fraction| crap(cc, fraction))
}

fn divided(fraction: Fraction) -> f64 {
    fraction.numerator as f64 / fraction.denominator as f64
}

fn figures(cc: u32, fraction: Fraction) -> Figures {
    let coverage = divided(fraction);
    let score = crap(cc, coverage);
    Figures {
        coverage: figure(coverage, coverage * 100.0),
        crap: figure(score, score),
    }
}

fn number(figure: &Option<Figure>) -> Option<f64> {
    figure.as_ref().map(|figure| f64::from_bits(figure.bits))
}

const SRC: &str = "\
fn simple() -> i32 {
    let mut n = 0;
    n += 1;
    n
}

fn branchy(x: i32) -> i32 {
    match x {
        0 => 0,
        _ => 1,
    }
}
";

const LCOV: &str = "\
SF:src/demo.rs
DA:2,1
DA:3,4
DA:8,1
DA:9,2
DA:10,0
DA:11,0
end_of_record
";

const FIXTURE: &str = "\
SF:src/lib.rs
DA:10,1
DA:11,4
DA:12,0
DA:13,0
DA:20,5
DA:21,3
end_of_record
";

fn fc(name: &str, complexity: u32, start_line: usize, end_line: usize) -> FunctionComplexity {
    FunctionComplexity {
        name: name.to_string(),
        modules: Vec::new(),
        complexity,
        start_line,
        end_line,
    }
}

fn unit(path: &str, functions: Vec<FunctionComplexity>) -> SourceUnit {
    SourceUnit {
        module: "demo".to_string(),
        path: path.to_string(),
        functions,
    }
}

/// Every joined function, files in input order — the flattened view the
/// reporters see. The join groups functions under the file whose
/// attribution scored them, so the flat list is a projection.
fn functions<'a>(result: &'a JoinResult) -> Vec<&'a JoinedFunction> {
    result
        .files
        .iter()
        .flat_map(|file| file.functions.iter())
        .collect()
}

/// The `(file, attribution)` pairs, in input order.
fn attributions(result: &JoinResult) -> Vec<(String, Attribution)> {
    result
        .files
        .iter()
        .map(|file| (file.file.clone(), file.attribution.clone()))
        .collect()
}

fn join_one(file: &str, fc: FunctionComplexity) -> JoinedFunction {
    let lcov = parse_lcov(FIXTURE).expect("valid fixture");
    let mut out: Vec<JoinedFunction> = join(&lcov, &vec![unit(file, vec![fc])], &figures)
        .files
        .into_iter()
        .flat_map(|file| file.functions)
        .collect();
    assert_eq!(out.len(), 1);
    out.pop().unwrap()
}

#[test]
fn partial_coverage_is_fraction_and_crap_via_score() {
    // 2 of 4 instrumented lines hit ⇒ 0.5.
    let j = join_one("src/lib.rs", fc("partial", 2, 10, 13));
    assert_eq!(number(&j.coverage), Some(0.5));
    assert_eq!(number(&j.crap), score(2, Some(0.5)));
}

#[test]
fn zero_coverage_is_zero() {
    // Lines 12,13 both uncovered ⇒ 0 of 2 ⇒ 0.0.
    let j = join_one("src/lib.rs", fc("zero", 3, 12, 13));
    assert_eq!(number(&j.coverage), Some(0.0));
    assert_eq!(number(&j.crap), score(3, Some(0.0)));
}

#[test]
fn full_coverage_is_one() {
    // Lines 20,21 both hit ⇒ 2 of 2 ⇒ 1.0.
    let j = join_one("src/lib.rs", fc("full", 4, 20, 21));
    assert_eq!(number(&j.coverage), Some(1.0));
    assert_eq!(number(&j.crap), score(4, Some(1.0)));
}

#[test]
fn file_absent_is_none_and_unscored() {
    // File not present in the LCOV profile ⇒ N/A, unscored.
    let j = join_one("src/other.rs", fc("absent", 7, 10, 13));
    assert_eq!(number(&j.coverage), None);
    assert_eq!(number(&j.crap), None);
}

/// The display path and the LCOV query are two different jobs. A
/// member above the workspace root must keep its `..` identity and
/// must still find its coverage: `suffix_overlap` compares whole segments,
/// and no absolute LCOV key ends with a literal `".."`, so
/// the display path itself would find nothing.
#[test]
fn an_out_of_root_path_queries_without_its_dot_dot_segments() {
    assert_eq!(query_key("src/lib.rs"), "src/lib.rs");
    assert_eq!(query_key("../shared/tool.rs"), "shared/tool.rs");
    assert_eq!(query_key("../../x/src/lib.rs"), "x/src/lib.rs");

    let lcov = parse_lcov("SF:/build/proj/shared/tool.rs\nDA:10,1\nend_of_record\n")
        .expect("valid lcov");
    let units = vec![unit("../shared/tool.rs", vec![fc("f", 1, 10, 10)])];
    let result = join(&lcov, &units, &figures);

    assert_eq!(number(&functions(&result)[0].coverage), Some(1.0));
    // The identity it is reported and diagnosed by is unchanged.
    assert_eq!(functions(&result)[0].file, "../shared/tool.rs");
    assert_eq!(attributions(&result)[0].0, "../shared/tool.rs");
}

/// The two path jobs meet: `--filter` matches the **display identity**
/// while the LCOV query is derived from it, so an
/// out-of-root member is filterable by the directory it actually lives in
/// *and* still resolves its coverage. A filter written against the query
/// key — `--filter shared` — must select it too; the `..` segments belong
/// to neither job's vocabulary.
#[test]
fn an_out_of_root_path_is_filterable_by_the_segments_it_is_queried_by() {
    let path = "../shared/tool.rs";
    let filters = |fragment: &str| Filters::new(&vec![fragment.to_string()]);

    assert!(filters("shared").select(path).is_selected());
    assert!(filters("shared/tool.rs")
        .select(&query_key(path))
        .is_selected());
    // The `..` is part of the identity, so it is matchable — but it is not
    // part of the query, and a fragment naming a directory that is not
    // there still selects nothing.
    assert!(filters("..").select(path).is_selected());
    assert!(!filters("..").select(&query_key(path)).is_selected());
    assert!(!filters("workspace/shared").select(path).is_selected());
}

#[test]
fn the_crate_qualified_module_is_carried_through() {
    // The Module string is derived upstream and only carried
    // here — the join never looks at the file path to invent one.
    let lcov = parse_lcov(FIXTURE).expect("valid fixture");
    let units = vec![SourceUnit {
        module: "alpha::foo".to_string(),
        path: "crates/alpha/src/foo.rs".to_string(),
        functions: vec![fc("f", 1, 10, 13)],
    }];
    let result = join(&lcov, &units, &figures);
    let joined = functions(&result);
    assert_eq!(joined[0].module, "alpha::foo");
    assert_eq!(joined[0].file, "crates/alpha/src/foo.rs");
}

#[test]
fn an_ambiguous_path_is_unscored_and_reported() {
    // Two members' keys match the query equally well, so there is
    // no defensible coverage to report — N/A, plus the tie as data.
    let lcov = parse_lcov(
        "SF:crates/alpha/src/lib.rs\nDA:10,1\nend_of_record\n\
         SF:crates/beta/src/lib.rs\nDA:10,0\nend_of_record\n",
    )
    .expect("valid fixture");
    let result = join(&lcov, &vec![unit("src/lib.rs", vec![fc("f", 3, 10, 13)])], &figures);

    assert_eq!(number(&functions(&result)[0].coverage), None);
    assert_eq!(number(&functions(&result)[0].crap), None);
    assert_eq!(
        attributions(&result),
        vec![(
            "src/lib.rs".to_string(),
            Attribution::Resolved(Resolution::Ambiguous(vec![
                "crates/alpha/src/lib.rs".to_string(),
                "crates/beta/src/lib.rs".to_string(),
            ]))
        )]
    );
}

/// The many-to-one case that `resolve_path` cannot see: a single LCOV
/// record and two members whose paths both resolve to it *by suffix*. Each
/// query has exactly one candidate, so neither is *ambiguous* — yet the
/// record can describe only one of them, and nothing says which. Both must
/// be N/A.
#[test]
fn one_lcov_record_claimed_by_two_sources_is_a_collision_and_unscored() {
    let lcov = parse_lcov("SF:src/lib.rs\nDA:10,1\nend_of_record\n").expect("valid fixture");
    let units = vec![
        SourceUnit {
            module: "alpha".to_string(),
            path: "crates/alpha/src/lib.rs".to_string(),
            functions: vec![fc("alpha_one", 2, 10, 13)],
        },
        SourceUnit {
            module: "beta".to_string(),
            path: "crates/beta/src/lib.rs".to_string(),
            functions: vec![fc("beta_one", 1, 10, 13)],
        },
    ];
    let result = join(&lcov, &units, &figures);

    for joined in functions(&result) {
        assert_eq!(number(&joined.coverage), None, "{} was scored", joined.name);
        assert_eq!(number(&joined.crap), None, "{} was scored", joined.name);
    }
    let sources = vec![
        "crates/alpha/src/lib.rs".to_string(),
        "crates/beta/src/lib.rs".to_string(),
    ];
    assert_eq!(
        attributions(&result),
        vec![
            (
                "crates/alpha/src/lib.rs".to_string(),
                Attribution::Collision {
                    key: "src/lib.rs".to_string(),
                    sources: sources.clone(),
                }
            ),
            (
                "crates/beta/src/lib.rs".to_string(),
                Attribution::Collision {
                    key: "src/lib.rs".to_string(),
                    sources,
                }
            ),
        ]
    );
}

/// The claims on a contested record are not always symmetric. One
/// claimant whose path *is* the record's key has evidence the other, which
/// merely shares a suffix with it, does not — so the exact claimant is
/// scored and the suffix claimant is superseded (still diagnosed, still
/// N/A).
#[test]
fn a_single_exact_claimant_wins_a_contested_record() {
    let lcov = parse_lcov("SF:src/lib.rs\nDA:10,1\nend_of_record\n").expect("valid fixture");
    let units = vec![
        SourceUnit {
            module: "alpha".to_string(),
            path: "src/lib.rs".to_string(),
            functions: vec![fc("alpha_one", 2, 10, 13)],
        },
        SourceUnit {
            module: "beta".to_string(),
            path: "crates/beta/src/lib.rs".to_string(),
            functions: vec![fc("beta_one", 1, 10, 13)],
        },
    ];
    let result = join(&lcov, &units, &figures);

    assert_eq!(number(&functions(&result)[0].coverage), Some(1.0));
    assert_eq!(number(&functions(&result)[1].coverage), None);
    assert_eq!(number(&functions(&result)[1].crap), None);
    assert_eq!(
        attributions(&result),
        vec![
            (
                "src/lib.rs".to_string(),
                Attribution::Resolved(Resolution::Exact("src/lib.rs".to_string()))
            ),
            (
                "crates/beta/src/lib.rs".to_string(),
                Attribution::Superseded {
                    key: "src/lib.rs".to_string(),
                    winner: "src/lib.rs".to_string(),
                }
            ),
        ]
    );
}

/// Two exact claimants rank equally, so the record
/// is still attributed to neither. Reachable because normalization maps
/// distinct spellings onto one key — `./src/lib.rs` and `src/lib.rs` are
/// two source files as far as the join is concerned.
#[test]
fn two_exact_claimants_stay_a_collision() {
    let lcov = parse_lcov("SF:src/lib.rs\nDA:10,1\nend_of_record\n").expect("valid fixture");
    let units = vec![
        SourceUnit {
            module: "alpha".to_string(),
            path: "src/lib.rs".to_string(),
            functions: vec![fc("alpha_one", 2, 10, 13)],
        },
        SourceUnit {
            module: "beta".to_string(),
            path: "./src/lib.rs".to_string(),
            functions: vec![fc("beta_one", 1, 10, 13)],
        },
    ];
    let result = join(&lcov, &units, &figures);

    for joined in functions(&result) {
        assert_eq!(number(&joined.coverage), None, "{} was scored", joined.name);
    }
    let sources = vec!["src/lib.rs".to_string(), "./src/lib.rs".to_string()];
    assert_eq!(
        attributions(&result),
        vec![
            (
                "src/lib.rs".to_string(),
                Attribution::Collision {
                    key: "src/lib.rs".to_string(),
                    sources: sources.clone(),
                }
            ),
            (
                "./src/lib.rs".to_string(),
                Attribution::Collision {
                    key: "src/lib.rs".to_string(),
                    sources,
                }
            ),
        ]
    );
}

/// `module` is the function's *full* module path, so an inline `mod`
/// segment belongs in it — not glued to the function's name. Neither half
/// can produce it alone: crate/file identity exists only upstream of the
/// join, inline nesting only in the AST.
#[test]
fn inline_module_segments_extend_the_module_path() {
    let lcov = parse_lcov(FIXTURE).expect("valid fixture");
    let units = vec![SourceUnit {
        module: "demo::foo".to_string(),
        path: "src/foo.rs".to_string(),
        functions: vec![
            fc("top", 1, 10, 13),
            FunctionComplexity {
                modules: vec!["inner".to_string(), "deeper".to_string()],
                ..fc("bar", 1, 10, 13)
            },
        ],
    }];
    let result = join(&lcov, &units, &figures);
    let joined = functions(&result);

    assert_eq!(joined[0].module, "demo::foo");
    assert_eq!(joined[0].name, "top");
    assert_eq!(joined[1].module, "demo::foo::inner::deeper");
    assert_eq!(joined[1].name, "bar");
}

/// An uncontested record is still scored — the
/// collision guard must not turn every suffix match into N/A.
#[test]
fn one_record_per_source_is_still_scored() {
    let lcov = parse_lcov(
        "SF:/build/crates/alpha/src/lib.rs\nDA:10,1\nend_of_record\n\
         SF:/build/crates/beta/src/lib.rs\nDA:10,0\nend_of_record\n",
    )
    .expect("valid fixture");
    let units = vec![
        SourceUnit {
            module: "alpha".to_string(),
            path: "crates/alpha/src/lib.rs".to_string(),
            functions: vec![fc("alpha_one", 1, 10, 13)],
        },
        SourceUnit {
            module: "beta".to_string(),
            path: "crates/beta/src/lib.rs".to_string(),
            functions: vec![fc("beta_one", 1, 10, 13)],
        },
    ];
    let result = join(&lcov, &units, &figures);

    // Each member's longest overlap is its own key, so no record is
    // contested and both suffix matches are still scored.
    assert_eq!(number(&functions(&result)[0].coverage), Some(1.0));
    assert_eq!(number(&functions(&result)[1].coverage), Some(0.0));
}

#[test]
fn total_zero_is_one_c13_divergence() {
    // File present but the fn's range has no instrumented (DA) lines.
    // Nothing to run means nothing left unrun.
    let j = join_one("src/lib.rs", fc("no_da", 9, 100, 110));
    assert_eq!(number(&j.coverage), Some(1.0));
    assert_eq!(number(&j.crap), score(9, Some(1.0)));
    // The counts are what makes that `1.0` readable downstream: nothing was
    // instrumented, so nothing was untested.
    assert_eq!(
        j.lines,
        Some(LineCounts {
            covered: 0,
            total: 0
        })
    );
}

/// The counts and the ratio are the same numbers — the ratio *is* the
/// counts, divided once. Two of four lines hit, and both facts
/// agree because only one of them was ever computed.
#[test]
fn the_counts_are_the_numbers_the_fraction_came_from() {
    let j = join_one("src/lib.rs", fc("partial", 2, 10, 13));
    assert_eq!(
        j.lines,
        Some(LineCounts {
            covered: 2,
            total: 4
        })
    );
    assert_eq!(number(&j.coverage), Some(divided(j.lines.unwrap().fraction())));
}

/// File absent ⇒ no ratio *and* no counts: nothing was counted, which is
/// not the same fact as having counted zero instrumented lines.
#[test]
fn an_unattributed_file_has_no_counts_either() {
    let j = join_one("src/other.rs", fc("absent", 7, 10, 13));
    assert_eq!(number(&j.coverage), None);
    assert_eq!(j.lines, None);
}

#[test]
fn path_normalization_suffix_match_resolves_coverage() {
    // LCOV key is `src/lib.rs`; each of these must resolve to it and find
    // the partial (0.5) coverage over lines 10..=13 — not None.
    for query in [
        "./src/lib.rs",         // leading ./
        "src\\lib.rs",          // Windows backslashes
        "/abs/proj/src/lib.rs", // absolute-style suffix
    ] {
        let j = join_one(query, fc("q", 2, 10, 13));
        assert_eq!(number(&j.coverage), Some(0.5), "query {query} should resolve");
        assert!(j.crap.is_some(), "query {query} should be scored");
    }
}

#[test]
fn produced_coverage_is_within_unit_interval() {
    let lcov = parse_lcov(FIXTURE).expect("valid fixture");
    let files = vec![unit(
        "src/lib.rs",
        vec![
            fc("partial", 2, 10, 13),
            fc("full", 4, 20, 21),
            fc("zero", 3, 12, 13),
            fc("no_da", 9, 100, 110),
        ],
    )];
    for j in functions(&join(&lcov, &files, &figures)) {
        if let Some(cov) = number(&j.coverage) {
            assert!((0.0..=1.0).contains(&cov), "cov {cov} out of [0,1]");
            assert!(!cov.is_nan(), "cov is NaN");
        }
    }
}

#[test]
fn attributions_report_one_status_per_file_in_input_order() {
    // The join surfaces *how* each file's coverage was attributed,
    // one entry per source file (not per function), without printing.
    let lcov = parse_lcov(FIXTURE).expect("valid fixture");
    let files = vec![
        unit(
            "src/lib.rs",
            vec![fc("exact_a", 1, 10, 13), fc("exact_b", 1, 20, 21)],
        ),
        unit("crates/demo/src/other.rs", vec![fc("gone_a", 1, 10, 13)]),
        unit("src/other.rs", vec![fc("gone_b", 1, 10, 13)]),
    ];
    let result = join(&lcov, &files, &figures);

    assert_eq!(
        attributions(&result),
        vec![
            (
                "src/lib.rs".to_string(),
                Attribution::Resolved(Resolution::Exact("src/lib.rs".to_string()))
            ),
            (
                "crates/demo/src/other.rs".to_string(),
                Attribution::Resolved(Resolution::Unresolved)
            ),
            (
                "src/other.rs".to_string(),
                Attribution::Resolved(Resolution::Unresolved)
            ),
        ]
    );
    // The two functions in the first file yield a single attribution entry.
    assert_eq!(functions(&result).len(), 4);
}

/// End-to-end span seam: real `syn` spans from the CC engine flow through
/// `usize→u32` narrowing into `coverage_in_range`. Unlike the unit tests
/// above (which hand-build `FunctionComplexity` with manual line numbers),
/// this drives `analyze_str` on inline source so the asserted coverage
/// depends on genuine analyzed spans intersecting real `DA:` lines.
#[test]
fn integration_real_spans_join_against_lcov() {
    // Inline source; `\` keeps `fn simple` on line 1 (1-based, matching syn
    // spans). Line map used to build the LCOV fixture below:
    //   1: fn simple() -> i32 {
    //   2:     let mut n = 0;
    //   3:     n += 1;
    //   4:     n
    //   5: }
    //   6: (blank)
    //   7: fn branchy(x: i32) -> i32 {
    //   8:     match x {
    //   9:         0 => 0,
    //  10:         _ => 1,
    //  11:     }
    //  12: }
    let fns = analyze_str(SRC).expect("SRC parses");
    let find = |name: &str| {
        fns.iter()
            .find(|f| f.name == name)
            .unwrap_or_else(|| panic!("no fn named {name}"))
    };
    let simple = find("simple");
    let branchy = find("branchy");

    // Self-documenting: assert the real analyzed spans the fixture relies on.
    assert_eq!((simple.start_line, simple.end_line), (1, 5));
    assert_eq!((branchy.start_line, branchy.end_line), (7, 12));
    // `match` with one literal arm (`_` exempt) ⇒ CC = base 1 + 1 = 2.
    assert_eq!(branchy.complexity, 2);
    assert_eq!(simple.complexity, 1);

    // DA lines fall inside the analyzed spans:
    //   simple  [1..=5]: lines 2,3 both hit          ⇒ 2/2 = 1.0
    //   branchy [7..=12]: 8,9 hit; 10,11 uncovered    ⇒ 2/4 = 0.5
    let lcov = parse_lcov(LCOV).expect("valid fixture");
    let result = join(&lcov, &vec![unit("src/demo.rs", analyze_str(SRC).expect("SRC parses"))], &figures);
    let joined = functions(&result);

    let jf = |name: &str| {
        joined
            .iter()
            .find(|j| j.name == name)
            .unwrap_or_else(|| panic!("no joined fn named {name}"))
    };
    let jsimple = jf("simple");
    let jbranchy = jf("branchy");

    assert_eq!(number(&jsimple.coverage), Some(1.0));
    assert_eq!(number(&jsimple.crap), score(simple.complexity, Some(1.0)));
    assert_eq!(number(&jbranchy.coverage), Some(0.5));
    assert_eq!(number(&jbranchy.crap), score(branchy.complexity, Some(0.5)));
}

#[test]
fn a_caveat_has_a_word() {
    let tag = |attribution: &Attribution| attribution.caveat().map(|caveat| caveat.tag());
    let key = || "src/lib.rs".to_string();
    assert_eq!(tag(&Attribution::Resolved(Resolution::Exact(key()))), None);
    assert_eq!(
        tag(&Attribution::Resolved(Resolution::Suffix(key()))),
        Some("suffix")
    );
    assert_eq!(
        tag(&Attribution::Resolved(Resolution::Ambiguous(vec![key()]))),
        Some("ambiguous")
    );
    assert_eq!(
        tag(&Attribution::Resolved(Resolution::Unresolved)),
        Some("absent")
    );
    let contested = Attribution::Collision {
        key: key(),
        sources: vec!["a".to_string()],
    };
    assert_eq!(tag(&contested), Some("contested"));
    assert!(matches!(
        contested.caveat(),
        Some(Caveat::Contested { key: "src/lib.rs", claimants }) if claimants.len() == 1
    ));
    let superseded = Attribution::Superseded {
        key: key(),
        winner: "b".to_string(),
    };
    assert_eq!(tag(&superseded), Some("superseded"));
}

#[test]
fn one_path_read_twice_is_one_claim() {
    let lcov = parse_lcov("SF:src/lib.rs\nDA:10,1\nend_of_record\n").expect("valid fixture");
    let units = vec![
        unit("src/lib.rs", vec![fc("a", 1, 10, 10)]),
        unit("src/lib.rs", vec![fc("b", 1, 10, 10)]),
    ];
    let result = join(&lcov, &units, &figures);
    assert_eq!(
        attributions(&result)[1].1,
        Attribution::Resolved(Resolution::Exact("src/lib.rs".to_string()))
    );
    assert_eq!(number(&functions(&result)[1].coverage), Some(1.0));
}

#[test]
fn a_span_that_ends_before_it_starts_has_no_lines() {
    let lcov = parse_lcov("SF:a.rs\nDA:5,1\nend_of_record\n").expect("valid fixture");
    let result = join(&lcov, &vec![unit("a.rs", vec![fc("f", 1, 9, 3)])], &figures);
    assert_eq!(
        functions(&result)[0].lines,
        Some(LineCounts {
            covered: 0,
            total: 0
        })
    );
}

#[test]
fn lines_past_the_profile_count_as_its_last() {
    let lcov = parse_lcov("SF:a.rs\nDA:4294967295,1\nend_of_record\n").expect("valid fixture");
    let far = usize::MAX;
    let result = join(&lcov, &vec![unit("a.rs", vec![fc("f", 1, far, far)])], &figures);
    assert_eq!(
        functions(&result)[0].lines,
        Some(LineCounts {
            covered: 1,
            total: 1
        })
    );
}
