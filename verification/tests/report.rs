//! The table of a report.

use crap4rust::join::{Figure, JoinedFunction, LineCounts};
use crap4rust::report::{
    format_line, format_report, is_larger, order_by_crap, rows_from_joined, OrderKey, ReportRow,
};
use std::cmp::Ordering;

fn crap(cc: u32, cov: f64) -> f64 {
    let cc = f64::from(cc);
    let uncovered = 1.0 - cov;
    cc * cc * uncovered * uncovered * uncovered + cc
}

fn figure(number: f64, shown: f64) -> Figure {
    Figure {
        bits: number.to_bits(),
        text: format!("{shown:.1}"),
    }
}

fn percentage(coverage: Option<f64>) -> Option<Figure> {
    coverage.map(|fraction| figure(fraction, fraction * 100.0))
}

fn points(cc: u32, coverage: Option<f64>) -> Option<Figure> {
    coverage.map(|fraction| {
        let score = crap(cc, fraction);
        figure(score, score)
    })
}

fn keyed_row(module: &str, file: &str, start_line: usize) -> ReportRow {
    ReportRow {
        name: "dup".to_string(),
        module: module.to_string(),
        file: file.to_string(),
        start_line,
        complexity: 2,
        coverage: percentage(Some(0.5)),
        crap: points(2, Some(0.5)),
    }
}

fn row(name: &str, module: &str, cc: u32, coverage: Option<f64>) -> ReportRow {
    ReportRow {
        name: name.to_string(),
        module: module.to_string(),
        file: module.to_string(),
        start_line: 1,
        complexity: cc,
        coverage: percentage(coverage),
        crap: points(cc, coverage),
    }
}

/// The four fixed lines every report starts with, byte-for-byte.
const PREAMBLE: &str = "\
CRAP Report
===========
Function                       Module                                CC    Cov%     CRAP
----------------------------------------------------------------------------------------
";

#[test]
fn empty_report_is_preamble_only() {
    assert_eq!(format_report(&vec![]), PREAMBLE);
}

#[test]
fn header_and_separator_widths_match_c14() {
    let header = format_line("Function", "Module", "CC", "Cov%", "CRAP");
    // 30 + 1 + 35 + 1 + 4 + 1 + 7 + 1 + 8.
    assert_eq!(header.len(), 88);
    let report = format_report(&vec![]);
    let lines: Vec<&str> = report.lines().collect();
    assert_eq!(lines[0], "CRAP Report");
    assert_eq!(lines[1], "===========");
    assert_eq!(lines[2], header);
    assert_eq!(lines[3], "-".repeat(88));
}

#[test]
fn mixed_coverage_rows_render_and_sort_by_crap_desc() {
    // CRAP: zero  = 4²·1     + 4 = 20.0
    //       part  = 3²·0.125 + 3 =  4.1 (4.125)
    //       full  =              5 =  5.0
    let rows = vec![
        row("part", "src/a.rs", 3, Some(0.5)),
        row("full", "src/b.rs", 5, Some(1.0)),
        row("zero", "src/c.rs", 4, Some(0.0)),
    ];
    let expected = format!(
        "{PREAMBLE}\
zero                           src/c.rs                               4    0.0%     20.0
full                           src/b.rs                               5  100.0%      5.0
part                           src/a.rs                               3   50.0%      4.1
"
    );
    assert_eq!(format_report(&rows), expected);
}

#[test]
fn absent_coverage_renders_na_and_sorts_last() {
    let rows = vec![
        row("absent", "src/a.rs", 9, None),
        row("scored", "src/b.rs", 1, Some(1.0)),
    ];
    let expected = format!(
        "{PREAMBLE}\
scored                         src/b.rs                               1  100.0%      1.0
absent                         src/a.rs                               9    N/A       N/A
"
    );
    assert_eq!(format_report(&rows), expected);
}

#[test]
fn equal_crap_ties_break_by_name_ascending() {
    // All three share CC=2, cov=0.5 ⇒ identical CRAP; input order is
    // deliberately reversed to prove the tie-break, not input stability.
    let rows = vec![
        row("charlie", "src/a.rs", 2, Some(0.5)),
        row("alpha", "src/a.rs", 2, Some(0.5)),
        row("bravo", "src/a.rs", 2, Some(0.5)),
    ];
    let names: Vec<String> = format_report(&rows)
        .lines()
        .skip(4)
        .map(|l| l.split_whitespace().collect::<Vec<_>>()[0].to_string())
        .collect();
    assert_eq!(names, vec!["alpha", "bravo", "charlie"]);
}

#[test]
fn unscored_rows_also_tie_break_by_name_ascending() {
    let rows = vec![
        row("zulu", "src/a.rs", 2, None),
        row("alpha", "src/a.rs", 9, None),
    ];
    let expected = format!(
        "{PREAMBLE}\
alpha                          src/a.rs                               9    N/A       N/A
zulu                           src/a.rs                               2    N/A       N/A
"
    );
    assert_eq!(format_report(&rows), expected);
}

/// The whole ordering key: three rows of one score and one name, told apart only
/// by file and then line, in a deliberately wrong order.
#[test]
fn equal_crap_and_name_break_by_file_then_start_line() {
    let rows = vec![
        keyed_row("crate::c", "src/b.rs", 1),
        keyed_row("crate::a", "src/a.rs", 30),
        keyed_row("crate::b", "src/a.rs", 10),
    ];
    let expected = format!(
        "{PREAMBLE}\
dup                            crate::b                               2   50.0%      2.5
dup                            crate::a                               2   50.0%      2.5
dup                            crate::c                               2   50.0%      2.5
"
    );
    assert_eq!(format_report(&rows), expected);
}

#[test]
fn long_cells_overflow_and_do_not_truncate() {
    // Cells never truncate; they overflow and push the rest of the line right.
    let rows = vec![row(
        "an_extremely_long_function_name_well_past_thirty",
        "crate::deeply::nested::module::path::that::exceeds::thirty_five",
        2,
        Some(0.5),
    )];
    let expected = format!(
        "{PREAMBLE}\
an_extremely_long_function_name_well_past_thirty crate::deeply::nested::module::path::that::exceeds::thirty_five    2   50.0%      2.5
"
    );
    assert_eq!(format_report(&rows), expected);
}

#[test]
fn rows_from_joined_carries_values_and_the_crate_qualified_module() {
    let joined = vec![JoinedFunction {
        name: "Foo::bar".to_string(),
        module: "demo::foo".to_string(),
        file: "crates/demo/src/foo.rs".to_string(),
        start_line: 12,
        complexity: 3,
        coverage: percentage(Some(0.5)),
        lines: Some(LineCounts {
            covered: 1,
            total: 2,
        }),
        crap: points(3, Some(0.5)),
    }];
    let rows = rows_from_joined(&joined);
    assert_eq!(rows.len(), 1);
    assert_eq!(rows[0].name, "Foo::bar");
    // The Module column shows the crate-qualified module, not the path.
    assert_eq!(rows[0].module, "demo::foo");
    assert_eq!(rows[0].complexity, 3);
    assert_eq!(rows[0].coverage, percentage(Some(0.5)));
    assert_eq!(rows[0].crap, points(3, Some(0.5)));
}

/// The identity fields are carried through verbatim (`file`, plus
/// `start_line`) alongside the display `module`.
#[test]
fn rows_from_joined_carries_c15_identity_fields() {
    let joined = vec![JoinedFunction {
        name: "Foo::bar".to_string(),
        module: "demo::foo".to_string(),
        file: "crates/demo/src/foo.rs".to_string(),
        start_line: 12,
        complexity: 3,
        coverage: percentage(Some(0.5)),
        lines: Some(LineCounts {
            covered: 1,
            total: 2,
        }),
        crap: points(3, Some(0.5)),
    }];
    let rows = rows_from_joined(&joined);
    assert_eq!(rows[0].file, "crates/demo/src/foo.rs");
    assert_eq!(rows[0].start_line, 12);
}

#[test]
fn scores_are_ordered_as_numbers() {
    let ascending = [
        f64::NEG_INFINITY,
        -2.5,
        -1.0,
        -0.0,
        0.0,
        1.0,
        4.125,
        20.0,
        f64::INFINITY,
    ];
    for (i, a) in ascending.iter().enumerate() {
        for (j, b) in ascending.iter().enumerate() {
            assert_eq!(is_larger(a.to_bits(), b.to_bits()), i > j, "{a} {b}");
        }
    }
}

#[test]
fn the_ordering_key_is_compared_part_by_part() {
    let key = |crap: Option<f64>, name: &str, file: &str, start_line: usize| OrderKey {
        crap: crap.map(f64::to_bits),
        name: name.to_string(),
        file: file.to_string(),
        start_line,
    };
    let base = key(Some(2.0), "m", "m.rs", 5);
    assert_eq!(
        order_by_crap(&key(Some(3.0), "z", "z.rs", 9), &base),
        Ordering::Less
    );
    assert_eq!(
        order_by_crap(&key(None, "a", "a.rs", 1), &base),
        Ordering::Greater
    );
    assert_eq!(
        order_by_crap(&key(Some(2.0), "a", "z.rs", 9), &base),
        Ordering::Less
    );
    assert_eq!(
        order_by_crap(&key(Some(2.0), "m", "z.rs", 1), &base),
        Ordering::Greater
    );
    assert_eq!(
        order_by_crap(&key(Some(2.0), "m", "m.rs", 4), &base),
        Ordering::Less
    );
    assert_eq!(
        order_by_crap(&key(Some(2.0), "m", "m.rs", 5), &base),
        Ordering::Equal
    );
}

#[test]
fn the_sequence_of_the_rows_makes_no_difference() {
    let rows = |order: [usize; 3]| -> Vec<ReportRow> {
        let all = [
            ("a", "src/a.rs", Some(0.5)),
            ("b", "src/b.rs", Some(0.25)),
            ("c", "src/c.rs", None),
        ];
        order
            .iter()
            .map(|i| row(all[*i].0, all[*i].1, 3, all[*i].2))
            .collect()
    };
    let expected = format_report(&rows([0, 1, 2]));
    assert_eq!(format_report(&rows([2, 1, 0])), expected);
    assert_eq!(format_report(&rows([1, 2, 0])), expected);
}
