//! Reading coverage profiles and finding paths in them.

use crap4rust::coverage::{parse_lcov, LcovData, LcovError, Resolution};
use std::collections::BTreeMap;

fn hits_of(data: &LcovData, path: &str, line: u32) -> Option<u64> {
    data.file(path).and_then(|hits| hits.get(&line)).copied()
}

#[test]
fn parses_two_sections_with_zero_hit_lines() {
    let lcov = "\
SF:src/a.rs
DA:1,3
DA:2,0
DA:4,7
end_of_record
SF:src/b.rs
DA:10,1
DA:11,0
end_of_record
";
    let data = parse_lcov(lcov).expect("valid LCOV");

    let a = data.file("src/a.rs").expect("section a");
    assert_eq!(a, &BTreeMap::from([(1, 3), (2, 0), (4, 7)]));

    let b = data.file("src/b.rs").expect("section b");
    assert_eq!(b, &BTreeMap::from([(10, 1), (11, 0)]));
}

#[test]
fn da_with_checksum_third_field_parses() {
    let lcov = "SF:src/a.rs\nDA:5,2,f0a1b2c3\nend_of_record\n";
    let data = parse_lcov(lcov).expect("valid LCOV");
    assert_eq!(hits_of(&data, "src/a.rs", 5), Some(2));
}

#[test]
fn unknown_record_types_are_skipped() {
    let lcov = "\
TN:
SF:src/a.rs
FN:1,foo
FNDA:3,foo
FNF:1
FNH:1
BRDA:2,0,0,1
BRF:1
BRH:1
DA:1,3
LF:1
LH:1
end_of_record
";
    let data = parse_lcov(lcov).expect("unknown records skipped");
    assert_eq!(data.file("src/a.rs").unwrap(), &BTreeMap::from([(1, 3)]));
}

#[test]
fn coverage_in_range_counts_partial_overlap() {
    // Instrumented lines: 5(hit), 6(0), 8(hit), 12(hit).
    let lcov = "\
SF:src/a.rs
DA:5,1
DA:6,0
DA:8,4
DA:12,2
end_of_record
";
    let data = parse_lcov(lcov).expect("valid LCOV");

    // Range 5..=8 overlaps lines 5,6,8: total=3, covered=5 and 8 => 2.
    assert_eq!(data.coverage_in_range("src/a.rs", 5, 8), (2, 3));
    // Range 6..=6 is a single uncovered line.
    assert_eq!(data.coverage_in_range("src/a.rs", 6, 6), (0, 1));
    // Range with no instrumented lines.
    assert_eq!(data.coverage_in_range("src/a.rs", 20, 30), (0, 0));
    // Unknown file.
    assert_eq!(data.coverage_in_range("src/missing.rs", 1, 10), (0, 0));
}

#[test]
fn later_da_takes_max_hit_count() {
    let lcov = "SF:src/a.rs\nDA:1,0\nDA:1,5\nDA:1,2\nend_of_record\n";
    let data = parse_lcov(lcov).expect("valid LCOV");
    assert_eq!(hits_of(&data, "src/a.rs", 1), Some(5));
}

#[test]
fn malformed_da_non_numeric_is_error() {
    let err = parse_lcov("SF:src/a.rs\nDA:abc,1\nend_of_record\n").unwrap_err();
    assert!(matches!(err, LcovError::MalformedDa(_)));
}

#[test]
fn malformed_da_missing_hits_is_error() {
    let err = parse_lcov("SF:src/a.rs\nDA:5\nend_of_record\n").unwrap_err();
    assert!(matches!(err, LcovError::MalformedDa(_)));
}

#[test]
fn da_before_sf_is_error() {
    let err = parse_lcov("DA:1,3\n").unwrap_err();
    assert!(matches!(err, LcovError::DaBeforeSf));
}

#[test]
fn crlf_line_endings_parse_identically() {
    let lcov = "SF:src/a.rs\r\nDA:1,3\r\nDA:2,0\r\nend_of_record\r\n";
    let data = parse_lcov(lcov).expect("valid LCOV");
    // No trailing `\r` corrupts the path key or the DA values.
    let a = data.file("src/a.rs").expect("section a");
    assert_eq!(a, &BTreeMap::from([(1, 3), (2, 0)]));
}

#[test]
fn reopened_sf_section_merges_da_lines() {
    let lcov = "\
SF:src/a.rs
DA:1,3
end_of_record
SF:src/a.rs
DA:2,7
end_of_record
";
    let data = parse_lcov(lcov).expect("valid LCOV");
    // Both occurrences' lines are present (merge, not clobber).
    assert_eq!(
        data.file("src/a.rs").unwrap(),
        &BTreeMap::from([(1, 3), (2, 7)])
    );
}

#[test]
fn end_of_record_resets_open_section() {
    // After end_of_record, a DA with no new SF has no open section.
    let err = parse_lcov("SF:src/a.rs\nDA:1,3\nend_of_record\nDA:2,4\n").unwrap_err();
    assert!(matches!(err, LcovError::DaBeforeSf));
}

#[test]
fn resolve_path_reports_exact_match() {
    let data = parse_lcov("SF:src/a.rs\nDA:1,3\nend_of_record\n").expect("valid LCOV");
    // Byte-identical, and normalization-equivalent, queries are all exact.
    for query in ["src/a.rs", "./src/a.rs", "src\\a.rs"] {
        assert_eq!(
            data.resolve_path(query),
            Resolution::Exact("src/a.rs".to_string()),
            "query {query}"
        );
    }
}

#[test]
fn resolve_path_reports_suffix_match_with_key() {
    let data =
        parse_lcov("SF:/abs/proj/src/a.rs\nDA:1,3\nend_of_record\n").expect("valid LCOV");
    // Shorter query is a segment-wise suffix of the stored key, and the
    // stored key is reported so the CLI can name it.
    assert_eq!(
        data.resolve_path("src/a.rs"),
        Resolution::Suffix("/abs/proj/src/a.rs".to_string())
    );
}

#[test]
fn resolve_path_reports_unresolved() {
    let data = parse_lcov("SF:src/a.rs\nDA:1,3\nend_of_record\n").expect("valid LCOV");
    assert_eq!(data.resolve_path("src/other.rs"), Resolution::Unresolved);
}

#[test]
fn resolve_path_prefers_the_longest_overlapping_key() {
    // both keys are segment-wise suffixes of the query, but only
    // one of them agrees on the member directory. The shorter candidate
    // sorts first, so "first key wins" would have picked it.
    let data = parse_lcov(
        "SF:alpha/src/lib.rs\nDA:1,3\nend_of_record\n\
         SF:crates/alpha/src/lib.rs\nDA:1,3\nend_of_record\n",
    )
    .expect("valid LCOV");
    assert_eq!(
        data.resolve_path("proj/crates/alpha/src/lib.rs"),
        Resolution::Suffix("crates/alpha/src/lib.rs".to_string())
    );
}

#[test]
fn resolve_path_reports_an_equal_overlap_tie_as_ambiguous() {
    // `src/lib.rs` exists in every workspace member, so a short
    // query overlaps each member's key equally well. Picking the first
    // would silently report beta's coverage for alpha's functions.
    let data = parse_lcov(
        "SF:crates/alpha/src/lib.rs\nDA:1,3\nend_of_record\n\
         SF:crates/beta/src/lib.rs\nDA:1,0\nend_of_record\n",
    )
    .expect("valid LCOV");
    assert_eq!(
        data.resolve_path("src/lib.rs"),
        Resolution::Ambiguous(vec!["crates/alpha/src/lib.rs".to_string(), "crates/beta/src/lib.rs".to_string()])
    );
}

#[test]
fn an_exact_match_beats_an_otherwise_ambiguous_tie() {
    // The tie only matters when nothing matched exactly; an exact key is
    // still the answer even though both members carry `src/lib.rs`.
    let data = parse_lcov(
        "SF:crates/alpha/src/lib.rs\nDA:1,3\nend_of_record\n\
         SF:crates/beta/src/lib.rs\nDA:1,0\nend_of_record\n",
    )
    .expect("valid LCOV");
    assert_eq!(
        data.resolve_path("crates/beta/src/lib.rs"),
        Resolution::Exact("crates/beta/src/lib.rs".to_string())
    );
}

#[test]
fn resolution_key_exposes_the_stored_key() {
    assert_eq!(Resolution::Exact("src/a.rs".to_string()).key(), Some("src/a.rs"));
    assert_eq!(Resolution::Suffix("src/a.rs".to_string()).key(), Some("src/a.rs"));
    assert_eq!(Resolution::Unresolved.key(), None);
    // an ambiguous match is unresolved for join purposes, so
    // those functions report N/A.
    assert_eq!(
        Resolution::Ambiguous(vec!["a/src/lib.rs".to_string(), "b/src/lib.rs".to_string()]).key(),
        None
    );
}

#[test]
fn the_malformed_record_is_named_as_it_stands() {
    let err = parse_lcov("SF:src/a.rs\nDA:5\n").unwrap_err();
    assert_eq!(err, LcovError::MalformedDa("DA:5".to_string()));
    let err = parse_lcov("SF:src/a.rs\nDA:1,-4\n").unwrap_err();
    assert_eq!(err, LcovError::MalformedDa("DA:1,-4".to_string()));
    let err = parse_lcov("SF:src/a.rs\nDA:4294967296,1\n").unwrap_err();
    assert_eq!(err, LcovError::MalformedDa("DA:4294967296,1".to_string()));
    let err = parse_lcov("SF:src/a.rs\nDA:1,18446744073709551616\n").unwrap_err();
    assert_eq!(
        err,
        LcovError::MalformedDa("DA:1,18446744073709551616".to_string())
    );
}

#[test]
fn the_largest_numbers_are_read() {
    let data = parse_lcov("SF:a.rs\nDA:4294967295,18446744073709551615\n").unwrap();
    assert_eq!(
        data.file("a.rs").unwrap(),
        &BTreeMap::from([(4294967295, 18446744073709551615)])
    );
}

#[test]
fn lines_of_a_section_are_in_order_whatever_the_records_are_in() {
    let data = parse_lcov("SF:a.rs\nDA:9,1\nDA:2,0\nDA:5,3\nend_of_record\n").unwrap();
    assert_eq!(data.file("a.rs").unwrap(), &BTreeMap::from([(2, 0), (5, 3), (9, 1)]));
    assert!(data.file("b.rs").is_none());
}

#[test]
fn a_section_without_lines_is_there() {
    let data = parse_lcov("SF:a.rs\nend_of_record\n").unwrap();
    assert!(data.file("a.rs").unwrap().is_empty());
    assert_eq!(
        data.resolve_path("a.rs"),
        Resolution::Exact("a.rs".to_string())
    );
}

#[test]
fn no_record_makes_an_empty_profile() {
    let data = parse_lcov("").unwrap();
    assert_eq!(data.resolve_path("src/a.rs"), Resolution::Unresolved);
    assert_eq!(data.coverage_in_range("src/a.rs", 1, 1), (0, 0));
}

#[test]
fn a_longer_query_finds_a_shorter_key() {
    let data = parse_lcov("SF:a.rs\nDA:1,3\nend_of_record\n").unwrap();
    assert_eq!(
        data.resolve_path("/abs/src/a.rs"),
        Resolution::Suffix("a.rs".to_string())
    );
    // A part of a segment is no match.
    assert_eq!(data.resolve_path("src/aa.rs"), Resolution::Unresolved);
}

#[test]
fn a_range_counts_its_ends() {
    let data = parse_lcov("SF:a.rs\nDA:1,1\nDA:2,0\nDA:3,1\nDA:4,1\n").unwrap();
    assert_eq!(data.coverage_in_range("a.rs", 1, 4), (3, 4));
    assert_eq!(data.coverage_in_range("a.rs", 2, 3), (1, 2));
    assert_eq!(data.coverage_in_range("a.rs", 4, 4), (1, 1));
}

#[test]
fn a_copy_of_a_resolution_is_equal_to_it() {
    for resolution in [
        Resolution::Exact("a".to_string()),
        Resolution::Suffix("a".to_string()),
        Resolution::Ambiguous(vec!["a".to_string(), "b".to_string()]),
        Resolution::Unresolved,
    ] {
        assert_eq!(resolution.clone(), resolution);
    }
}

#[test]
fn a_range_that_ends_before_it_starts_is_empty() {
    let data = parse_lcov("SF:src/a.rs\nDA:5,1\nend_of_record\n").expect("valid LCOV");
    assert_eq!(data.coverage_in_range("src/a.rs", 9, 3), (0, 0));
    assert_eq!(data.coverage_in_range("src/a.rs", 3, 9), (1, 1));
}

#[test]
fn complete_records_may_stand_in_any_order() {
    let a = "SF:a.rs\nDA:1,4\nDA:2,0\nend_of_record\n";
    let b = "SF:b.rs\nDA:1,1\nend_of_record\nSF:a.rs\nDA:2,3\nend_of_record\n";
    let one = parse_lcov(&format!("{a}{b}")).expect("valid LCOV");
    let other = parse_lcov(&format!("{b}{a}")).expect("valid LCOV");
    for path in ["a.rs", "b.rs"] {
        assert_eq!(one.file(path), other.file(path));
    }
    assert_eq!(one.file("a.rs").unwrap(), &BTreeMap::from([(1, 4), (2, 3)]));
    assert_eq!(one.file("b.rs").unwrap(), &BTreeMap::from([(1, 1)]));
}
