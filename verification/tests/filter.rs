//! Narrowing a report to some of its files.

use crap4rust::filter::Filters;

fn filters(fragments: &[&str]) -> Filters {
    Filters::new(
        &fragments
            .iter()
            .map(|f| (*f).to_string())
            .collect::<Vec<_>>(),
    )
}

fn selects(filters: &Filters, path: &str) -> bool {
    filters.select(path).is_selected()
}

#[test]
fn no_filters_select_everything() {
    let filters = filters(&[]);
    assert!(filters.is_empty());
    assert!(selects(&filters, "crates/alpha/src/lib.rs"));
}

#[test]
fn a_fragment_matches_a_run_of_whole_segments() {
    assert!(selects(
        &filters(&["crates/alpha"]),
        "crates/alpha/src/lib.rs"
    ));
    assert!(selects(
        &filters(&["crates/alpha"]),
        "crates/alpha/src/foo/bar.rs"
    ));
    // A leading run, a trailing run and an interior run all count.
    assert!(selects(&filters(&["src"]), "crates/alpha/src/lib.rs"));
    assert!(selects(&filters(&["lib.rs"]), "crates/alpha/src/lib.rs"));
}

/// The whole reason segments beat substrings: a neighbouring package whose
/// name merely starts the same must not be dragged in.
#[test]
fn a_fragment_does_not_match_a_partial_segment() {
    assert!(!selects(
        &filters(&["crates/alpha"]),
        "crates/alpha-utils/src/lib.rs"
    ));
    assert!(!selects(&filters(&["alph"]), "crates/alpha/src/lib.rs"));
    // Consecutive, not merely present in order.
    assert!(!selects(
        &filters(&["crates/src"]),
        "crates/alpha/src/lib.rs"
    ));
}

#[test]
fn separators_are_normalized_but_case_is_not() {
    assert!(selects(
        &filters(&[r"crates\alpha"]),
        "crates/alpha/src/lib.rs"
    ));
    assert!(selects(
        &filters(&["/crates/alpha/"]),
        "crates/alpha/src/lib.rs"
    ));
    // One command means one thing on every platform.
    assert!(!selects(
        &filters(&["Crates/Alpha"]),
        "crates/alpha/src/lib.rs"
    ));
}

/// Several filters are alternatives: an intersection would make a second
/// `--filter` silently empty the report. Each answer is a value the caller
/// folds; nothing is recorded behind its back.
#[test]
fn several_fragments_are_alternatives_and_each_records_its_matches() {
    let filters = filters(&["crates/alpha", "crates/beta", "crates/gamma"]);
    let mut matched: Vec<usize> = Vec::new();
    for path in [
        "crates/alpha/src/lib.rs",
        "crates/beta/src/lib.rs",
        "crates/delta/src/lib.rs",
    ] {
        matched.extend(filters.select(path).matched());
    }
    assert!(selects(&filters, "crates/alpha/src/lib.rs"));
    assert!(selects(&filters, "crates/beta/src/lib.rs"));
    assert!(!selects(&filters, "crates/delta/src/lib.rs"));
    assert_eq!(filters.unmatched(&matched), vec!["crates/gamma"]);
}

/// A file may be selected by more than one fragment, and *every* fragment
/// that selected it is reported — otherwise a redundant `--filter` would
/// look unmatched.
#[test]
fn a_path_reports_every_fragment_that_matched_it() {
    let selection =
        filters(&["crates", "src", "crates/beta"]).select("crates/alpha/src/lib.rs");
    assert!(selection.is_selected());
    assert_eq!(selection.matched(), &vec![0, 1]);
}

#[test]
fn an_empty_fragment_selects_nothing_and_is_reported_unmatched() {
    let filters = filters(&[""]);
    let selection = filters.select("crates/alpha/src/lib.rs");
    assert!(!selection.is_selected());
    assert!(selection.matched().is_empty());
    assert_eq!(filters.unmatched(&Vec::new()), vec![""]);
}

#[test]
fn the_fragments_are_kept_as_they_were_given() {
    let given = filters(&["crates/alpha", "", "crates\\beta"]);
    assert_eq!(
        given.fragments(),
        vec!["crates/alpha", "", "crates\\beta"]
    );
    assert!(!given.is_empty());
}

#[test]
fn a_fragment_longer_than_the_path_does_not_match() {
    assert!(!selects(&filters(&["src/lib.rs/more"]), "src/lib.rs"));
    assert!(selects(&filters(&["src/lib.rs"]), "src/lib.rs"));
}

#[test]
fn unmatched_fragments_keep_their_order() {
    let given = filters(&["a", "b", "c"]);
    assert_eq!(given.unmatched(&vec![1]), vec!["a", "c"]);
    assert_eq!(given.unmatched(&vec![2, 0, 1, 0]), Vec::<String>::new());
}
