//! A run as a whole: what was asked for, and how its parts are put together.
//!
//! Reading files, running commands and printing are not done here. What they
//! give is handed in, and what is to be shown or said is handed back.

use vstd::prelude::*;

use crate::complexity::{self, AnalysisError};
use crate::coverage::{LcovData, Profile, ResolutionView};
use crate::diagnostic::{DiagnosticView, Kind, KindView, Site, SiteView};
use crate::filter::Filters;
use crate::join::{
    self, Attribution, AttributionView, Caveat, CaveatView, Figures, Fraction, JoinedFile,
    JoinedFileView, JoinedFunction, SourceUnit, UnitView,
};
use crate::json::{self, EntryView};
use crate::modgraph::Module;
use crate::report::{self, RowView};
use crate::runner::{CoverageSource, SourceView};
use crate::syntax::File;
use crate::text;

pub use crate::diagnostic::Diagnostic;

verus! {

/// The arguments of an invocation.
#[derive(Debug, PartialEq, Eq)]
pub struct Cli {
    /// A profile to use instead of running coverage.
    pub lcov_path: Option<String>,
    /// The coverage command to run instead of the default one.
    pub test_command: Option<String>,
    /// The fragments that narrow the report.
    pub filter: Vec<String>,
    /// A path inside the workspace. It says where the workspace is and narrows
    /// nothing.
    pub path: String,
}

/// The resolved inputs of a run.
#[derive(Debug, PartialEq, Eq)]
pub struct RunConfig {
    coverage: CoverageSource,
    diagnostics: Vec<Diagnostic>,
    path: String,
    filters: Filters,
}

/// What a `RunConfig` holds.
#[verifier::ext_equal]
pub struct ConfigView {
    /// Where coverage comes from.
    pub coverage: SourceView,
    /// What is known before the run starts.
    pub diagnostics: Seq<DiagnosticView>,
    /// A path inside the workspace.
    pub path: Seq<char>,
    /// The fragments that narrow the report.
    pub filters: Seq<Seq<char>>,
}

impl View for RunConfig {
    type V = ConfigView;

    closed spec fn view(&self) -> ConfigView {
        ConfigView {
            coverage: self.coverage@,
            diagnostics: crate::diagnostic::diagnostics_view(self.diagnostics@),
            path: self.path@,
            filters: self.filters@,
        }
    }
}

/// What plain inputs resolve to.
pub open spec fn config_of(
    path: Seq<char>,
    lcov_path: Option<Seq<char>>,
    test_command: Option<Seq<char>>,
    filters: Seq<Seq<char>>,
) -> ConfigView {
    ConfigView {
        coverage: crate::runner::source_of(lcov_path, test_command),
        diagnostics: crate::runner::advice_of(lcov_path, test_command),
        path,
        filters,
    }
}

impl RunConfig {
    /// Resolves a run from plain inputs.
    pub fn new(
        path: String,
        lcov_path: Option<String>,
        test_command: Option<&str>,
        filters: &Vec<String>,
    ) -> (out: RunConfig)
        ensures
            out@ == config_of(
                path@,
                crate::syntax::optional(lcov_path),
                crate::runner::optional_text(test_command),
                text::views(filters@),
            ),
    {
        let (coverage, diagnostics) = CoverageSource::resolve(lcov_path, test_command);
        RunConfig { coverage, diagnostics, path, filters: Filters::new(filters) }
    }

    /// What is known before the run starts: that a command will not be run, or
    /// that it must write LCOV itself.
    pub fn diagnostics(&self) -> (out: &Vec<Diagnostic>)
        ensures
            crate::diagnostic::diagnostics_view(out@) == self@.diagnostics,
    {
        &self.diagnostics
    }

    /// Where coverage comes from.
    pub fn coverage(&self) -> (out: &CoverageSource)
        ensures
            out@ == self@.coverage,
    {
        &self.coverage
    }

    /// A path inside the workspace.
    pub fn path(&self) -> (out: &str)
        ensures
            out@ == self@.path,
    {
        self.path.as_str()
    }

    /// The fragments that narrow the report.
    pub fn filters(&self) -> (out: &Filters)
        ensures
            out@ == self@.filters,
    {
        &self.filters
    }
}

/// What arguments resolve to: the same as the plain inputs that they are.
pub open spec fn config_of_arguments(cli: Cli) -> ConfigView {
    config_of(
        cli.path@,
        crate::syntax::optional(cli.lcov_path),
        crate::syntax::optional(cli.test_command),
        text::views(cli.filter@),
    )
}

impl<'a> vstd::std_specs::convert::FromSpecImpl<&'a Cli> for RunConfig {
    open spec fn obeys_from_spec() -> bool {
        false
    }

    open spec fn from_spec(cli: &'a Cli) -> RunConfig {
        arbitrary()
    }
}

impl<'a> From<&'a Cli> for RunConfig {
    /// Arguments are one source of plain inputs, and are resolved as such.
    fn from(cli: &'a Cli) -> (out: RunConfig)
        ensures
            out@ == config_of_arguments(*cli),
    {
        let lcov_path = match &cli.lcov_path {
            Some(path) => Some(path.clone()),
            None => None,
        };
        let test_command = match &cli.test_command {
            Some(command) => Some(command.as_str()),
            None => None,
        };
        RunConfig::new(cli.path.clone(), lcov_path, test_command, &cli.filter)
    }
}

/// What is to be said about a report as a whole, below its rows.
#[derive(Debug, Clone, Copy, PartialEq, Eq)]
pub struct Caveats {
    /// How many rows it has.
    pub rows: usize,
    /// How many modules were declined.
    pub declined: usize,
}

impl Caveats {
    /// The lines of the block: that there is no row, and how many modules were
    /// declined.
    pub open spec fn lines(self) -> Seq<Seq<char>> {
        let empty = if self.rows == 0 {
            seq!["no functions reported"@]
        } else {
            Seq::empty()
        };
        let declined = if self.declined > 0 {
            let unit = if self.declined == 1 {
                "module"@
            } else {
                "modules"@
            };
            seq![text::decimal(self.declined as nat) + " "@ + unit + " not analysed (see stderr)"@]
        } else {
            Seq::empty()
        };
        empty + declined
    }

    /// The block: nothing where there is nothing to say, and else a blank line
    /// and the lines.
    pub open spec fn block(self) -> Seq<char> {
        if self.lines().len() == 0 {
            Seq::empty()
        } else {
            "\n"@ + text::joined(self.lines(), "\n"@) + "\n"@
        }
    }

    /// Renders the block.
    pub fn render(&self) -> (out: String)
        ensures
            out@ == self.block(),
    {
        let mut lines: Vec<String> = Vec::new();
        if self.rows == 0 {
            lines.push("no functions reported".to_owned());
        }
        if self.declined > 0 {
            let mut line = text::number(self.declined as u64);
            line.append(" ");
            if self.declined == 1 {
                line.append("module");
            } else {
                line.append("modules");
            }
            line.append(" not analysed (see stderr)");
            lines.push(line);
        }
        assert(text::views(lines@) == self.lines());
        if lines.len() == 0 {
            String::new()
        } else {
            let mut out = "\n".to_owned();
            out.append(&text::join(&lines, "\n"));
            out.append("\n");
            out
        }
    }
}

/// Measures one discovered file. A file that no normal build compiles anything
/// of yields no unit, so that it claims no record.
pub fn measure(module: &Module, path: &str, file: &File) -> (out: Result<
    Option<SourceUnit>,
    AnalysisError,
>)
    ensures
        if module.test_only {
            out matches Ok(None)
        } else if complexity::measurable(complexity::file_functions(file@)) {
            out matches Ok(Some(unit)) && unit@ == (UnitView {
                module: module.module@,
                path: path@,
                functions: complexity::file_functions(file@),
            })
        } else {
            out matches Err(AnalysisError::TooComplex)
        },
{
    if module.test_only {
        return Ok(None);
    }
    if !complexity::is_measurable(file) {
        return Err(AnalysisError::TooComplex);
    }
    Ok(
        Some(
            SourceUnit {
                module: module.module.clone(),
                path: path.to_owned(),
                functions: complexity::analyze_file(file),
            },
        ),
    )
}

/// Whether a diagnostic concerns a narrowed report: it is about the run as a
/// whole, or about a file that is selected.
pub open spec fn in_scope(fragments: Seq<Seq<char>>, diagnostic: DiagnosticView) -> bool {
    match diagnostic.site {
        Some(site) => crate::filter::selects(fragments, site.file),
        None => true,
    }
}

/// The diagnostics that concern a narrowed report, in order.
pub open spec fn scoped(
    fragments: Seq<Seq<char>>,
    diagnostics: Seq<DiagnosticView>,
) -> Seq<DiagnosticView> {
    diagnostics.filter(|diagnostic: DiagnosticView| in_scope(fragments, diagnostic))
}

/// Whether a diagnostic concerns a narrowed report.
fn concerns(filters: &Filters, diagnostic: &Diagnostic) -> (r: bool)
    ensures
        r == in_scope(filters@, diagnostic@),
{
    match diagnostic.site() {
        Some(site) => filters.select(&site.file).is_selected(),
        None => true,
    }
}

/// Drops the diagnostics from `from` on that are about files which the filters
/// do not select. What was said before stays, and so does what is about the run
/// as a whole.
pub fn scope_to_filters(filters: &Filters, diagnostics: &mut Vec<Diagnostic>, from: usize)
    requires
        from <= old(diagnostics).len(),
    ensures
        crate::diagnostic::diagnostics_view(final(diagnostics)@)
            == crate::diagnostic::diagnostics_view(old(diagnostics)@).take(from as int) + scoped(
            filters@,
            crate::diagnostic::diagnostics_view(old(diagnostics)@).skip(from as int),
        ),
{
    let ghost all = crate::diagnostic::diagnostics_view(diagnostics@);
    let ghost later = all.skip(from as int);
    let mut rest = diagnostics.split_off(from);
    assert(crate::diagnostic::diagnostics_view(rest@) == later);
    assert(crate::diagnostic::diagnostics_view(diagnostics@) == all.take(from as int));
    let ghost n = rest@.len();
    proof {
        reveal(Seq::filter);
        assert(scoped(filters@, later.take(0)) == Seq::<DiagnosticView>::empty());
    }
    while rest.len() > 0
        invariant
            rest@.len() <= n,
            n == later.len(),
            crate::diagnostic::diagnostics_view(rest@) == later.skip(n - rest@.len()),
            crate::diagnostic::diagnostics_view(diagnostics@) == all.take(from as int) + scoped(
                filters@,
                later.take(n - rest@.len()),
            ),
        decreases rest.len(),
    {
        let ghost done = n - rest@.len();
        let ghost before = diagnostics@;
        let ghost kept = scoped(filters@, later.take(done));
        let ghost left = rest@;
        let diagnostic = rest.remove(0);
        assert(left[0] == diagnostic);
        assert(later.skip(done)[0] == diagnostic@) by {
            assert(crate::diagnostic::diagnostics_view(left)[0] == left[0]@);
        }
        assert(later[done] == diagnostic@);
        assert(crate::diagnostic::diagnostics_view(rest@) == later.skip(done + 1)) by {
            assert(crate::diagnostic::diagnostics_view(rest@)
                == crate::diagnostic::diagnostics_view(left).skip(1));
            assert(later.skip(done).skip(1) == later.skip(done + 1));
        }
        assert(later.take(done + 1).drop_last() == later.take(done));
        assert(later.take(done + 1).last() == diagnostic@);
        proof {
            reveal(Seq::filter);
        }
        if concerns(filters, &diagnostic) {
            diagnostics.push(diagnostic);
            assert(crate::diagnostic::diagnostics_view(diagnostics@)
                == crate::diagnostic::diagnostics_view(before).push(diagnostic@));
            assert((all.take(from as int) + kept).push(diagnostic@) == all.take(from as int)
                + kept.push(diagnostic@));
        }
    }
    assert(later.take(n as int) == later);
}

/// The modules that diagnostics report as declined.
pub open spec fn declined_modules(diagnostics: Seq<DiagnosticView>) -> Set<Seq<char>>
    decreases diagnostics.len(),
{
    if diagnostics.len() == 0 {
        Set::empty()
    } else {
        let rest = declined_modules(diagnostics.drop_last());
        match diagnostics.last().kind.declined() {
            Some(module) => rest.insert(module),
            None => rest,
        }
    }
}

/// How many modules the diagnostics from `from` on report as declined. One that
/// is declared twice counts once.
pub fn declined(diagnostics: &Vec<Diagnostic>, from: usize) -> (out: usize)
    requires
        from <= diagnostics.len(),
    ensures
        out == declined_modules(
            crate::diagnostic::diagnostics_view(diagnostics@).skip(from as int),
        ).len(),
{
    let ghost later = crate::diagnostic::diagnostics_view(diagnostics@).skip(from as int);
    let mut modules: Vec<String> = Vec::new();
    let mut i: usize = from;
    assert(later.take(0) == Seq::<DiagnosticView>::empty());
    while i < diagnostics.len()
        invariant
            from <= i <= diagnostics.len(),
            later == crate::diagnostic::diagnostics_view(diagnostics@).skip(from as int),
            modules@.len() <= i - from,
            modules@.len() == declined_modules(later.take(i - from)).len(),
            declined_modules(later.take(i - from)).finite(),
            forall|module: Seq<char>| #[trigger]
                text::views(modules@).contains(module) <==> declined_modules(
                    later.take(i - from),
                ).contains(module),
        decreases diagnostics.len() - i,
    {
        let ghost seen = declined_modules(later.take(i - from));
        assert(later.take(i + 1 - from).drop_last() == later.take(i - from));
        assert(later.take(i + 1 - from).last() == diagnostics@[i as int]@);
        match diagnostics[i].kind().declined_module() {
            Some(module) => {
                if !text::holds(&modules, module) {
                    let ghost before = text::views(modules@);
                    assert(!seen.contains(module@));
                    modules.push(module.to_owned());
                    let ghost after = text::views(modules@);
                    assert(after == before.push(module@));
                    assert forall|other: Seq<char>| #[trigger]
                        after.contains(other) <==> seen.insert(module@).contains(other) by {
                        if after.contains(other) {
                            let k = choose|k: int| 0 <= k < after.len() && after[k] == other;
                            if k < before.len() {
                                assert(before[k] == other);
                                assert(before.contains(other));
                            }
                        }
                        if seen.insert(module@).contains(other) {
                            if other == module@ {
                                assert(after[before.len() as int] == other);
                            } else {
                                assert(before.contains(other));
                                let k = choose|k: int| 0 <= k < before.len() && before[k] == other;
                                assert(after[k] == other);
                            }
                        }
                    }
                } else {
                    assert(seen.insert(module@) =~= seen);
                }
            },
            None => {},
        }
        i += 1;
    }
    assert(later.take(i - from) == later);
    modules.len()
}

/// What a caveat has to say.
pub open spec fn caveat_kind(caveat: CaveatView) -> KindView {
    match caveat {
        CaveatView::Suffix { key } => KindView::CoverageSuffixMatch { key },
        CaveatView::Absent => KindView::CoverageAbsent,
        CaveatView::Ambiguous { keys } => KindView::CoverageAmbiguous { keys },
        CaveatView::Contested { key, claimants } => KindView::CoverageContested { key, claimants },
        CaveatView::Superseded { key, winner } => KindView::CoverageSuperseded { key, winner },
    }
}

/// What is to be said about the attribution of a file: nothing of an exact
/// match.
pub open spec fn attribution_said(
    file: Seq<char>,
    attribution: AttributionView,
) -> Seq<DiagnosticView> {
    match attribution.caveat() {
        Some(caveat) => seq![
            DiagnosticView::run(
                SiteView { file, line: None, column: None },
                caveat_kind(caveat),
            ),
        ],
        None => Seq::empty(),
    }
}

/// What is to be said about the attributions of files, in order.
pub open spec fn attributions_said(
    attributions: Seq<(Seq<char>, AttributionView)>,
) -> Seq<DiagnosticView>
    decreases attributions.len(),
{
    if attributions.len() == 0 {
        Seq::empty()
    } else {
        attributions_said(attributions.drop_last()) + attribution_said(
            attributions.last().0,
            attributions.last().1,
        )
    }
}

/// Files with their attributions.
pub open spec fn attributions_view(
    attributions: Seq<(String, Attribution)>,
) -> Seq<(Seq<char>, AttributionView)> {
    attributions.map_values(|pair: (String, Attribution)| (pair.0@, pair.1@))
}

/// What a caveat has to say.
fn kind_of(caveat: Caveat<'_>) -> (out: Kind)
    ensures
        out@ == caveat_kind(caveat@),
{
    match caveat {
        Caveat::Suffix { key } => Kind::CoverageSuffixMatch { key: key.to_owned() },
        Caveat::Absent => Kind::CoverageAbsent,
        Caveat::Ambiguous { keys } => Kind::CoverageAmbiguous { keys: text::copies(keys) },
        Caveat::Contested { key, claimants } => Kind::CoverageContested {
            key: key.to_owned(),
            claimants: text::copies(claimants),
        },
        Caveat::Superseded { key, winner } => Kind::CoverageSuperseded {
            key: key.to_owned(),
            winner: winner.to_owned(),
        },
    }
}

/// Says what is to be said about the attributions of files.
///
/// A suffix match names the record that it landed on, a tie every record that it
/// was torn between, a collision the record and every file that claims it, and a
/// lost claim the file that won.
pub fn attribution_diagnostics(attributions: &Vec<(String, Attribution)>) -> (out: Vec<Diagnostic>)
    ensures
        crate::diagnostic::diagnostics_view(out@) == attributions_said(
            attributions_view(attributions@),
        ),
{
    let ghost views = attributions_view(attributions@);
    let mut out: Vec<Diagnostic> = Vec::new();
    let mut i: usize = 0;
    assert(views.take(0) == Seq::<(Seq<char>, AttributionView)>::empty());
    assert(crate::diagnostic::diagnostics_view(out@) == Seq::<DiagnosticView>::empty());
    while i < attributions.len()
        invariant
            i <= attributions.len(),
            views == attributions_view(attributions@),
            crate::diagnostic::diagnostics_view(out@) == attributions_said(views.take(i as int)),
        decreases attributions.len() - i,
    {
        let ghost seen = attributions_said(views.take(i as int));
        assert(views.take(i + 1).drop_last() == views.take(i as int));
        let (file, attribution) = &attributions[i];
        assert(views.take(i + 1).last() == (file@, attribution@));
        match attribution.caveat() {
            Some(caveat) => {
                let ghost before = out@;
                let diagnostic = Diagnostic::run(Site::file(file), kind_of(caveat));
                out.push(diagnostic);
                assert(crate::diagnostic::diagnostics_view(out@)
                    == crate::diagnostic::diagnostics_view(before).push(diagnostic@));
                assert(seen.push(diagnostic@) == seen + attribution_said(file@, attribution@));
            },
            None => {
                assert(seen + attribution_said(file@, attribution@) == seen);
            },
        }
        i += 1;
    }
    assert(views.take(i as int) == views);
    out
}

/// The fragments that match none of the paths, in order.
pub open spec fn idle(fragments: Seq<Seq<char>>, paths: Seq<Seq<char>>) -> Seq<Seq<char>>
    decreases fragments.len(),
{
    if fragments.len() == 0 {
        Seq::empty()
    } else {
        let rest = idle(fragments.drop_last(), paths);
        if matches_some(fragments.last(), paths) {
            rest
        } else {
            rest.push(fragments.last())
        }
    }
}

/// Whether a fragment matches one of the paths.
pub open spec fn matches_some(fragment: Seq<char>, paths: Seq<Seq<char>>) -> bool {
    exists|i: int|
        0 <= i < paths.len() && crate::filter::matches_path(fragment, #[trigger] paths[i])
}

/// The paths of units.
pub open spec fn unit_paths(units: Seq<UnitView>) -> Seq<Seq<char>> {
    units.map_values(|unit: UnitView| unit.path)
}

/// What is to be said about fragments that match nothing.
pub open spec fn idle_said(fragments: Seq<Seq<char>>) -> Seq<DiagnosticView> {
    fragments.map_values(
        |filter: Seq<char>| DiagnosticView::global(KindView::FilterMatchedNothing { filter }),
    )
}

proof fn lemma_idle(fragments: Seq<Seq<char>>, paths: Seq<Seq<char>>, matched: Set<int>, n: int)
    requires
        0 <= n <= fragments.len(),
        forall|i: int|
            0 <= i < fragments.len() ==> (matched.contains(i) <==> matches_some(
                #[trigger] fragments[i],
                paths,
            )),
    ensures
        crate::filter::unmatched_of(fragments.take(n), matched) == idle(fragments.take(n), paths),
    decreases n,
{
    if n > 0 {
        lemma_idle(fragments, paths, matched, n - 1);
        assert(fragments.take(n).drop_last() == fragments.take(n - 1));
        assert(fragments.take(n).last() == fragments[n - 1]);
    }
}

/// The positions of the fragments that match some unit.
fn matched_positions(filters: &Filters, units: &Vec<SourceUnit>) -> (out: Vec<usize>)
    ensures
        forall|i: int|
            0 <= i < filters@.len() ==> (crate::filter::position_set(out@).contains(i)
                <==> matches_some(#[trigger] filters@[i], unit_paths(join::units_view(units@)))),
{
    let ghost fragments = filters@;
    let ghost paths = unit_paths(join::units_view(units@));
    let mut out: Vec<usize> = Vec::new();
    let mut n: usize = 0;
    while n < units.len()
        invariant
            n <= units.len(),
            fragments == filters@,
            paths == unit_paths(join::units_view(units@)),
            forall|p: usize| #[trigger]
                out@.contains(p) ==> p < fragments.len() && matches_some(
                    fragments[p as int],
                    paths,
                ),
            forall|i: int, k: int|
                0 <= i < fragments.len() && 0 <= k < n && crate::filter::matches_path(
                    #[trigger] fragments[i],
                    #[trigger] paths[k],
                ) ==> i <= usize::MAX && out@.contains(i as usize),
        decreases units.len() - n,
    {
        let selection = filters.select(&units[n].path);
        let ghost path = units@[n as int].path@;
        assert(paths[n as int] == path);
        let ghost found = selection.positions();
        let ghost before = out@;
        proof {
            crate::filter::lemma_matching(fragments, path);
        }
        let mut more: Vec<usize> = Vec::new();
        let matched = selection.matched();
        let mut k: usize = 0;
        while k < matched.len()
            invariant
                k <= matched.len(),
                more@ == matched@.take(k as int),
            decreases matched.len() - k,
        {
            more.push(matched[k]);
            k += 1;
            assert(matched@.take(k as int) == matched@.take(k - 1).push(matched@[k - 1]));
        }
        assert(matched@.take(k as int) == matched@);
        assert(more@ == found);
        out.append(&mut more);
        proof {
            let all = crate::filter::matching(fragments, path);
            assert(found.map_values(|i: usize| i as int) == all);
            assert forall|p: usize| #[trigger] out@.contains(p) implies p < fragments.len()
                && matches_some(fragments[p as int], paths) by {
                let m = choose|m: int| 0 <= m < out@.len() && out@[m] == p;
                if m < before.len() {
                    assert(before[m] == p);
                    assert(before.contains(p));
                } else {
                    assert(found[m - before.len()] == p);
                    assert(all[m - before.len()] == p);
                    assert(crate::filter::matches_path(fragments[p as int], paths[n as int]));
                }
            }
            assert forall|i: int, j: int|
                0 <= i < fragments.len() && 0 <= j < n + 1 && crate::filter::matches_path(
                    #[trigger] fragments[i],
                    #[trigger] paths[j],
                ) implies i <= usize::MAX && out@.contains(i as usize) by {
                if j < n {
                    assert(before.contains(i as usize));
                    let m = choose|m: int| 0 <= m < before.len() && before[m] == i as usize;
                    assert(out@[m] == i as usize);
                } else {
                    assert(all.contains(i));
                    let m = choose|m: int| 0 <= m < all.len() && all[m] == i;
                    assert(found[m] as int == all[m]);
                    assert(out@[before.len() + m] == found[m]);
                }
            }
        }
        n += 1;
    }
    assert forall|i: int| 0 <= i < fragments.len() implies (crate::filter::position_set(
        out@,
    ).contains(i) <==> matches_some(#[trigger] fragments[i], paths)) by {
        if matches_some(fragments[i], paths) {
            let k = choose|k: int|
                0 <= k < paths.len() && crate::filter::matches_path(
                    fragments[i],
                    #[trigger] paths[k],
                );
            assert(out@.contains(i as usize));
        }
    }
    out
}

/// Says which fragments match no unit.
fn idle_diagnostics(filters: &Filters, units: &Vec<SourceUnit>) -> (out: Vec<Diagnostic>)
    ensures
        crate::diagnostic::diagnostics_view(out@) == idle_said(
            idle(filters@, unit_paths(join::units_view(units@))),
        ),
{
    let matched = matched_positions(filters, units);
    let names = filters.unmatched(&matched);
    proof {
        lemma_idle(
            filters@,
            unit_paths(join::units_view(units@)),
            crate::filter::position_set(matched@),
            filters@.len() as int,
        );
        assert(filters@.take(filters@.len() as int) == filters@);
    }
    let mut out: Vec<Diagnostic> = Vec::new();
    let mut i: usize = 0;
    while i < names.len()
        invariant
            i <= names.len(),
            out@.len() == i,
            forall|k: int|
                0 <= k < i ==> (#[trigger] out@[k])@ == DiagnosticView::global(
                    KindView::FilterMatchedNothing { filter: names@[k]@ },
                ),
        decreases names.len() - i,
    {
        out.push(Diagnostic::global(Kind::FilterMatchedNothing { filter: names[i].clone() }));
        i += 1;
    }
    assert(crate::diagnostic::diagnostics_view(out@) == idle_said(text::views(names@)));
    out
}

/// The files that are shown of a report, in order.
pub open spec fn shown(
    fragments: Seq<Seq<char>>,
    files: Seq<JoinedFileView>,
) -> Seq<JoinedFileView> {
    files.filter(|file: JoinedFileView| crate::filter::selects(fragments, file.file))
}

/// Drops the files that the filters do not select. Every value was computed as
/// if there were no filter.
pub fn retain_selected(files: Vec<JoinedFile>, filters: &Filters) -> (out: Vec<JoinedFile>)
    ensures
        join::files_view(out@) == shown(filters@, join::files_view(files@)),
        forall|k: int| 0 <= k < out@.len() ==> files@.contains(#[trigger] out@[k]),
{
    let ghost all = files@;
    let ghost views = join::files_view(all);
    let ghost n = all.len();
    let mut rest = files;
    let mut out: Vec<JoinedFile> = Vec::new();
    proof {
        reveal(Seq::filter);
        assert(shown(filters@, views.take(0)) == Seq::<JoinedFileView>::empty());
        assert(join::files_view(out@) == Seq::<JoinedFileView>::empty());
        assert(all.skip(0) == all);
    }
    while rest.len() > 0
        invariant
            rest@.len() <= n,
            n == all.len(),
            views == join::files_view(all),
            rest@ == all.skip(n - rest@.len()),
            join::files_view(out@) == shown(filters@, views.take(n - rest@.len())),
            forall|k: int| 0 <= k < out@.len() ==> all.contains(#[trigger] out@[k]),
        decreases rest.len(),
    {
        let ghost done = n - rest@.len();
        let ghost before = out@;
        let ghost left = rest@;
        let file = rest.remove(0);
        assert(left[0] == file);
        assert(all[done] == file);
        assert(rest@ == all.skip(done + 1));
        assert(views.take(done + 1).drop_last() == views.take(done));
        assert(views.take(done + 1).last() == file@);
        proof {
            reveal(Seq::filter);
        }
        if filters.select(&file.file).is_selected() {
            assert(all.contains(file));
            out.push(file);
            assert(join::files_view(out@) == join::files_view(before).push(file@));
        }
    }
    assert(views.take(n as int) == views);
    out
}

/// What a run found.
#[derive(Debug)]
pub struct Analysis {
    /// The files that are shown, with their functions.
    pub files: Vec<JoinedFile>,
    /// How many modules were declined.
    pub declined: usize,
}

/// The files that a run shows: those that the filters select, out of a join over
/// all of them.
pub open spec fn files_shown(
    config: ConfigView,
    profile: Profile,
    units: Seq<UnitView>,
) -> Seq<JoinedFileView> {
    shown(config.filters, join::joined_files(profile, units))
}

/// Files with their attributions.
pub open spec fn file_attributions(
    files: Seq<JoinedFileView>,
) -> Seq<(Seq<char>, AttributionView)> {
    files.map_values(|file: JoinedFileView| (file.file, file.attribution))
}

/// What a run says after discovery: about the attributions of the files that it
/// shows, and about fragments that match no file.
pub open spec fn run_said(
    config: ConfigView,
    profile: Profile,
    units: Seq<UnitView>,
) -> Seq<DiagnosticView> {
    attributions_said(file_attributions(files_shown(config, profile, units))) + idle_said(
        idle(config.filters, unit_paths(units)),
    )
}

/// The diagnostics after a run. Those from `discovered` on were said by
/// discovery, and only those that concern the report stay.
pub open spec fn diagnostics_after(
    config: ConfigView,
    profile: Profile,
    units: Seq<UnitView>,
    before: Seq<DiagnosticView>,
    discovered: int,
) -> Seq<DiagnosticView> {
    before.take(discovered) + scoped(config.filters, before.skip(discovered)) + run_said(
        config,
        profile,
        units,
    )
}

/// How many modules a run tells that discovery declined.
pub open spec fn modules_declined(
    config: ConfigView,
    before: Seq<DiagnosticView>,
    discovered: int,
) -> nat {
    declined_modules(scoped(config.filters, before.skip(discovered))).len()
}

/// Joins what was discovered with coverage, and narrows what is shown and said.
///
/// The join sees every unit, so that a filter changes which functions are shown
/// and never what is shown of one. `diagnostics` holds from `discovered` on what
/// discovery said; what the run has to say is added to it.
pub fn analyse<F: Fn(u32, Fraction) -> Figures>(
    config: &RunConfig,
    lcov: &LcovData,
    units: &Vec<SourceUnit>,
    score: &F,
    discovered: usize,
    diagnostics: &mut Vec<Diagnostic>,
) -> (out: Analysis)
    requires
        discovered <= old(diagnostics).len(),
        join::scores_anything(*score),
    ensures
        join::files_view(out.files@) == files_shown(config@, lcov@, join::units_view(units@)),
        join::all_scored_by(*score, out.files@),
        out.declined == modules_declined(
            config@,
            crate::diagnostic::diagnostics_view(old(diagnostics)@),
            discovered as int,
        ),
        crate::diagnostic::diagnostics_view(final(diagnostics)@) == diagnostics_after(
            config@,
            lcov@,
            join::units_view(units@),
            crate::diagnostic::diagnostics_view(old(diagnostics)@),
            discovered as int,
        ),
{
    let ghost before = crate::diagnostic::diagnostics_view(diagnostics@);
    let ghost kept = before.take(discovered as int);
    let ghost later = scoped(config@.filters, before.skip(discovered as int));
    scope_to_filters(&config.filters, diagnostics, discovered);
    assert((kept + later).skip(discovered as int) == later);
    let declined = declined(diagnostics, discovered);
    let joined = join::join(lcov, units, score);
    let ghost all = joined.files@;
    let files = retain_selected(joined.files, &config.filters);
    assert forall|i: int, j: int|
        0 <= i < files@.len() && 0 <= j < files@[i].functions@.len() implies join::scored_by(
        *score,
        #[trigger] files@[i].functions@[j],
    ) by {
        assert(all.contains(files@[i]));
        let k = choose|k: int| 0 <= k < all.len() && all[k] == files@[i];
        assert(join::scored_by(*score, all[k].functions@[j]));
    }
    let mut attributions: Vec<(String, Attribution)> = Vec::new();
    let mut i: usize = 0;
    while i < files.len()
        invariant
            i <= files.len(),
            attributions@.len() == i,
            forall|k: int|
                0 <= k < i ==> (#[trigger] attributions@[k]).0@ == files@[k]@.file
                    && attributions@[k].1@ == files@[k]@.attribution,
        decreases files.len() - i,
    {
        attributions.push((files[i].file.clone(), files[i].attribution.clone()));
        i += 1;
    }
    assert(attributions_view(attributions@) == file_attributions(join::files_view(files@)));
    let mut more = attribution_diagnostics(&attributions);
    let mut unmatched = idle_diagnostics(&config.filters, units);
    let ghost first = crate::diagnostic::diagnostics_view(more@);
    let ghost second = crate::diagnostic::diagnostics_view(unmatched@);
    let ghost x = diagnostics@;
    let ghost y = more@;
    let ghost z = unmatched@;
    diagnostics.append(&mut more);
    diagnostics.append(&mut unmatched);
    assert(diagnostics@ == x + y + z);
    assert(crate::diagnostic::diagnostics_view(diagnostics@) == kept + later + (first + second));
    Analysis { files, declined }
}

/// The table of what a run found, and the block below it.
pub open spec fn table(files: Seq<JoinedFile>, declined: usize) -> Seq<char> {
    let rows = report::rows_of(files);
    report::report(rows) + Caveats { rows: rows.len() as usize, declined }.block()
}

/// Renders what a run found as a table, and below it what is to be said about
/// the report as a whole.
pub fn render(analysis: &Analysis) -> (out: String)
    ensures
        out@ == table(analysis.files@, analysis.declined),
{
    let rows = report::rows_from_files(&analysis.files);
    let mut out = report::format_report(&rows);
    let caveats = Caveats { rows: rows.len(), declined: analysis.declined };
    assert(report::rows_of(analysis.files@).len() == rows@.len());
    out.append(&caveats.render());
    out
}

/// Whether files are what a run shows, with figures that the arithmetic makes.
pub open spec fn found_by_run<F: Fn(u32, Fraction) -> Figures>(
    config: ConfigView,
    profile: Profile,
    units: Seq<UnitView>,
    score: F,
    files: Seq<JoinedFile>,
) -> bool {
    &&& join::files_view(files) == files_shown(config, profile, units)
    &&& join::all_scored_by(score, files)
}

/// Runs everything between discovery and printing, and gives the report.
///
/// What the run has to say is added to `diagnostics`. A function with a high
/// score is simply reported, and a match that is vague, tied or missing is said
/// and not failed on.
pub fn run<F: Fn(u32, Fraction) -> Figures>(
    config: &RunConfig,
    lcov: &LcovData,
    units: &Vec<SourceUnit>,
    score: &F,
    discovered: usize,
    diagnostics: &mut Vec<Diagnostic>,
) -> (out: String)
    requires
        discovered <= old(diagnostics).len(),
        join::scores_anything(*score),
    ensures
        exists|files: Seq<JoinedFile>| #[trigger]
            found_by_run(config@, lcov@, join::units_view(units@), *score, files) && out@ == table(
                files,
                modules_declined(
                    config@,
                    crate::diagnostic::diagnostics_view(old(diagnostics)@),
                    discovered as int,
                ) as usize,
            ),
        crate::diagnostic::diagnostics_view(final(diagnostics)@) == diagnostics_after(
            config@,
            lcov@,
            join::units_view(units@),
            crate::diagnostic::diagnostics_view(old(diagnostics)@),
            discovered as int,
        ),
{
    let analysis = analyse(config, lcov, units, score, discovered, diagnostics);
    assert(found_by_run(
        config@,
        lcov@,
        join::units_view(units@),
        *score,
        analysis.files@,
    ));
    render(&analysis)
}

/// A filter narrows a report and changes nothing in it: a file that is shown
/// under a filter is shown without one, with the same attribution and the same
/// functions, and every file that the filter selects is shown.
pub proof fn law_a_filter_narrows_and_changes_nothing(
    config: ConfigView,
    profile: Profile,
    units: Seq<UnitView>,
    i: int,
)
    requires
        0 <= i < units.len(),
    ensures
        files_shown(config, profile, units).contains(join::joined_files(profile, units)[i])
            <==> crate::filter::selects(config.filters, units[i].path),
        forall|k: int|
            0 <= k < files_shown(config, profile, units).len() ==> join::joined_files(
                profile,
                units,
            ).contains(#[trigger] files_shown(config, profile, units)[k]),
        config.filters.len() == 0 ==> files_shown(config, profile, units).contains(
            join::joined_files(profile, units)[i],
        ),
{
    let all = join::joined_files(profile, units);
    let keep = |file: JoinedFileView| crate::filter::selects(config.filters, file.file);
    let kept = files_shown(config, profile, units);
    assert(kept == all.filter(keep));
    assert(all[i].file == units[i].path);
    if crate::filter::selects(config.filters, units[i].path) {
        all.lemma_filter_contains(keep, i);
    }
    if kept.contains(all[i]) {
        let k = choose|k: int| 0 <= k < kept.len() && kept[k] == all[i];
        all.lemma_filter_pred(keep, k);
    }
    assert forall|k: int| 0 <= k < kept.len() implies all.contains(#[trigger] kept[k]) by {
        assert(kept.contains(kept[k]));
        all.lemma_filter_contains_rev(keep, kept[k]);
    }
}

/// The rows of one file.
spec fn file_rows(file: JoinedFile) -> Seq<RowView> {
    file.functions@.map_values(|function: JoinedFunction| report::row_of(function))
}

/// Whether the figures of every function of a file are what the arithmetic makes.
spec fn file_scored_by<F: Fn(u32, Fraction) -> Figures>(score: F, file: JoinedFile) -> bool {
    forall|j: int|
        0 <= j < file.functions@.len() ==> join::scored_by(score, #[trigger] file.functions@[j])
}

/// Files of which the same is said have the same rows and the same entries, where
/// the arithmetic makes the same of the same numbers.
proof fn lemma_same_rows<F: Fn(u32, Fraction) -> Figures>(score: F, a: JoinedFile, b: JoinedFile)
    requires
        join::scores_alike(score),
        file_scored_by(score, a),
        file_scored_by(score, b),
        a@ == b@,
    ensures
        file_rows(a) == file_rows(b),
        json::file_entries(a) == json::file_entries(b),
{
    assert(a@.functions.len() == a.functions@.len());
    assert(b@.functions.len() == b.functions@.len());
    assert forall|j: int| 0 <= j < a.functions@.len() implies file_rows(a)[j] == file_rows(b)[j]
        && json::file_entries(a)[j] == json::file_entries(b)[j] by {
        let x = a.functions@[j];
        let y = b.functions@[j];
        assert(a@.functions[j] == x@);
        assert(b@.functions[j] == y@);
        assert(x.complexity as nat == y.complexity as nat);
        assert(join::scored_by(score, x) && join::scored_by(score, y));
        if x.lines is Some {
            let fraction = x.lines->Some_0.ratio();
            assert(call_ensures(
                score,
                (x.complexity, fraction),
                Figures { coverage: x.coverage->Some_0, crap: x.crap->Some_0 },
            ));
            assert(call_ensures(
                score,
                (x.complexity, fraction),
                Figures { coverage: y.coverage->Some_0, crap: y.crap->Some_0 },
            ));
        }
    }
    assert(file_rows(a) == file_rows(b));
    assert(json::file_entries(a) == json::file_entries(b));
}

/// What files list, one file after the other.
spec fn listed<T>(files: Seq<JoinedFile>, list: spec_fn(JoinedFile) -> Seq<T>) -> Seq<T>
    decreases files.len(),
{
    if files.len() == 0 {
        Seq::empty()
    } else {
        listed(files.drop_last(), list) + list(files.last())
    }
}

proof fn lemma_listed(files: Seq<JoinedFile>)
    ensures
        report::rows_of(files) == listed(files, |file: JoinedFile| file_rows(file)),
        json::entries_of(files) == listed(files, |file: JoinedFile| json::file_entries(file)),
    decreases files.len(),
{
    if files.len() > 0 {
        lemma_listed(files.drop_last());
    }
}

/// What the files that are shown list is what all of them list, of those files.
proof fn lemma_listed_shown<T>(
    fragments: Seq<Seq<char>>,
    files: Seq<JoinedFile>,
    all: Seq<JoinedFile>,
    list: spec_fn(JoinedFile) -> Seq<T>,
    path: spec_fn(T) -> Seq<char>,
)
    requires
        join::files_view(files) == shown(fragments, join::files_view(all)),
        forall|i: int, k: int|
            0 <= i < files.len() && 0 <= k < all.len() && (#[trigger] files[i])@ == (
            #[trigger] all[k])@ ==> list(files[i]) == list(all[k]),
        forall|k: int, j: int|
            0 <= k < all.len() && 0 <= j < list(all[k]).len() ==> path(
                #[trigger] list(all[k])[j],
            ) == all[k]@.file,
    ensures
        listed(files, list) == listed(all, list).filter(
            |item: T| crate::filter::selects(fragments, path(item)),
        ),
    decreases all.len(),
{
    let keep = |item: T| crate::filter::selects(fragments, path(item));
    let keep_file = |file: JoinedFileView| crate::filter::selects(fragments, file.file);
    let views = join::files_view(all);
    assert(shown(fragments, views) == views.filter(keep_file));
    if all.len() == 0 {
        reveal(Seq::filter);
        assert(join::files_view(files).len() == 0);
    } else {
        let n = all.len() - 1;
        let rest = all.drop_last();
        let last = all[n];
        let earlier = join::files_view(rest);
        assert(views == earlier.push(last@));
        earlier.lemma_filter_push(last@, keep_file);
        assert(shown(fragments, earlier) == earlier.filter(keep_file));
        assert forall|k: int, j: int|
            0 <= k < rest.len() && 0 <= j < list(rest[k]).len() implies path(
            #[trigger] list(rest[k])[j],
        ) == rest[k]@.file by {
            assert(rest[k] == all[k]);
        }
        let items = list(last);
        assert forall|j: int| 0 <= j < items.len() implies path(#[trigger] items[j])
            == last@.file by {
            assert(path(list(all[n])[j]) == all[n]@.file);
        }
        Seq::filter_distributes_over_add(listed(rest, list), items, keep);
        if keep_file(last@) {
            let m = files.len() - 1;
            let fewer = files.drop_last();
            let seen = join::files_view(files);
            assert(seen == earlier.filter(keep_file).push(last@));
            assert(seen[m] == files[m]@);
            assert(join::files_view(fewer) == seen.drop_last());
            assert(seen.drop_last() == earlier.filter(keep_file));
            assert forall|i: int, k: int|
                0 <= i < fewer.len() && 0 <= k < rest.len() && (#[trigger] fewer[i])@ == (
                #[trigger] rest[k])@ implies list(fewer[i]) == list(rest[k]) by {
                assert(fewer[i] == files[i] && rest[k] == all[k]);
            }
            lemma_listed_shown(fragments, fewer, rest, list, path);
            assert(list(files[m]) == list(all[n]));
            lemma_filter_keeps_all(items, keep);
        } else {
            assert forall|i: int, k: int|
                0 <= i < files.len() && 0 <= k < rest.len() && (#[trigger] files[i])@ == (
                #[trigger] rest[k])@ implies list(files[i]) == list(rest[k]) by {
                assert(rest[k] == all[k]);
            }
            lemma_listed_shown(fragments, files, rest, list, path);
            items.lemma_all_neg_filter_empty(keep);
            assert(listed(rest, list).filter(keep) + items.filter(keep) == listed(
                rest,
                list,
            ).filter(keep));
        }
    }
}

proof fn lemma_filter_keeps_all<T>(list: Seq<T>, keep: spec_fn(T) -> bool)
    requires
        forall|i: int| 0 <= i < list.len() ==> keep(#[trigger] list[i]),
    ensures
        list.filter(keep) == list,
    decreases list.len(),
{
    reveal(Seq::filter);
    if list.len() > 0 {
        let rest = list.drop_last();
        assert forall|i: int| 0 <= i < rest.len() implies keep(#[trigger] rest[i]) by {
            assert(rest[i] == list[i]);
        }
        lemma_filter_keeps_all(rest, keep);
        assert(keep(list[list.len() - 1]));
        assert(rest.push(list.last()) == list);
    }
}

/// What a run without a filter found: every file, each function known by the path
/// of its file.
proof fn lemma_unfiltered<F: Fn(u32, Fraction) -> Figures>(
    config: ConfigView,
    profile: Profile,
    units: Seq<UnitView>,
    score: F,
    all: Seq<JoinedFile>,
)
    requires
        config.filters.len() == 0,
        found_by_run(config, profile, units, score, all),
    ensures
        join::files_view(all) == join::joined_files(profile, units),
        forall|k: int, j: int|
            0 <= k < all.len() && 0 <= j < all[k].functions@.len() ==> (
            #[trigger] all[k].functions@[j]).file@ == all[k]@.file,
{
    let joined = join::joined_files(profile, units);
    let anything = |file: JoinedFileView| crate::filter::selects(config.filters, file.file);
    lemma_filter_keeps_all(joined, anything);
    assert(shown(config.filters, joined) == joined.filter(anything));
    let views = join::files_view(all);
    assert(views == joined);
    assert(views.len() == all.len());
    assert forall|k: int, j: int|
        0 <= k < all.len() && 0 <= j < all[k].functions@.len() implies (
    #[trigger] all[k].functions@[j]).file@ == all[k]@.file by {
        assert(views[k] == all[k]@);
        assert(joined[k] == join::joined_file(profile, units, units[k]));
        assert(joined[k].functions.len() == units[k].functions.len());
        assert(joined[k].functions.len() == all[k].functions@.len());
        assert(joined[k].functions[j].file == units[k].path);
        assert(views[k].functions[j] == all[k].functions@[j]@);
    }
}

/// A filter narrows a report and changes nothing in it: the rows of the table
/// under it are those without it whose files it selects, every column as it was
/// and in the same order, and so are the functions of the document. The
/// arithmetic has to make the same figures of the same numbers every time.
pub proof fn law_a_filter_leaves_the_rows_as_they_are<F: Fn(u32, Fraction) -> Figures>(
    config: ConfigView,
    profile: Profile,
    units: Seq<UnitView>,
    score: F,
    files: Seq<JoinedFile>,
    all: Seq<JoinedFile>,
)
    requires
        join::scores_alike(score),
        found_by_run(config, profile, units, score, files),
        found_by_run(
            (ConfigView { filters: Seq::empty(), ..config }),
            profile,
            units,
            score,
            all,
        ),
    ensures
        report::ordered(report::rows_of(files)) == report::ordered(report::rows_of(all)).filter(
            |row: RowView| crate::filter::selects(config.filters, row.file),
        ),
        json::entries_in_order(json::entries_of(files)) == json::entries_in_order(
            json::entries_of(all),
        ).filter(|entry: EntryView| crate::filter::selects(config.filters, entry.file)),
{
    let bare = ConfigView { filters: Seq::empty(), ..config };
    lemma_unfiltered(bare, profile, units, score, all);
    let list = |file: JoinedFile| file_rows(file);
    let list_entries = |file: JoinedFile| json::file_entries(file);
    let path = |row: RowView| row.file;
    let entry_path = |entry: EntryView| entry.file;
    assert forall|i: int, k: int|
        0 <= i < files.len() && 0 <= k < all.len() && (#[trigger] files[i])@ == (
        #[trigger] all[k])@ implies list(files[i]) == list(all[k]) && list_entries(files[i])
        == list_entries(all[k]) by {
        assert forall|j: int| 0 <= j < files[i].functions@.len() implies join::scored_by(
            score,
            #[trigger] files[i].functions@[j],
        ) by {}
        assert forall|j: int| 0 <= j < all[k].functions@.len() implies join::scored_by(
            score,
            #[trigger] all[k].functions@[j],
        ) by {}
        lemma_same_rows(score, files[i], all[k]);
    }
    assert forall|k: int, j: int| 0 <= k < all.len() && 0 <= j < list(all[k]).len() implies path(
        #[trigger] list(all[k])[j],
    ) == all[k]@.file by {
        assert(all[k].functions@[j].file@ == all[k]@.file);
    }
    assert forall|k: int, j: int|
        0 <= k < all.len() && 0 <= j < list_entries(all[k]).len() implies entry_path(
        #[trigger] list_entries(all[k])[j],
    ) == all[k]@.file by {
        assert(all[k].functions@[j].file@ == all[k]@.file);
    }
    lemma_listed(files);
    lemma_listed(all);
    let keep = |row: RowView| crate::filter::selects(config.filters, row.file);
    let rank = |row: RowView| report::row_key(row);
    let rows = report::rows_of(all);
    lemma_listed_shown(config.filters, files, all, list, path);
    assert(keep =~= (|row: RowView| crate::filter::selects(config.filters, path(row))));
    crate::order::law_leaving_out_keeps_the_order(rows, rank, keep);
    assert(report::ordered(rows) == crate::order::sorted_by(rows, rank));
    assert(report::ordered(rows.filter(keep)) == crate::order::sorted_by(rows.filter(keep), rank));
    let keep_entry = |entry: EntryView| crate::filter::selects(config.filters, entry.file);
    let entry_rank = |entry: EntryView| json::entry_key(entry);
    let entries = json::entries_of(all);
    lemma_listed_shown(config.filters, files, all, list_entries, entry_path);
    assert(keep_entry =~= (|entry: EntryView|
        crate::filter::selects(config.filters, entry_path(entry))));
    crate::order::law_leaving_out_keeps_the_order(entries, entry_rank, keep_entry);
    assert(json::entries_in_order(entries) == crate::order::sorted_by(entries, entry_rank));
    assert(json::entries_in_order(entries.filter(keep_entry)) == crate::order::sorted_by(
        entries.filter(keep_entry),
        entry_rank,
    ));
}

/// What was said before discovery stays, and so does everything that is about
/// the run as a whole.
pub proof fn law_scoping_keeps_what_is_about_the_run(
    fragments: Seq<Seq<char>>,
    diagnostics: Seq<DiagnosticView>,
    i: int,
)
    requires
        0 <= i < diagnostics.len(),
        diagnostics[i].site is None,
    ensures
        scoped(fragments, diagnostics).contains(diagnostics[i]),
{
    diagnostics.lemma_filter_contains(
        |diagnostic: DiagnosticView| in_scope(fragments, diagnostic),
        i,
    );
}

/// Nothing is said about the discovery of a file that is not selected.
pub proof fn law_scoping_drops_what_is_not_selected(
    fragments: Seq<Seq<char>>,
    diagnostics: Seq<DiagnosticView>,
    k: int,
)
    requires
        0 <= k < scoped(fragments, diagnostics).len(),
    ensures
        scoped(fragments, diagnostics)[k].site matches Some(site) ==> crate::filter::selects(
            fragments,
            site.file,
        ),
{
    diagnostics.lemma_filter_pred(
        |diagnostic: DiagnosticView| in_scope(fragments, diagnostic),
        k,
    );
}

/// A complete report with rows has no block below it.
pub proof fn law_nothing_to_say_is_nothing_said(rows: usize)
    requires
        rows > 0,
    ensures
        (Caveats { rows, declined: 0 }).block() == Seq::<char>::empty(),
{
}

/// A fragment is told to match nothing exactly if it was given and matches no
/// file.
pub proof fn law_a_fragment_is_told_exactly_if_it_matches_nothing(
    fragments: Seq<Seq<char>>,
    paths: Seq<Seq<char>>,
    fragment: Seq<char>,
)
    ensures
        idle(fragments, paths).contains(fragment) <==> fragments.contains(fragment)
            && !matches_some(fragment, paths),
    decreases fragments.len(),
{
    if fragments.len() > 0 {
        let rest = fragments.drop_last();
        let last = fragments.last();
        law_a_fragment_is_told_exactly_if_it_matches_nothing(rest, paths, fragment);
        let told = idle(rest, paths);
        assert(fragments == rest.push(last));
        assert(fragments.contains(fragment) <==> rest.contains(fragment) || fragment == last) by {
            if rest.contains(fragment) {
                let k = choose|k: int| 0 <= k < rest.len() && rest[k] == fragment;
                assert(fragments[k] == fragment);
            }
            if fragment == last {
                assert(fragments[fragments.len() - 1] == fragment);
            }
        }
        assert(told.push(last).contains(fragment) <==> told.contains(fragment) || fragment
            == last) by {
            if told.contains(fragment) {
                let k = choose|k: int| 0 <= k < told.len() && told[k] == fragment;
                assert(told.push(last)[k] == fragment);
            }
            if fragment == last {
                assert(told.push(last)[told.len() as int] == fragment);
            }
        }
    }
}

/// A file whose record matches it exactly is not spoken of, and of any other
/// exactly one thing is said, which names the file.
pub proof fn law_one_word_for_every_file_without_an_exact_record(
    file: Seq<char>,
    attribution: AttributionView,
)
    ensures
        match attribution {
            AttributionView::Resolved(ResolutionView::Exact(_)) => attribution_said(
                file,
                attribution,
            ) == Seq::<DiagnosticView>::empty(),
            _ => attribution_said(file, attribution).len() == 1 && attribution_said(
                file,
                attribution,
            )[0].site == Some(SiteView { file, line: None, column: None }),
        },
{
}

/// A run is asked for what was given: its path and its fragments as they are spelled.
pub proof fn law_a_run_is_what_was_asked_for(
    path: Seq<char>,
    lcov_path: Option<Seq<char>>,
    test_command: Option<Seq<char>>,
    filters: Seq<Seq<char>>,
)
    ensures
        ({
            let config = config_of(path, lcov_path, test_command, filters);
            &&& config.path == path
            &&& config.filters == filters
            &&& config.coverage == crate::runner::source_of(lcov_path, test_command)
            &&& config.diagnostics == crate::runner::advice_of(lcov_path, test_command)
        }),
{
}

/// Below a report it is said that it has no row exactly if it has none, and how many
/// modules were declined exactly if some were.
pub proof fn law_what_is_said_below_a_report(caveats: Caveats)
    ensures
        ({
            let empty = if caveats.rows == 0 {
                1nat
            } else {
                0nat
            };
            let some = if caveats.declined > 0 {
                1nat
            } else {
                0nat
            };
            &&& caveats.lines().len() == empty + some
            &&& caveats.rows == 0 ==> caveats.lines()[0] == "no functions reported"@
            &&& caveats.declined == 1 ==> caveats.lines().last()
                == "1 module not analysed (see stderr)"@
            &&& caveats.declined > 1 ==> caveats.lines().last() == text::decimal(
                caveats.declined as nat,
            ) + " modules not analysed (see stderr)"@
            &&& caveats.lines().len() == 0 ==> caveats.block() == Seq::<char>::empty()
            &&& caveats.lines().len() > 0 ==> caveats.block() == seq!['\n'] + text::joined(
                caveats.lines(),
                seq!['\n'],
            ) + seq!['\n']
        }),
{
    reveal_strlit("\n");
    reveal_strlit(" ");
    reveal_strlit("module");
    reveal_strlit("modules");
    reveal_strlit(" not analysed (see stderr)");
    reveal_strlit("1 module not analysed (see stderr)");
    reveal_strlit(" modules not analysed (see stderr)");
    assert("\n"@ == seq!['\n']);
    if caveats.declined == 1 {
        text::law_reading_undoes_writing(1);
        assert('1' as int == 49);
        assert(text::decimal(1)[0] == '1');
        assert(text::decimal(1) == seq!['1']);
        assert(seq!['1'] + " "@ + "module"@ + " not analysed (see stderr)"@
            == "1 module not analysed (see stderr)"@);
    }
    if caveats.declined > 1 {
        let n = text::decimal(caveats.declined as nat);
        assert(n + " "@ + "modules"@ + " not analysed (see stderr)"@ == n
            + " modules not analysed (see stderr)"@);
    }
}

/// A diagnostic stays in a narrowed report if it points at no file or at one that is
/// selected, and not otherwise; and those that stay keep their order.
pub proof fn law_what_stays_in_a_narrowed_report(
    fragments: Seq<Seq<char>>,
    a: Seq<DiagnosticView>,
    b: Seq<DiagnosticView>,
    diagnostic: DiagnosticView,
)
    ensures
        scoped(fragments, a + b) == scoped(fragments, a) + scoped(fragments, b),
        diagnostic.site is None ==> scoped(fragments, seq![diagnostic]) == seq![diagnostic],
        diagnostic.site matches Some(site) ==> scoped(fragments, seq![diagnostic]) == (
        if crate::filter::selects(fragments, site.file) {
            seq![diagnostic]
        } else {
            Seq::<DiagnosticView>::empty()
        }),
{
    let keep = |diagnostic: DiagnosticView| in_scope(fragments, diagnostic);
    Seq::filter_distributes_over_add(a, b, keep);
    assert(scoped(fragments, a + b) == (a + b).filter(keep));
    assert(scoped(fragments, a) == a.filter(keep));
    assert(scoped(fragments, b) == b.filter(keep));
    let none = Seq::<DiagnosticView>::empty();
    reveal(Seq::filter);
    none.lemma_filter_push(diagnostic, keep);
    assert(none.push(diagnostic) == seq![diagnostic]);
    assert(scoped(fragments, seq![diagnostic]) == seq![diagnostic].filter(keep));
}

/// A module counts as declined if some diagnostic declines it, however many do.
pub proof fn law_a_declined_module_counts_once(diagnostics: Seq<DiagnosticView>, module: Seq<char>)
    ensures
        declined_modules(diagnostics).contains(module) <==> exists|i: int|
            0 <= i < diagnostics.len() && (#[trigger] diagnostics[i]).kind.declined() == Some(
                module,
            ),
        declined_modules(diagnostics).finite(),
    decreases diagnostics.len(),
{
    if diagnostics.len() > 0 {
        let rest = diagnostics.drop_last();
        law_a_declined_module_counts_once(rest, module);
        let n = diagnostics.len() - 1;
        if declined_modules(rest).contains(module) {
            let i = choose|i: int|
                0 <= i < rest.len() && (#[trigger] rest[i]).kind.declined() == Some(module);
            assert(diagnostics[i].kind.declined() == Some(module));
        }
        if diagnostics[n].kind.declined() == Some(module) {
            assert(diagnostics[n].kind.declined() == Some(module));
        }
        if exists|i: int|
            0 <= i < diagnostics.len() && (#[trigger] diagnostics[i]).kind.declined() == Some(
                module,
            ) {
            let i = choose|i: int|
                0 <= i < diagnostics.len() && (#[trigger] diagnostics[i]).kind.declined() == Some(
                    module,
                );
            if i < n {
                assert(rest[i].kind.declined() == Some(module));
            }
        }
    }
}

/// What is said of the attribution of a file, file by file: of an exact match
/// nothing, of any other what it is, with the records and the files that it is about.
pub proof fn law_what_is_said_of_an_attribution(
    a: Seq<(Seq<char>, AttributionView)>,
    b: Seq<(Seq<char>, AttributionView)>,
    file: Seq<char>,
    attribution: AttributionView,
)
    ensures
        attributions_said(a + b) == attributions_said(a) + attributions_said(b),
        ({
            let said = attributions_said(seq![(file, attribution)]);
            let site = SiteView { file, line: None, column: None };
            let one = |kind: KindView| said == seq![DiagnosticView::run(site, kind)];
            match attribution {
                AttributionView::Resolved(ResolutionView::Exact(_)) => said == Seq::<
                    DiagnosticView,
                >::empty(),
                AttributionView::Resolved(ResolutionView::Suffix(key)) => one(
                    KindView::CoverageSuffixMatch { key },
                ),
                AttributionView::Resolved(ResolutionView::Ambiguous(keys)) => one(
                    KindView::CoverageAmbiguous { keys },
                ),
                AttributionView::Resolved(ResolutionView::Unresolved) => one(
                    KindView::CoverageAbsent,
                ),
                AttributionView::Collision { key, sources } => one(
                    KindView::CoverageContested { key, claimants: sources },
                ),
                AttributionView::Superseded { key, winner } => one(
                    KindView::CoverageSuperseded { key, winner },
                ),
            }
        }),
    decreases b.len(),
{
    let single = seq![(file, attribution)];
    let none = Seq::<DiagnosticView>::empty();
    assert(single.drop_last() == Seq::<(Seq<char>, AttributionView)>::empty());
    assert(attributions_said(single.drop_last()) == none);
    assert(none + attribution_said(file, attribution) == attribution_said(file, attribution));
    if b.len() == 0 {
        assert(a + b == a);
        assert(attributions_said(a) + attributions_said(b) == attributions_said(a));
    } else {
        assert((a + b).drop_last() == a + b.drop_last());
        assert((a + b).last() == b.last());
        law_what_is_said_of_an_attribution(a, b.drop_last(), file, attribution);
        let last = attribution_said(b.last().0, b.last().1);
        assert((attributions_said(a) + attributions_said(b.drop_last())) + last
            == attributions_said(a) + (attributions_said(b.drop_last()) + last));
    }
}

/// The fragments that match nothing are told in the order in which they were given,
/// each in words of its own about the run as a whole.
pub proof fn law_idle_fragments_are_told_in_order(
    a: Seq<Seq<char>>,
    b: Seq<Seq<char>>,
    paths: Seq<Seq<char>>,
    i: int,
)
    ensures
        idle(a + b, paths) == idle(a, paths) + idle(b, paths),
        idle_said(a).len() == a.len(),
        0 <= i < a.len() ==> idle_said(a)[i] == DiagnosticView::global(
            KindView::FilterMatchedNothing { filter: a[i] },
        ),
    decreases b.len(),
{
    if b.len() == 0 {
        assert(a + b == a);
        assert(idle(a, paths) + idle(b, paths) == idle(a, paths));
    } else {
        assert((a + b).drop_last() == a + b.drop_last());
        assert((a + b).last() == b.last());
        law_idle_fragments_are_told_in_order(a, b.drop_last(), paths, i);
        assert(idle(a + b, paths) == idle(a, paths) + idle(b, paths));
    }
}

/// A run takes back nothing that was said before discovery, keeps of what discovery
/// said what concerns the report, and then says what there is to say about the files
/// that it shows and about fragments that match nothing.
pub proof fn law_a_run_adds_to_what_was_said(
    config: ConfigView,
    profile: Profile,
    units: Seq<UnitView>,
    before: Seq<DiagnosticView>,
    discovered: int,
)
    requires
        0 <= discovered <= before.len(),
    ensures
        ({
            let after = diagnostics_after(config, profile, units, before, discovered);
            let kept = scoped(config.filters, before.skip(discovered));
            let files = files_shown(config, profile, units);
            &&& after.take(discovered) == before.take(discovered)
            &&& after.subrange(discovered, discovered + kept.len()) == kept
            &&& after.skip(discovered + kept.len()) == attributions_said(file_attributions(files))
                + idle_said(idle(config.filters, unit_paths(units)))
            &&& file_attributions(files).len() == files.len()
            &&& forall|i: int|
                0 <= i < files.len() ==> #[trigger] file_attributions(files)[i] == (
                    files[i].file,
                    files[i].attribution,
                )
            &&& modules_declined(config, before, discovered) == declined_modules(kept).len()
        }),
{
    let after = diagnostics_after(config, profile, units, before, discovered);
    let kept = scoped(config.filters, before.skip(discovered));
    assert(after.take(discovered) == before.take(discovered));
    assert(after.subrange(discovered, discovered + kept.len()) == kept);
    assert(after.skip(discovered + kept.len()) == run_said(config, profile, units));
}

/// A run shows its report, and below it what is to be said of the report as a whole.
pub proof fn law_a_run_shows_its_report(files: Seq<JoinedFile>, declined: usize)
    requires
        report::rows_of(files).len() <= usize::MAX,
    ensures
        table(files, declined) == report::report(report::rows_of(files)) + (Caveats {
            rows: report::rows_of(files).len() as usize,
            declined,
        }).block(),
{
}

/// A fragment is told to match nothing if it was given and matches the path of no
/// file, and not otherwise.
pub proof fn law_a_fragment_is_idle_if_it_matches_no_file(
    fragments: Seq<Seq<char>>,
    units: Seq<UnitView>,
    i: int,
)
    requires
        0 <= i < fragments.len(),
    ensures
        idle(fragments, unit_paths(units)).contains(fragments[i]) <==> forall|k: int|
            0 <= k < units.len() ==> !crate::filter::matches_path(
                fragments[i],
                (#[trigger] units[k]).path,
            ),
        unit_paths(units).len() == units.len(),
{
    let paths = unit_paths(units);
    law_a_fragment_is_told_exactly_if_it_matches_nothing(fragments, paths, fragments[i]);
    assert(fragments.contains(fragments[i]));
    assert forall|k: int| 0 <= k < units.len() implies #[trigger] units[k].path == paths[k] by {}
    if matches_some(fragments[i], paths) {
        let k = choose|k: int|
            0 <= k < paths.len() && crate::filter::matches_path(
                fragments[i],
                #[trigger] paths[k],
            );
        assert(crate::filter::matches_path(fragments[i], units[k].path));
    } else {
        assert forall|k: int| 0 <= k < units.len() implies !crate::filter::matches_path(
            fragments[i],
            (#[trigger] units[k]).path,
        ) by {
            assert(!crate::filter::matches_path(fragments[i], paths[k]));
        }
    }
}

/// The files that are shown are those that are selected, in the order of the join.
pub proof fn law_selected_files_are_shown(
    fragments: Seq<Seq<char>>,
    a: Seq<JoinedFileView>,
    b: Seq<JoinedFileView>,
    file: JoinedFileView,
)
    ensures
        shown(fragments, a + b) == shown(fragments, a) + shown(fragments, b),
        shown(fragments, seq![file]) == (if crate::filter::selects(fragments, file.file) {
            seq![file]
        } else {
            Seq::<JoinedFileView>::empty()
        }),
{
    let keep = |file: JoinedFileView| crate::filter::selects(fragments, file.file);
    Seq::filter_distributes_over_add(a, b, keep);
    assert(shown(fragments, a + b) == (a + b).filter(keep));
    assert(shown(fragments, a) == a.filter(keep));
    assert(shown(fragments, b) == b.filter(keep));
    let none = Seq::<JoinedFileView>::empty();
    reveal(Seq::filter);
    none.lemma_filter_push(file, keep);
    assert(none.push(file) == seq![file]);
    assert(shown(fragments, seq![file]) == seq![file].filter(keep));
}

} // verus!
