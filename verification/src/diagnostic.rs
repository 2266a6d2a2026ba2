//! What the tool has to say, as data.
//!
//! Everything that is said, rather than reported or failed on, is a
//! `Diagnostic`. Nothing here prints: a diagnostic is rendered to text, and
//! whoever runs the library decides where the text goes.

use vstd::prelude::*;

use crate::text;

verus! {

/// How serious a diagnostic is. Every one is advisory.
#[derive(Debug, Clone, Copy, PartialEq, Eq)]
pub enum Severity {
    /// Something to know.
    Warning,
}

/// Which half of an invocation a diagnostic is a fact about.
#[derive(Debug, Clone, Copy, PartialEq, Eq)]
pub enum Phase {
    /// Known once the arguments are resolved, before anything is run or read.
    Config,
    /// Known only from the run.
    Run,
}

/// Where a diagnostic points: a file, and within it a declaration if it is
/// about one.
#[derive(Debug, PartialEq, Eq)]
pub struct Site {
    /// The path that the file is known by.
    pub file: String,
    /// The line, counted from one.
    pub line: Option<usize>,
    /// The column, counted from one.
    pub column: Option<usize>,
}

/// What a `Site` says.
#[verifier::ext_equal]
pub struct SiteView {
    /// See `Site::file`.
    pub file: Seq<char>,
    /// See `Site::line`.
    pub line: Option<usize>,
    /// See `Site::column`.
    pub column: Option<usize>,
}

/// What a diagnostic is about.
#[derive(Debug, PartialEq, Eq)]
pub enum Kind {
    /// A given profile wins, so the coverage command was never run.
    IgnoredTestCommand,
    /// The coverage command has no token for the artifact, so it must write the
    /// artifact itself.
    TestCommandWithoutLcovToken { token: &'static str, artifact: String },
    /// A module declaration resolves to no file.
    ModuleFileMissing { module: String, candidates: Vec<String> },
    /// A module declaration has both candidate files.
    ModuleFileAmbiguous { module: String, candidates: Vec<String>, analysed: String },
    /// The file of a module depends on a `cfg` that is not evaluated.
    ModulePathConditional { module: String, attribute: String },
    /// The coverage of a file was found by a suffix match only.
    CoverageSuffixMatch { key: String },
    /// Several records match a file equally well.
    CoverageAmbiguous { keys: Vec<String> },
    /// A file is not in the profile at all.
    CoverageAbsent,
    /// Several files claim one record, and no claim outranks the others.
    CoverageContested { key: String, claimants: Vec<String> },
    /// The claim of a file on a record lost to an exact one.
    CoverageSuperseded { key: String, winner: String },
    /// A filter selected no source file.
    FilterMatchedNothing { filter: String },
}

/// What a `Kind` says.
#[verifier::ext_equal]
pub enum KindView {
    /// See `Kind::IgnoredTestCommand`.
    IgnoredTestCommand,
    /// See `Kind::TestCommandWithoutLcovToken`.
    TestCommandWithoutLcovToken { token: Seq<char>, artifact: Seq<char> },
    /// See `Kind::ModuleFileMissing`.
    ModuleFileMissing { module: Seq<char>, candidates: Seq<Seq<char>> },
    /// See `Kind::ModuleFileAmbiguous`.
    ModuleFileAmbiguous { module: Seq<char>, candidates: Seq<Seq<char>>, analysed: Seq<char> },
    /// See `Kind::ModulePathConditional`.
    ModulePathConditional { module: Seq<char>, attribute: Seq<char> },
    /// See `Kind::CoverageSuffixMatch`.
    CoverageSuffixMatch { key: Seq<char> },
    /// See `Kind::CoverageAmbiguous`.
    CoverageAmbiguous { keys: Seq<Seq<char>> },
    /// See `Kind::CoverageAbsent`.
    CoverageAbsent,
    /// See `Kind::CoverageContested`.
    CoverageContested { key: Seq<char>, claimants: Seq<Seq<char>> },
    /// See `Kind::CoverageSuperseded`.
    CoverageSuperseded { key: Seq<char>, winner: Seq<char> },
    /// See `Kind::FilterMatchedNothing`.
    FilterMatchedNothing { filter: Seq<char> },
}

impl View for Site {
    type V = SiteView;

    open spec fn view(&self) -> SiteView {
        SiteView { file: self.file@, line: self.line, column: self.column }
    }
}

impl View for Kind {
    type V = KindView;

    open spec fn view(&self) -> KindView {
        match self {
            Kind::IgnoredTestCommand => KindView::IgnoredTestCommand,
            Kind::TestCommandWithoutLcovToken { token, artifact } =>
                KindView::TestCommandWithoutLcovToken { token: token@, artifact: artifact@ },
            Kind::ModuleFileMissing { module, candidates } => KindView::ModuleFileMissing {
                module: module@,
                candidates: text::views(candidates@),
            },
            Kind::ModuleFileAmbiguous { module, candidates, analysed } =>
                KindView::ModuleFileAmbiguous {
                    module: module@,
                    candidates: text::views(candidates@),
                    analysed: analysed@,
                },
            Kind::ModulePathConditional { module, attribute } => KindView::ModulePathConditional {
                module: module@,
                attribute: attribute@,
            },
            Kind::CoverageSuffixMatch { key } => KindView::CoverageSuffixMatch { key: key@ },
            Kind::CoverageAmbiguous { keys } => KindView::CoverageAmbiguous {
                keys: text::views(keys@),
            },
            Kind::CoverageAbsent => KindView::CoverageAbsent,
            Kind::CoverageContested { key, claimants } => KindView::CoverageContested {
                key: key@,
                claimants: text::views(claimants@),
            },
            Kind::CoverageSuperseded { key, winner } => KindView::CoverageSuperseded {
                key: key@,
                winner: winner@,
            },
            Kind::FilterMatchedNothing { filter } => KindView::FilterMatchedNothing {
                filter: filter@,
            },
        }
    }
}

impl Clone for Site {
    fn clone(&self) -> (out: Site)
        ensures
            out@ == self@,
    {
        Site { file: self.file.clone(), line: self.line, column: self.column }
    }
}

impl Clone for Kind {
    fn clone(&self) -> (out: Kind)
        ensures
            out@ == self@,
    {
        match self {
            Kind::IgnoredTestCommand => Kind::IgnoredTestCommand,
            Kind::TestCommandWithoutLcovToken { token, artifact } =>
                Kind::TestCommandWithoutLcovToken { token: *token, artifact: artifact.clone() },
            Kind::ModuleFileMissing { module, candidates } => Kind::ModuleFileMissing {
                module: module.clone(),
                candidates: text::copies(candidates),
            },
            Kind::ModuleFileAmbiguous { module, candidates, analysed } =>
                Kind::ModuleFileAmbiguous {
                    module: module.clone(),
                    candidates: text::copies(candidates),
                    analysed: analysed.clone(),
                },
            Kind::ModulePathConditional { module, attribute } => Kind::ModulePathConditional {
                module: module.clone(),
                attribute: attribute.clone(),
            },
            Kind::CoverageSuffixMatch { key } => Kind::CoverageSuffixMatch { key: key.clone() },
            Kind::CoverageAmbiguous { keys } => Kind::CoverageAmbiguous {
                keys: text::copies(keys),
            },
            Kind::CoverageAbsent => Kind::CoverageAbsent,
            Kind::CoverageContested { key, claimants } => Kind::CoverageContested {
                key: key.clone(),
                claimants: text::copies(claimants),
            },
            Kind::CoverageSuperseded { key, winner } => Kind::CoverageSuperseded {
                key: key.clone(),
                winner: winner.clone(),
            },
            Kind::FilterMatchedNothing { filter } => Kind::FilterMatchedNothing {
                filter: filter.clone(),
            },
        }
    }
}

impl Severity {
    /// The word for a severity.
    pub open spec fn word(self) -> Seq<char> {
        "warning"@
    }

    /// The word for a severity.
    pub fn to_string(&self) -> (out: String)
        ensures
            out@ == self.word(),
    {
        "warning".to_owned()
    }
}

impl SiteView {
    /// The site as it is printed: the file alone, or with line and column.
    pub open spec fn rendered(self) -> Seq<char> {
        match (self.line, self.column) {
            (Some(line), Some(column)) => self.file + ":"@ + text::decimal(line as nat) + ":"@
                + text::decimal(column as nat),
            _ => self.file,
        }
    }
}

impl Site {
    /// A site that is a file as a whole.
    pub fn file(file: &str) -> (out: Site)
        ensures
            out@ == (SiteView { file: file@, line: None, column: None }),
    {
        Site { file: file.to_owned(), line: None, column: None }
    }

    /// The site of one declaration.
    pub fn at(file: &str, line: usize, column: usize) -> (out: Site)
        ensures
            out@ == (SiteView { file: file@, line: Some(line), column: Some(column) }),
    {
        Site { file: file.to_owned(), line: Some(line), column: Some(column) }
    }

    /// The site as it is printed.
    pub fn to_string(&self) -> (out: String)
        ensures
            out@ == self@.rendered(),
    {
        let mut out = self.file.clone();
        match (self.line, self.column) {
            (Some(line), Some(column)) => {
                out.append(":");
                out.append(&text::number(line as u64));
                out.append(":");
                out.append(&text::number(column as u64));
            },
            _ => {},
        }
        out
    }
}

impl KindView {
    /// The identifier of a kind, which does not change with the wording.
    pub open spec fn code(self) -> Seq<char> {
        match self {
            KindView::IgnoredTestCommand => "ignored-test-command"@,
            KindView::TestCommandWithoutLcovToken { .. } => "test-command-without-lcov-token"@,
            KindView::ModuleFileMissing { .. } => "module-file-missing"@,
            KindView::ModuleFileAmbiguous { .. } => "module-file-ambiguous"@,
            KindView::ModulePathConditional { .. } => "module-path-conditional"@,
            KindView::CoverageSuffixMatch { .. } => "coverage-suffix-match"@,
            KindView::CoverageAmbiguous { .. } => "coverage-ambiguous"@,
            KindView::CoverageAbsent => "coverage-absent"@,
            KindView::CoverageContested { .. } => "coverage-contested"@,
            KindView::CoverageSuperseded { .. } => "coverage-superseded"@,
            KindView::FilterMatchedNothing { .. } => "filter-matched-nothing"@,
        }
    }

    /// The module that was declined, where the diagnostic reports one that is
    /// not in the report at all.
    pub open spec fn declined(self) -> Option<Seq<char>> {
        match self {
            KindView::ModuleFileMissing { module, .. } => Some(module),
            KindView::ModulePathConditional { module, .. } => Some(module),
            _ => None,
        }
    }

    /// The words of a kind.
    pub open spec fn message(self) -> Seq<char> {
        match self {
            KindView::IgnoredTestCommand =>
                "--lcov-path given; --test-command ignored, no coverage command was run"@,
            KindView::TestCommandWithoutLcovToken { token, artifact } => "--test-command has no "@
                + token + " token; it must itself write LCOV to "@ + artifact,
            KindView::ModuleFileMissing { module, candidates } => "module `"@ + module
                + "` is declared but no file was found for it (looked for "@ + text::joined(
                candidates,
                " and "@,
            ) + "); it is not analysed"@,
            KindView::ModuleFileAmbiguous { module, candidates, analysed } => "module `"@ + module
                + "` has files at both "@ + text::joined(candidates, " and "@) + "; "@ + analysed
                + " is analysed"@,
            KindView::ModulePathConditional { module, attribute } => "module `"@ + module
                + "` selects its source file conditionally (`"@ + attribute
                + "`); which file rustc compiles depends on the cfg set, which is not evaluated, so it is not analysed"@,
            KindView::CoverageSuffixMatch { key } =>
                "no exact coverage entry; resolved by suffix match to LCOV entry "@ + key,
            KindView::CoverageAmbiguous { keys } => "coverage entry is ambiguous between "@
                + text::joined(keys, ", "@) + "; its functions report N/A"@,
            KindView::CoverageAbsent =>
                "absent from the coverage profile; its functions report N/A"@,
            KindView::CoverageContested { key, claimants } => "LCOV entry "@ + key
                + " is claimed by "@ + text::joined(claimants, ", "@)
                + "; which file it covers cannot be proven, so their functions report N/A"@,
            KindView::CoverageSuperseded { key, winner } => "LCOV entry "@ + key + " matches "@
                + winner
                + " exactly, so it is attributed there; its functions report N/A"@,
            KindView::FilterMatchedNothing { filter } => "--filter "@ + filter
                + " matched no source file"@,
        }
    }
}

impl Kind {
    /// The identifier of a kind, which does not change with the wording.
    pub fn code(&self) -> (out: &'static str)
        ensures
            out@ == self@.code(),
    {
        match self {
            Kind::IgnoredTestCommand => "ignored-test-command",
            Kind::TestCommandWithoutLcovToken { .. } => "test-command-without-lcov-token",
            Kind::ModuleFileMissing { .. } => "module-file-missing",
            Kind::ModuleFileAmbiguous { .. } => "module-file-ambiguous",
            Kind::ModulePathConditional { .. } => "module-path-conditional",
            Kind::CoverageSuffixMatch { .. } => "coverage-suffix-match",
            Kind::CoverageAmbiguous { .. } => "coverage-ambiguous",
            Kind::CoverageAbsent => "coverage-absent",
            Kind::CoverageContested { .. } => "coverage-contested",
            Kind::CoverageSuperseded { .. } => "coverage-superseded",
            Kind::FilterMatchedNothing { .. } => "filter-matched-nothing",
        }
    }

    /// The module that was declined, if one was.
    ///
    /// A module that was resolved from two files was analysed, and a coverage
    /// miss still reports its functions: neither is declined.
    pub fn declined_module(&self) -> (out: Option<&str>)
        ensures
            match out {
                Some(module) => self@.declined() == Some(module@),
                None => self@.declined() is None,
            },
    {
        match self {
            Kind::ModuleFileMissing { module, .. } => Some(module.as_str()),
            Kind::ModulePathConditional { module, .. } => Some(module.as_str()),
            _ => None,
        }
    }

    /// Whether work was declined: a module is not in the report at all.
    pub fn declines_analysis(&self) -> (r: bool)
        ensures
            r == self@.declined() is Some,
    {
        match self.declined_module() {
            Some(_) => true,
            None => false,
        }
    }

    /// The words of a kind.
    pub fn to_string(&self) -> (out: String)
        ensures
            out@ == self@.message(),
    {
        match self {
            Kind::IgnoredTestCommand =>
                "--lcov-path given; --test-command ignored, no coverage command was run".to_owned(),
            Kind::TestCommandWithoutLcovToken { token, artifact } => {
                let mut out = "--test-command has no ".to_owned();
                out.append(token);
                out.append(" token; it must itself write LCOV to ");
                out.append(artifact);
                out
            },
            Kind::ModuleFileMissing { module, candidates } => {
                let mut out = "module `".to_owned();
                out.append(module);
                out.append("` is declared but no file was found for it (looked for ");
                out.append(&text::join(candidates, " and "));
                out.append("); it is not analysed");
                out
            },
            Kind::ModuleFileAmbiguous { module, candidates, analysed } => {
                let mut out = "module `".to_owned();
                out.append(module);
                out.append("` has files at both ");
                out.append(&text::join(candidates, " and "));
                out.append("; ");
                out.append(analysed);
                out.append(" is analysed");
                out
            },
            Kind::ModulePathConditional { module, attribute } => {
                let mut out = "module `".to_owned();
                out.append(module);
                out.append("` selects its source file conditionally (`");
                out.append(attribute);
                out.append(
                    "`); which file rustc compiles depends on the cfg set, which is not evaluated, so it is not analysed",
                );
                out
            },
            Kind::CoverageSuffixMatch { key } => {
                let mut out =
                    "no exact coverage entry; resolved by suffix match to LCOV entry ".to_owned();
                out.append(key);
                out
            },
            Kind::CoverageAmbiguous { keys } => {
                let mut out = "coverage entry is ambiguous between ".to_owned();
                out.append(&text::join(keys, ", "));
                out.append("; its functions report N/A");
                out
            },
            Kind::CoverageAbsent =>
                "absent from the coverage profile; its functions report N/A".to_owned(),
            Kind::CoverageContested { key, claimants } => {
                let mut out = "LCOV entry ".to_owned();
                out.append(key);
                out.append(" is claimed by ");
                out.append(&text::join(claimants, ", "));
                out.append("; which file it covers cannot be proven, so their functions report N/A");
                out
            },
            Kind::CoverageSuperseded { key, winner } => {
                let mut out = "LCOV entry ".to_owned();
                out.append(key);
                out.append(" matches ");
                out.append(winner);
                out.append(" exactly, so it is attributed there; its functions report N/A");
                out
            },
            Kind::FilterMatchedNothing { filter } => {
                let mut out = "--filter ".to_owned();
                out.append(filter);
                out.append(" matched no source file");
                out
            },
        }
    }
}

/// One thing that the tool has to say.
#[derive(Debug, PartialEq, Eq)]
pub struct Diagnostic {
    code: &'static str,
    severity: Severity,
    phase: Phase,
    site: Option<Site>,
    kind: Kind,
}

/// What a `Diagnostic` says. Its identifier is that of its kind.
#[verifier::ext_equal]
pub struct DiagnosticView {
    /// How serious it is.
    pub severity: Severity,
    /// Which half of the invocation it is about.
    pub phase: Phase,
    /// Where it points, if it points somewhere.
    pub site: Option<SiteView>,
    /// What it is about.
    pub kind: KindView,
}

/// What an optional `Site` says.
pub open spec fn site_view(site: Option<Site>) -> Option<SiteView> {
    match site {
        Some(site) => Some(site@),
        None => None,
    }
}

impl View for Diagnostic {
    type V = DiagnosticView;

    closed spec fn view(&self) -> DiagnosticView {
        DiagnosticView {
            severity: self.severity,
            phase: self.phase,
            site: site_view(self.site),
            kind: self.kind@,
        }
    }
}

/// What several `Diagnostic`s say.
pub open spec fn diagnostics_view(diagnostics: Seq<Diagnostic>) -> Seq<DiagnosticView> {
    diagnostics.map_values(|diagnostic: Diagnostic| diagnostic@)
}

impl DiagnosticView {
    /// A diagnostic about the configuration.
    pub open spec fn config(kind: KindView) -> DiagnosticView {
        DiagnosticView { severity: Severity::Warning, phase: Phase::Config, site: None, kind }
    }

    /// A diagnostic about the run, at a site.
    pub open spec fn run(site: SiteView, kind: KindView) -> DiagnosticView {
        DiagnosticView { severity: Severity::Warning, phase: Phase::Run, site: Some(site), kind }
    }

    /// A diagnostic about the run as a whole.
    pub open spec fn global(kind: KindView) -> DiagnosticView {
        DiagnosticView { severity: Severity::Warning, phase: Phase::Run, site: None, kind }
    }

    /// The diagnostic as it is printed: its severity, its site if it has one,
    /// and its words.
    pub open spec fn rendered(self) -> Seq<char> {
        match self.site {
            Some(site) => self.severity.word() + ": "@ + site.rendered() + ": "@
                + self.kind.message(),
            None => self.severity.word() + ": "@ + self.kind.message(),
        }
    }
}

impl Diagnostic {
    /// The identifier is that of the kind.
    #[verifier::type_invariant]
    spec fn well_formed(self) -> bool {
        self.code@ == self.kind@.code()
    }

    /// The one way to make a diagnostic, so that identifier and severity agree
    /// with the kind.
    fn new(phase: Phase, site: Option<Site>, kind: Kind) -> (out: Diagnostic)
        ensures
            out@ == (DiagnosticView {
                severity: Severity::Warning,
                phase,
                site: site_view(site),
                kind: kind@,
            }),
    {
        Diagnostic { code: kind.code(), severity: Severity::Warning, phase, site, kind }
    }

    /// A fact about the configuration, known before the run starts.
    pub fn config(kind: Kind) -> (out: Diagnostic)
        ensures
            out@ == DiagnosticView::config(kind@),
    {
        Diagnostic::new(Phase::Config, None, kind)
    }

    /// A fact about the run, at a site in the workspace.
    pub fn run(site: Site, kind: Kind) -> (out: Diagnostic)
        ensures
            out@ == DiagnosticView::run(site@, kind@),
    {
        Diagnostic::new(Phase::Run, Some(site), kind)
    }

    /// A fact about the run as a whole.
    pub fn global(kind: Kind) -> (out: Diagnostic)
        ensures
            out@ == DiagnosticView::global(kind@),
    {
        Diagnostic::new(Phase::Run, None, kind)
    }

    /// The identifier of its kind.
    pub fn code(&self) -> (out: &'static str)
        ensures
            out@ == self@.kind.code(),
    {
        proof {
            use_type_invariant(self);
        }
        self.code
    }

    /// How serious it is.
    pub fn severity(&self) -> (out: Severity)
        ensures
            out == self@.severity,
    {
        self.severity
    }

    /// Which half of the invocation it is about.
    pub fn phase(&self) -> (out: Phase)
        ensures
            out == self@.phase,
    {
        self.phase
    }

    /// Where it points, if it points somewhere.
    pub fn site(&self) -> (out: Option<&Site>)
        ensures
            match out {
                Some(site) => self@.site == Some(site@),
                None => self@.site is None,
            },
    {
        match &self.site {
            Some(site) => Some(site),
            None => None,
        }
    }

    /// What it is about.
    pub fn kind(&self) -> (out: &Kind)
        ensures
            out@ == self@.kind,
    {
        &self.kind
    }

    /// The diagnostic as it is printed.
    pub fn to_string(&self) -> (out: String)
        ensures
            out@ == self@.rendered(),
    {
        let mut out = self.severity.to_string();
        out.append(": ");
        match &self.site {
            Some(site) => {
                out.append(&site.to_string());
                out.append(": ");
            },
            None => {},
        }
        out.append(&self.kind.to_string());
        out
    }
}

impl Clone for Diagnostic {
    fn clone(&self) -> (out: Diagnostic)
        ensures
            out@ == self@,
    {
        proof {
            use_type_invariant(self);
        }
        let site = match &self.site {
            Some(site) => Some(site.clone()),
            None => None,
        };
        Diagnostic::new(self.phase, site, self.kind.clone())
    }
}

/// Two kinds have the same identifier only if they are the same kind of
/// condition.
pub proof fn law_codes_are_distinct(a: KindView, b: KindView)
    requires
        a.code() == b.code(),
    ensures
        a is IgnoredTestCommand <==> b is IgnoredTestCommand,
        a is TestCommandWithoutLcovToken <==> b is TestCommandWithoutLcovToken,
        a is ModuleFileMissing <==> b is ModuleFileMissing,
        a is ModuleFileAmbiguous <==> b is ModuleFileAmbiguous,
        a is ModulePathConditional <==> b is ModulePathConditional,
        a is CoverageSuffixMatch <==> b is CoverageSuffixMatch,
        a is CoverageAmbiguous <==> b is CoverageAmbiguous,
        a is CoverageAbsent <==> b is CoverageAbsent,
        a is CoverageContested <==> b is CoverageContested,
        a is CoverageSuperseded <==> b is CoverageSuperseded,
        a is FilterMatchedNothing <==> b is FilterMatchedNothing,
{
    reveal_strlit("ignored-test-command");
    reveal_strlit("test-command-without-lcov-token");
    reveal_strlit("module-file-missing");
    reveal_strlit("module-file-ambiguous");
    reveal_strlit("module-path-conditional");
    reveal_strlit("coverage-suffix-match");
    reveal_strlit("coverage-ambiguous");
    reveal_strlit("coverage-absent");
    reveal_strlit("coverage-contested");
    reveal_strlit("coverage-superseded");
    reveal_strlit("filter-matched-nothing");
    assert("ignored-test-command"@.len() == 20);
    assert("test-command-without-lcov-token"@.len() == 31);
    assert("module-file-missing"@.len() == 19);
    assert("module-file-ambiguous"@.len() == 21);
    assert("module-path-conditional"@.len() == 23);
    assert("coverage-suffix-match"@.len() == 21);
    assert("coverage-ambiguous"@.len() == 18);
    assert("coverage-absent"@.len() == 15);
    assert("coverage-contested"@.len() == 18);
    assert("coverage-superseded"@.len() == 19);
    assert("filter-matched-nothing"@.len() == 22);
    assert("module-file-missing"@[0] != "coverage-superseded"@[0]);
    assert("module-file-ambiguous"@[0] != "coverage-suffix-match"@[0]);
    assert("coverage-ambiguous"@[9] != "coverage-contested"@[9]);
}

/// What stands in a text occurs in it.
proof fn lemma_stands_in(whole: Seq<char>, a: Seq<char>, part: Seq<char>, b: Seq<char>)
    requires
        whole == a + part + b,
    ensures
        text::occurs(whole, part),
{
    text::law_what_stands_in_a_text_occurs(a, part, b);
}

/// What stands in a text stands in every text around it.
proof fn lemma_stands_deeper(
    whole: Seq<char>,
    a: Seq<char>,
    middle: Seq<char>,
    b: Seq<char>,
    part: Seq<char>,
)
    requires
        whole == a + middle + b,
        text::occurs(middle, part),
    ensures
        text::occurs(whole, part),
{
    text::law_what_stands_in_a_text_occurs(middle, part, b);
    let (x, y) = choose|x: Seq<char>, y: Seq<char>| #[trigger] (x + part + y) == middle;
    assert((a + x) + part + (y + b) == whole);
    lemma_stands_in(whole, a + x, part, y + b);
}

proof fn lemma_each_is_joined(parts: Seq<Seq<char>>, separator: Seq<char>, i: int)
    requires
        0 <= i < parts.len(),
    ensures
        text::occurs(text::joined(parts, separator), parts[i]),
    decreases parts.len(),
{
    let whole = text::joined(parts, separator);
    let none = Seq::<char>::empty();
    if parts.len() == 1 {
        assert(whole == none + parts[0] + none);
        lemma_stands_in(whole, none, parts[0], none);
    } else {
        let before = text::joined(parts.drop_last(), separator);
        let last = parts.last();
        if i == parts.len() - 1 {
            assert(whole == (before + separator) + last + none);
            lemma_stands_in(whole, before + separator, last, none);
        } else {
            lemma_each_is_joined(parts.drop_last(), separator, i);
            assert(parts.drop_last()[i] == parts[i]);
            assert(whole == none + before + (separator + last));
            lemma_stands_deeper(whole, none, before, separator + last, parts[i]);
        }
    }
}

/// The words of a diagnostic name everything that it is about: the module and every
/// place that was looked at, the record and every file that claims it, the fragment.
pub proof fn law_the_words_name_what_they_are_about(kind: KindView, i: int)
    ensures
        ({
            let said = |part: Seq<char>| text::occurs(kind.message(), part);
            match kind {
                KindView::TestCommandWithoutLcovToken { token, artifact } => said(token) && said(
                    artifact,
                ),
                KindView::ModuleFileMissing { module, candidates } => said(module) && (0 <= i
                    < candidates.len() ==> said(candidates[i])),
                KindView::ModuleFileAmbiguous { module, candidates, analysed } => said(module)
                    && said(analysed) && (0 <= i < candidates.len() ==> said(candidates[i])),
                KindView::ModulePathConditional { module, attribute } => said(module) && said(
                    attribute,
                ),
                KindView::CoverageSuffixMatch { key } => said(key),
                KindView::CoverageAmbiguous { keys } => 0 <= i < keys.len() ==> said(keys[i]),
                KindView::CoverageContested { key, claimants } => said(key) && (0 <= i
                    < claimants.len() ==> said(claimants[i])),
                KindView::CoverageSuperseded { key, winner } => said(key) && said(winner),
                KindView::FilterMatchedNothing { filter } => said(filter),
                _ => true,
            }
        }),
{
    let whole = kind.message();
    let none = Seq::<char>::empty();
    match kind {
        KindView::IgnoredTestCommand | KindView::CoverageAbsent => {},
        KindView::TestCommandWithoutLcovToken { token, artifact } => {
            let a = "--test-command has no "@;
            let b = " token; it must itself write LCOV to "@;
            assert(whole == a + token + (b + artifact));
            lemma_stands_in(whole, a, token, b + artifact);
            assert(whole == (a + token + b) + artifact + none);
            lemma_stands_in(whole, a + token + b, artifact, none);
        },
        KindView::ModuleFileMissing { module, candidates } => {
            let a = "module `"@;
            let b = "` is declared but no file was found for it (looked for "@;
            let list = text::joined(candidates, " and "@);
            let c = "); it is not analysed"@;
            assert(whole == a + module + (b + list + c));
            lemma_stands_in(whole, a, module, b + list + c);
            if 0 <= i < candidates.len() {
                lemma_each_is_joined(candidates, " and "@, i);
                assert(whole == (a + module + b) + list + c);
                lemma_stands_deeper(whole, a + module + b, list, c, candidates[i]);
            }
        },
        KindView::ModuleFileAmbiguous { module, candidates, analysed } => {
            let a = "module `"@;
            let b = "` has files at both "@;
            let list = text::joined(candidates, " and "@);
            let c = "; "@;
            let d = " is analysed"@;
            assert(whole == a + module + (b + list + c + analysed + d));
            lemma_stands_in(whole, a, module, b + list + c + analysed + d);
            assert(whole == (a + module + b + list + c) + analysed + d);
            lemma_stands_in(whole, a + module + b + list + c, analysed, d);
            if 0 <= i < candidates.len() {
                lemma_each_is_joined(candidates, " and "@, i);
                assert(whole == (a + module + b) + list + (c + analysed + d));
                lemma_stands_deeper(whole, a + module + b, list, c + analysed + d, candidates[i]);
            }
        },
        KindView::ModulePathConditional { module, attribute } => {
            let a = "module `"@;
            let b = "` selects its source file conditionally (`"@;
            let c =
                "`); which file rustc compiles depends on the cfg set, which is not evaluated, so it is not analysed"@;
            assert(whole == a + module + (b + attribute + c));
            lemma_stands_in(whole, a, module, b + attribute + c);
            assert(whole == (a + module + b) + attribute + c);
            lemma_stands_in(whole, a + module + b, attribute, c);
        },
        KindView::CoverageSuffixMatch { key } => {
            let a = "no exact coverage entry; resolved by suffix match to LCOV entry "@;
            assert(whole == a + key + none);
            lemma_stands_in(whole, a, key, none);
        },
        KindView::CoverageAmbiguous { keys } => {
            let a = "coverage entry is ambiguous between "@;
            let list = text::joined(keys, ", "@);
            let b = "; its functions report N/A"@;
            if 0 <= i < keys.len() {
                lemma_each_is_joined(keys, ", "@, i);
                assert(whole == a + list + b);
                lemma_stands_deeper(whole, a, list, b, keys[i]);
            }
        },
        KindView::CoverageContested { key, claimants } => {
            let a = "LCOV entry "@;
            let b = " is claimed by "@;
            let list = text::joined(claimants, ", "@);
            let c =
                "; which file it covers cannot be proven, so their functions report N/A"@;
            assert(whole == a + key + (b + list + c));
            lemma_stands_in(whole, a, key, b + list + c);
            if 0 <= i < claimants.len() {
                lemma_each_is_joined(claimants, ", "@, i);
                assert(whole == (a + key + b) + list + c);
                lemma_stands_deeper(whole, a + key + b, list, c, claimants[i]);
            }
        },
        KindView::CoverageSuperseded { key, winner } => {
            let a = "LCOV entry "@;
            let b = " matches "@;
            let c = " exactly, so it is attributed there; its functions report N/A"@;
            assert(whole == a + key + (b + winner + c));
            lemma_stands_in(whole, a, key, b + winner + c);
            assert(whole == (a + key + b) + winner + c);
            lemma_stands_in(whole, a + key + b, winner, c);
        },
        KindView::FilterMatchedNothing { filter } => {
            let a = "--filter "@;
            let b = " matched no source file"@;
            assert(whole == a + filter + b);
            lemma_stands_in(whole, a, filter, b);
        },
    }
}

/// A module is declined if its file is missing or depends on a condition, and not
/// otherwise.
pub proof fn law_what_declines_a_module(kind: KindView)
    ensures
        kind matches KindView::ModuleFileMissing { module, .. } ==> kind.declined() == Some(module),
        kind matches KindView::ModulePathConditional { module, .. } ==> kind.declined() == Some(
            module,
        ),
        !(kind is ModuleFileMissing) && !(kind is ModulePathConditional) ==> kind.declined() is None,
{
}

/// A diagnostic is printed with its severity first and its words last; where it has
/// a site, that stands between, the file followed by line and column where there are
/// any.
pub proof fn law_a_diagnostic_is_printed_with_its_site(diagnostic: DiagnosticView)
    ensures
        ({
            let printed = diagnostic.rendered();
            let words = diagnostic.kind.message();
            &&& printed.len() >= words.len()
            &&& printed.skip(printed.len() - words.len()) == words
            &&& diagnostic.site is None ==> printed == "warning: "@ + words
            &&& diagnostic.site matches Some(site) ==> {
                let place = match (site.line, site.column) {
                    (Some(line), Some(column)) => site.file.push(':') + text::decimal(
                        line as nat,
                    ).push(':') + text::decimal(column as nat),
                    _ => site.file,
                };
                printed == "warning: "@ + place + seq![':', ' '] + words
            }
        }),
{
    reveal_strlit(":");
    reveal_strlit(": ");
    reveal_strlit("warning");
    reveal_strlit("warning: ");
    let printed = diagnostic.rendered();
    let words = diagnostic.kind.message();
    assert("warning: "@ == "warning"@ + ": "@);
    assert(": "@ == seq![':', ' ']);
    match diagnostic.site {
        Some(site) => {
            let place = match (site.line, site.column) {
                (Some(line), Some(column)) => site.file.push(':') + text::decimal(
                    line as nat,
                ).push(':') + text::decimal(column as nat),
                _ => site.file,
            };
            assert(":"@ == seq![':']);
            assert(site.rendered() == place) by {
                match (site.line, site.column) {
                    (Some(line), Some(column)) => {
                        let x = text::decimal(line as nat);
                        let y = text::decimal(column as nat);
                        assert(site.file + ":"@ + x + ":"@ + y == site.file.push(':') + x.push(':')
                            + y);
                    },
                    _ => {},
                }
            }
            assert(printed == "warning: "@ + place + seq![':', ' '] + words);
        },
        None => {
            assert(printed == "warning: "@ + words);
        },
    }
    assert(printed.skip(printed.len() - words.len()) == words);
}

/// What is said before a run is about the configuration, and points nowhere; what is
/// said of a run points where it is told to, or is about the run as a whole.
pub proof fn law_what_a_diagnostic_is_about(site: SiteView, kind: KindView)
    ensures
        DiagnosticView::config(kind).phase is Config,
        DiagnosticView::config(kind).site is None,
        DiagnosticView::config(kind).kind == kind,
        DiagnosticView::run(site, kind).phase is Run,
        DiagnosticView::run(site, kind).site == Some(site),
        DiagnosticView::run(site, kind).kind == kind,
        DiagnosticView::global(kind).phase is Run,
        DiagnosticView::global(kind).site is None,
        DiagnosticView::global(kind).kind == kind,
{
}

} // verus!
