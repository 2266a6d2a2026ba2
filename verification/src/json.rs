//! The report as a versioned document.
//!
//! A document has two parts that are never mixed: what was asked for, and what
//! was found. Its functions are in the order of the table. A warning is flat:
//! readers branch on its code and show its message, and what else it carries
//! may change.

use vstd::prelude::*;

use crate::diagnostic::{Diagnostic, DiagnosticView, Kind, KindView, Phase};
use crate::join::{scored_by, Figures, Fraction, JoinedFile, JoinedFunction};
use crate::report::{self, figure_bits, figure_view, KeyView, OrderKey, RowView};
use crate::text;

verus! {

/// The version of the shape of a document.
pub const SCHEMA_VERSION: u32 = 1;

/// Where the profile of a run came from.
#[derive(Debug, Clone, Copy, PartialEq, Eq)]
pub enum CoverageSourceEcho {
    /// It was given, and no coverage command was run.
    Provided,
    /// A coverage command made it.
    Generated,
}

impl CoverageSourceEcho {
    /// The word for it.
    pub open spec fn word(self) -> Seq<char> {
        match self {
            CoverageSourceEcho::Provided => "provided"@,
            CoverageSourceEcho::Generated => "generated"@,
        }
    }

    /// The word for it.
    pub fn tag(self) -> (out: &'static str)
        ensures
            out@ == self.word(),
    {
        match self {
            CoverageSourceEcho::Provided => "provided",
            CoverageSourceEcho::Generated => "generated",
        }
    }

    /// Where the profile of a run comes from, given its source.
    pub fn of(source: &crate::runner::CoverageSource) -> (out: CoverageSourceEcho)
        ensures
            out is Provided <==> source@ is Existing,
    {
        match source {
            crate::runner::CoverageSource::Existing(_) => CoverageSourceEcho::Provided,
            crate::runner::CoverageSource::Generated { .. } => CoverageSourceEcho::Generated,
        }
    }
}

/// One reported function.
#[derive(Debug, PartialEq, Eq)]
pub struct Function {
    /// Its name. With file and line it is told apart.
    pub name: String,
    /// The module that it is in.
    pub module: String,
    /// The path that its file is known by.
    pub file: String,
    /// The line that it starts on.
    pub start_line: usize,
    /// Its cyclomatic complexity.
    pub complexity: u32,
    /// The bits of the fraction of its lines that was run.
    pub coverage: Option<u64>,
    /// How many of its instrumented lines were run.
    pub covered_lines: Option<u64>,
    /// How many instrumented lines it has.
    pub total_lines: Option<u64>,
    /// The bits of its score.
    pub crap: Option<u64>,
    /// Why its coverage is not simply to be trusted.
    pub coverage_caveat: Option<&'static str>,
}

/// What a `Function` says.
#[verifier::ext_equal]
pub struct EntryView {
    /// See `Function::name`.
    pub name: Seq<char>,
    /// See `Function::module`.
    pub module: Seq<char>,
    /// See `Function::file`.
    pub file: Seq<char>,
    /// See `Function::start_line`.
    pub start_line: usize,
    /// See `Function::complexity`.
    pub complexity: u32,
    /// See `Function::coverage`.
    pub coverage: Option<u64>,
    /// See `Function::covered_lines`.
    pub covered_lines: Option<u64>,
    /// See `Function::total_lines`.
    pub total_lines: Option<u64>,
    /// See `Function::crap`.
    pub crap: Option<u64>,
    /// See `Function::coverage_caveat`.
    pub coverage_caveat: Option<Seq<char>>,
}

impl View for Function {
    type V = EntryView;

    open spec fn view(&self) -> EntryView {
        EntryView {
            name: self.name@,
            module: self.module@,
            file: self.file@,
            start_line: self.start_line,
            complexity: self.complexity,
            coverage: self.coverage,
            covered_lines: self.covered_lines,
            total_lines: self.total_lines,
            crap: self.crap,
            coverage_caveat: crate::runner::optional_text(self.coverage_caveat),
        }
    }
}

/// What several `Function`s say.
pub open spec fn entries_view(functions: Seq<Function>) -> Seq<EntryView> {
    functions.map_values(|function: Function| function@)
}

/// A particular of a warning.
#[derive(Debug, PartialEq, Eq)]
pub enum Particular {
    /// A text.
    Text(String),
    /// Several texts.
    List(Vec<String>),
}

/// What a `Particular` holds.
#[verifier::ext_equal]
pub enum ParticularView {
    /// See `Particular::Text`.
    Text(Seq<char>),
    /// See `Particular::List`.
    List(Seq<Seq<char>>),
}

impl View for Particular {
    type V = ParticularView;

    open spec fn view(&self) -> ParticularView {
        match self {
            Particular::Text(text) => ParticularView::Text(text@),
            Particular::List(items) => ParticularView::List(text::views(items@)),
        }
    }
}

/// A particular under its key.
#[derive(Debug, PartialEq, Eq)]
pub struct Datum {
    /// The key.
    pub key: &'static str,
    /// What stands under it.
    pub value: Particular,
}

/// What a `Datum` holds.
#[verifier::ext_equal]
pub struct DatumView {
    /// See `Datum::key`.
    pub key: Seq<char>,
    /// See `Datum::value`.
    pub value: ParticularView,
}

impl View for Datum {
    type V = DatumView;

    open spec fn view(&self) -> DatumView {
        DatumView { key: self.key@, value: self.value@ }
    }
}

/// What several `Datum`s hold.
pub open spec fn data_view(data: Seq<Datum>) -> Seq<DatumView> {
    data.map_values(|datum: Datum| datum@)
}

/// One warning.
#[derive(Debug, PartialEq, Eq)]
pub struct Warning {
    /// The identifier to branch on.
    pub code: &'static str,
    /// How serious it is.
    pub severity: String,
    /// Which half of the invocation it is about.
    pub phase: &'static str,
    /// The file that it is about.
    pub file: Option<String>,
    /// The line that it points at.
    pub line: Option<usize>,
    /// The column that it points at.
    pub column: Option<usize>,
    /// Its words.
    pub message: String,
    /// Its particulars, in ascending order of their keys.
    pub data: Vec<Datum>,
}

/// What a `Warning` says.
#[verifier::ext_equal]
pub struct WarningView {
    /// See `Warning::code`.
    pub code: Seq<char>,
    /// See `Warning::severity`.
    pub severity: Seq<char>,
    /// See `Warning::phase`.
    pub phase: Seq<char>,
    /// See `Warning::file`.
    pub file: Option<Seq<char>>,
    /// See `Warning::line`.
    pub line: Option<usize>,
    /// See `Warning::column`.
    pub column: Option<usize>,
    /// See `Warning::message`.
    pub message: Seq<char>,
    /// See `Warning::data`.
    pub data: Seq<DatumView>,
}

impl View for Warning {
    type V = WarningView;

    open spec fn view(&self) -> WarningView {
        WarningView {
            code: self.code@,
            severity: self.severity@,
            phase: self.phase@,
            file: crate::syntax::optional(self.file),
            line: self.line,
            column: self.column,
            message: self.message@,
            data: data_view(self.data@),
        }
    }
}

/// What several `Warning`s say.
pub open spec fn warnings_view(warnings: Seq<Warning>) -> Seq<WarningView> {
    warnings.map_values(|warning: Warning| warning@)
}

/// What was asked for.
#[derive(Debug, PartialEq, Eq)]
pub struct Request {
    /// The version of the tool.
    pub crap4rust_version: String,
    /// The filters, as they are spelled.
    pub filters: Vec<String>,
    /// Where the profile came from.
    pub coverage_source: CoverageSourceEcho,
}

/// What was found.
#[derive(Debug, PartialEq, Eq)]
pub struct Findings {
    /// The functions, in the order of the table.
    pub functions: Vec<Function>,
    /// How many modules were declined. A declined module hides what is below
    /// it, so there may be more.
    pub declined_modules: usize,
    /// Everything that was said.
    pub warnings: Vec<Warning>,
}

/// The document.
#[derive(Debug, PartialEq, Eq)]
pub struct Document {
    /// The version of its shape.
    pub schema_version: u32,
    /// What was asked for.
    pub request: Request,
    /// What was found.
    pub findings: Findings,
}

/// The entry of a joined function.
pub open spec fn entry_of(function: JoinedFunction, caveat: Option<Seq<char>>) -> EntryView {
    EntryView {
        name: function.name@,
        module: function.module@,
        file: function.file@,
        start_line: function.start_line,
        complexity: function.complexity,
        coverage: figure_bits(figure_view(function.coverage)),
        covered_lines: match function.lines {
            Some(counts) => Some(counts.covered),
            None => None,
        },
        total_lines: match function.lines {
            Some(counts) => Some(counts.total),
            None => None,
        },
        crap: figure_bits(figure_view(function.crap)),
        coverage_caveat: caveat,
    }
}

/// The word for what the attribution of a file means for its functions.
pub open spec fn caveat_tag(file: JoinedFile) -> Option<Seq<char>> {
    match file.attribution@.caveat() {
        Some(caveat) => Some(caveat.tag()),
        None => None,
    }
}

/// The entries of the functions of a file, as it lists them.
pub open spec fn file_entries(file: JoinedFile) -> Seq<EntryView> {
    file.functions@.map_values(
        |function: JoinedFunction| entry_of(function, caveat_tag(file)),
    )
}

/// The entries of the functions of files, as they list them.
pub open spec fn entries_of(files: Seq<JoinedFile>) -> Seq<EntryView>
    decreases files.len(),
{
    if files.len() == 0 {
        Seq::empty()
    } else {
        entries_of(files.drop_last()) + file_entries(files.last())
    }
}

/// What an entry is ordered by.
pub open spec fn entry_key(entry: EntryView) -> KeyView {
    KeyView {
        crap: entry.crap,
        name: entry.name,
        file: entry.file,
        start_line: entry.start_line,
    }
}

/// What entries are ordered by.
pub open spec fn entry_keys(entries: Seq<EntryView>) -> Seq<KeyView> {
    entries.map_values(|entry: EntryView| entry_key(entry))
}

/// The entries in the order of the table.
pub open spec fn entries_in_order(entries: Seq<EntryView>) -> Seq<EntryView> {
    crate::order::ordering(entry_keys(entries)).map_values(|p: int| entries[p])
}

/// The word for a phase.
pub open spec fn phase_word(phase: Phase) -> Seq<char> {
    match phase {
        Phase::Config => "config"@,
        Phase::Run => "run"@,
    }
}

/// A text under its key.
pub open spec fn text_datum(key: Seq<char>, text: Seq<char>) -> DatumView {
    DatumView { key, value: ParticularView::Text(text) }
}

/// Several texts under their key.
pub open spec fn list_datum(key: Seq<char>, items: Seq<Seq<char>>) -> DatumView {
    DatumView { key, value: ParticularView::List(items) }
}

/// The particulars of a kind, in ascending order of their keys.
pub open spec fn particulars(kind: KindView) -> Seq<DatumView> {
    match kind {
        KindView::IgnoredTestCommand | KindView::CoverageAbsent => Seq::empty(),
        KindView::TestCommandWithoutLcovToken { token, artifact } => seq![
            text_datum("artifact"@, artifact),
            text_datum("token"@, token),
        ],
        KindView::ModuleFileMissing { module, candidates } => seq![
            list_datum("candidates"@, candidates),
            text_datum("module"@, module),
        ],
        KindView::ModuleFileAmbiguous { module, candidates, analysed } => seq![
            text_datum("analysed"@, analysed),
            list_datum("candidates"@, candidates),
            text_datum("module"@, module),
        ],
        KindView::ModulePathConditional { module, attribute } => seq![
            text_datum("attribute"@, attribute),
            text_datum("module"@, module),
        ],
        KindView::CoverageSuffixMatch { key } => seq![text_datum("key"@, key)],
        KindView::CoverageAmbiguous { keys } => seq![list_datum("keys"@, keys)],
        KindView::CoverageContested { key, claimants } => seq![
            list_datum("claimants"@, claimants),
            text_datum("key"@, key),
        ],
        KindView::CoverageSuperseded { key, winner } => seq![
            text_datum("key"@, key),
            text_datum("winner"@, winner),
        ],
        KindView::FilterMatchedNothing { filter } => seq![text_datum("filter"@, filter)],
    }
}

/// The warning that a diagnostic becomes.
pub open spec fn warning_of(diagnostic: DiagnosticView) -> WarningView {
    WarningView {
        code: diagnostic.kind.code(),
        severity: diagnostic.severity.word(),
        phase: phase_word(diagnostic.phase),
        file: match diagnostic.site {
            Some(site) => Some(site.file),
            None => None,
        },
        line: match diagnostic.site {
            Some(site) => site.line,
            None => None,
        },
        column: match diagnostic.site {
            Some(site) => site.column,
            None => None,
        },
        message: diagnostic.kind.message(),
        data: particulars(diagnostic.kind),
    }
}

/// Makes the entry of a function, with the caveat of its file.
fn function(joined: &JoinedFunction, caveat: Option<&'static str>) -> (out: Function)
    ensures
        out@ == entry_of(*joined, crate::runner::optional_text(caveat)),
{
    Function {
        name: joined.name.clone(),
        module: joined.module.clone(),
        file: joined.file.clone(),
        start_line: joined.start_line,
        complexity: joined.complexity,
        coverage: match &joined.coverage {
            Some(figure) => Some(figure.bits),
            None => None,
        },
        covered_lines: match joined.lines {
            Some(counts) => Some(counts.covered),
            None => None,
        },
        total_lines: match joined.lines {
            Some(counts) => Some(counts.total),
            None => None,
        },
        crap: match &joined.crap {
            Some(figure) => Some(figure.bits),
            None => None,
        },
        coverage_caveat: caveat,
    }
}

/// The entries of the functions of files, as they list them.
fn collect_functions(files: &Vec<JoinedFile>) -> (out: Vec<Function>)
    ensures
        entries_view(out@) == entries_of(files@),
{
    let mut out: Vec<Function> = Vec::new();
    let mut i: usize = 0;
    assert(files@.take(0) == Seq::<JoinedFile>::empty());
    assert(entries_view(out@) == Seq::<EntryView>::empty());
    while i < files.len()
        invariant
            i <= files.len(),
            entries_view(out@) == entries_of(files@.take(i as int)),
        decreases files.len() - i,
    {
        let file = &files[i];
        let ghost seen = entries_of(files@.take(i as int));
        let ghost own = file_entries(*file);
        assert(files@.take(i + 1).drop_last() == files@.take(i as int));
        let caveat = match file.attribution.caveat() {
            Some(caveat) => Some(caveat.tag()),
            None => None,
        };
        let mut j: usize = 0;
        assert(seen + own.take(0) == seen);
        while j < file.functions.len()
            invariant
                j <= file.functions.len(),
                own == file_entries(*file),
                crate::runner::optional_text(caveat) == caveat_tag(*file),
                entries_view(out@) == seen + own.take(j as int),
            decreases file.functions.len() - j,
        {
            let ghost before = out@;
            out.push(function(&file.functions[j], caveat));
            assert(entries_view(out@) == entries_view(before).push(own[j as int]));
            assert(own.take(j + 1) == own.take(j as int).push(own[j as int]));
            assert((seen + own.take(j as int)).push(own[j as int]) == seen + own.take(
                j as int,
            ).push(own[j as int]));
            j += 1;
        }
        assert(own.take(j as int) == own);
        i += 1;
    }
    assert(files@.take(i as int) == files@);
    out
}

/// Copies an entry.
fn copy_function(function: &Function) -> (out: Function)
    ensures
        out@ == function@,
{
    Function {
        name: function.name.clone(),
        module: function.module.clone(),
        file: function.file.clone(),
        start_line: function.start_line,
        complexity: function.complexity,
        coverage: function.coverage,
        covered_lines: function.covered_lines,
        total_lines: function.total_lines,
        crap: function.crap,
        coverage_caveat: function.coverage_caveat,
    }
}

/// The entries of the functions of files, in the order of the table.
pub fn functions(files: &Vec<JoinedFile>) -> (out: Vec<Function>)
    ensures
        entries_view(out@) == entries_in_order(entries_of(files@)),
{
    let listed = collect_functions(files);
    let ghost views = entries_of(files@);
    let mut keys: Vec<OrderKey> = Vec::new();
    let mut i: usize = 0;
    while i < listed.len()
        invariant
            i <= listed.len(),
            keys@.len() == i,
            forall|k: int| 0 <= k < i ==> (#[trigger] keys@[k])@ == entry_key(listed@[k]@),
        decreases listed.len() - i,
    {
        let entry = &listed[i];
        keys.push(
            OrderKey {
                crap: entry.crap,
                name: entry.name.clone(),
                file: entry.file.clone(),
                start_line: entry.start_line,
            },
        );
        i += 1;
    }
    let order = crate::order::sort(&keys);
    assert(crate::order::ranks::<KeyView, OrderKey>(keys@) == entry_keys(views));
    let ghost all = entries_in_order(views);
    assert forall|k: int| 0 <= k < order@.len() implies (#[trigger] order@[k]) < listed.len()
        && all[k] == views[order@[k] as int] by {
        assert(crate::order::positions(order@)[k] == order@[k]);
    }
    let mut out: Vec<Function> = Vec::new();
    let mut n: usize = 0;
    while n < order.len()
        invariant
            n <= order.len(),
            out@.len() == n,
            entries_view(listed@) == views,
            all.len() == order@.len(),
            forall|k: int|
                0 <= k < order@.len() ==> (#[trigger] order@[k]) < listed.len() && all[k]
                    == views[order@[k] as int],
            forall|k: int| 0 <= k < n ==> (#[trigger] out@[k])@ == all[k],
        decreases order.len() - n,
    {
        assert(views[order@[n as int] as int] == listed@[order@[n as int] as int]@);
        out.push(copy_function(&listed[order[n]]));
        n += 1;
    }
    assert(entries_view(out@) == all);
    out
}

/// A text under its key.
fn text_entry(key: &'static str, text: &str) -> (out: Datum)
    ensures
        out@ == text_datum(key@, text@),
{
    Datum { key, value: Particular::Text(text.to_owned()) }
}

/// Several texts under their key.
fn list_entry(key: &'static str, items: &Vec<String>) -> (out: Datum)
    ensures
        out@ == list_datum(key@, text::views(items@)),
{
    Datum { key, value: Particular::List(text::copies(items)) }
}

/// The particulars of a kind, in ascending order of their keys.
pub fn data(kind: &Kind) -> (out: Vec<Datum>)
    ensures
        data_view(out@) == particulars(kind@),
{
    let mut out: Vec<Datum> = Vec::new();
    match kind {
        Kind::IgnoredTestCommand | Kind::CoverageAbsent => {},
        Kind::TestCommandWithoutLcovToken { token, artifact } => {
            out.push(text_entry("artifact", artifact));
            out.push(text_entry("token", token));
        },
        Kind::ModuleFileMissing { module, candidates } => {
            out.push(list_entry("candidates", candidates));
            out.push(text_entry("module", module));
        },
        Kind::ModuleFileAmbiguous { module, candidates, analysed } => {
            out.push(text_entry("analysed", analysed));
            out.push(list_entry("candidates", candidates));
            out.push(text_entry("module", module));
        },
        Kind::ModulePathConditional { module, attribute } => {
            out.push(text_entry("attribute", attribute));
            out.push(text_entry("module", module));
        },
        Kind::CoverageSuffixMatch { key } => {
            out.push(text_entry("key", key));
        },
        Kind::CoverageAmbiguous { keys } => {
            out.push(list_entry("keys", keys));
        },
        Kind::CoverageContested { key, claimants } => {
            out.push(list_entry("claimants", claimants));
            out.push(text_entry("key", key));
        },
        Kind::CoverageSuperseded { key, winner } => {
            out.push(text_entry("key", key));
            out.push(text_entry("winner", winner));
        },
        Kind::FilterMatchedNothing { filter } => {
            out.push(text_entry("filter", filter));
        },
    }
    assert(data_view(out@) == particulars(kind@));
    out
}

/// The warning that a diagnostic becomes.
pub fn warning(diagnostic: &Diagnostic) -> (out: Warning)
    ensures
        out@ == warning_of(diagnostic@),
{
    let (file, line, column) = match diagnostic.site() {
        Some(site) => (Some(site.file.clone()), site.line, site.column),
        None => (None, None, None),
    };
    Warning {
        code: diagnostic.code(),
        severity: diagnostic.severity().to_string(),
        phase: match diagnostic.phase() {
            Phase::Config => "config",
            Phase::Run => "run",
        },
        file,
        line,
        column,
        message: diagnostic.kind().to_string(),
        data: data(diagnostic.kind()),
    }
}

/// Makes the document of a run.
///
/// `files` are those that the filters left, and `warnings` is everything that
/// was said, what is about the configuration first. How many functions there are
/// is the length of their list; no second count stands beside it.
pub fn document(
    files: &Vec<JoinedFile>,
    version: &str,
    filters: Vec<String>,
    coverage_source: CoverageSourceEcho,
    declined_modules: usize,
    warnings: &Vec<Diagnostic>,
) -> (out: Document)
    ensures
        out.schema_version == SCHEMA_VERSION,
        out.request.crap4rust_version@ == version@,
        out.request.filters == filters,
        out.request.coverage_source == coverage_source,
        entries_view(out.findings.functions@) == entries_in_order(entries_of(files@)),
        out.findings.declined_modules == declined_modules,
        warnings_view(out.findings.warnings@) == crate::diagnostic::diagnostics_view(
            warnings@,
        ).map_values(|diagnostic: DiagnosticView| warning_of(diagnostic)),
{
    let mut said: Vec<Warning> = Vec::new();
    let mut i: usize = 0;
    while i < warnings.len()
        invariant
            i <= warnings.len(),
            said@.len() == i,
            forall|k: int| 0 <= k < i ==> (#[trigger] said@[k])@ == warning_of(warnings@[k]@),
        decreases warnings.len() - i,
    {
        said.push(warning(&warnings[i]));
        i += 1;
    }
    assert(warnings_view(said@) == crate::diagnostic::diagnostics_view(warnings@).map_values(
        |diagnostic: DiagnosticView| warning_of(diagnostic),
    ));
    Document {
        schema_version: SCHEMA_VERSION,
        request: Request { crap4rust_version: version.to_owned(), filters, coverage_source },
        findings: Findings { functions: functions(files), declined_modules, warnings: said },
    }
}

/// Whether an entry of the document and a row of the table say the same of a
/// function, as far as the table tells it.
pub open spec fn agrees(entry: EntryView, row: RowView) -> bool {
    &&& entry.name == row.name
    &&& entry.module == row.module
    &&& entry.file == row.file
    &&& entry.start_line == row.start_line
    &&& entry.complexity == row.complexity
    &&& entry.coverage == figure_bits(row.coverage)
    &&& entry.crap == figure_bits(row.crap)
}

proof fn lemma_entries_agree(files: Seq<JoinedFile>)
    ensures
        entries_of(files).len() == report::rows_of(files).len(),
        forall|p: int|
            0 <= p < entries_of(files).len() ==> agrees(
                #[trigger] entries_of(files)[p],
                report::rows_of(files)[p],
            ),
    decreases files.len(),
{
    if files.len() > 0 {
        lemma_entries_agree(files.drop_last());
        let before = entries_of(files.drop_last());
        let rows_before = report::rows_of(files.drop_last());
        let last = files.last();
        let all = entries_of(files);
        let rows = report::rows_of(files);
        assert forall|p: int| 0 <= p < all.len() implies agrees(#[trigger] all[p], rows[p]) by {
            if p < before.len() {
                assert(all[p] == before[p]);
                assert(rows[p] == rows_before[p]);
            } else {
                let q = p - before.len();
                assert(all[p] == entry_of(last.functions@[q], caveat_tag(last)));
                assert(rows[p] == report::row_of(last.functions@[q]));
            }
        }
    }
}

/// The document and the table of a run have the same functions in the same
/// order, and say the same of them.
pub proof fn law_document_and_table_agree(files: Seq<JoinedFile>, i: int)
    requires
        0 <= i < entries_of(files).len(),
    ensures
        entries_in_order(entries_of(files)).len() == entries_of(files).len(),
        report::ordered(report::rows_of(files)).len() == entries_of(files).len(),
        agrees(
            entries_in_order(entries_of(files))[i],
            report::ordered(report::rows_of(files))[i],
        ),
{
    lemma_entries_agree(files);
    let entries = entries_of(files);
    let rows = report::rows_of(files);
    let keys = entry_keys(entries);
    assert forall|p: int| 0 <= p < keys.len() implies keys[p] == #[trigger] report::row_keys(
        rows,
    )[p] by {
        assert(agrees(entries[p], rows[p]));
    }
    assert(keys == report::row_keys(rows));
    crate::order::law_every_list_has_an_order(keys);
    let order = crate::order::ordering(keys);
    assert(agrees(entries[order[i]], rows[order[i]]));
}

/// A function that the join scored has counts in the document exactly if it has
/// a fraction and a score there, and never more lines that were run than lines.
pub proof fn law_counts_and_figures_stand_together<F: Fn(u32, Fraction) -> Figures>(
    score: F,
    function: JoinedFunction,
    caveat: Option<Seq<char>>,
)
    requires
        scored_by(score, function),
    ensures
        ({
            let entry = entry_of(function, caveat);
            &&& entry.coverage is Some <==> entry.covered_lines is Some
            &&& entry.coverage is Some <==> entry.total_lines is Some
            &&& entry.coverage is Some <==> entry.crap is Some
            &&& entry.coverage is Some ==> entry.covered_lines->Some_0 <= entry.total_lines->Some_0
        }),
{
}

/// An entry says of a function what was joined, field by field, with the caveat of
/// its file.
pub proof fn law_an_entry_says_what_was_joined(function: JoinedFunction, caveat: Option<Seq<char>>)
    ensures
        ({
            let entry = entry_of(function, caveat);
            &&& entry.name == function.name@
            &&& entry.module == function.module@
            &&& entry.file == function.file@
            &&& entry.start_line == function.start_line
            &&& entry.complexity == function.complexity
            &&& entry.coverage == (match function.coverage {
                Some(figure) => Some(figure.bits),
                None => None::<u64>,
            })
            &&& entry.crap == (match function.crap {
                Some(figure) => Some(figure.bits),
                None => None::<u64>,
            })
            &&& entry.covered_lines == (match function.lines {
                Some(counts) => Some(counts.covered),
                None => None::<u64>,
            })
            &&& entry.total_lines == (match function.lines {
                Some(counts) => Some(counts.total),
                None => None::<u64>,
            })
            &&& entry.coverage_caveat == caveat
        }),
{
}

/// Every function of every file has its entry, with the word for what the
/// attribution of the file means, or none for an exact match.
pub proof fn law_every_function_has_its_entry(
    a: Seq<JoinedFile>,
    b: Seq<JoinedFile>,
    file: JoinedFile,
)
    ensures
        entries_of(a + b) == entries_of(a) + entries_of(b),
        entries_of(seq![file]).len() == file.functions@.len(),
        forall|j: int|
            0 <= j < file.functions@.len() ==> #[trigger] entries_of(seq![file])[j] == entry_of(
                file.functions@[j],
                match file.attribution@.caveat() {
                    Some(caveat) => Some(caveat.tag()),
                    None => None,
                },
            ),
    decreases b.len(),
{
    let none = Seq::<EntryView>::empty();
    assert(seq![file].drop_last() == Seq::<JoinedFile>::empty());
    assert(entries_of(seq![file].drop_last()) == none);
    assert(none + file_entries(file) == file_entries(file));
    if b.len() == 0 {
        assert(a + b == a);
        assert(entries_of(a) + entries_of(b) == entries_of(a));
    } else {
        assert((a + b).drop_last() == a + b.drop_last());
        assert((a + b).last() == b.last());
        law_every_function_has_its_entry(a, b.drop_last(), file);
        let last = file_entries(b.last());
        assert((entries_of(a) + entries_of(b.drop_last())) + last == entries_of(a) + (entries_of(
            b.drop_last(),
        ) + last));
    }
}

/// What stands under a key, if anything does.
pub open spec fn value_under(data: Seq<DatumView>, key: Seq<char>) -> Option<ParticularView>
    decreases data.len(),
{
    if data.len() == 0 {
        None
    } else if data.last().key == key {
        Some(data.last().value)
    } else {
        value_under(data.drop_last(), key)
    }
}

/// Every particular of a kind stands under its own key, and nothing else does.
pub proof fn law_particulars_stand_under_their_keys(kind: KindView)
    ensures
        ({
            let text = |key: Seq<char>, text: Seq<char>|
                value_under(particulars(kind), key) == Some(ParticularView::Text(text));
            let list = |key: Seq<char>, items: Seq<Seq<char>>|
                value_under(particulars(kind), key) == Some(ParticularView::List(items));
            match kind {
                KindView::IgnoredTestCommand | KindView::CoverageAbsent => particulars(kind).len()
                    == 0,
                KindView::TestCommandWithoutLcovToken { token, artifact } => particulars(kind).len()
                    == 2 && text("token"@, token) && text("artifact"@, artifact),
                KindView::ModuleFileMissing { module, candidates } => particulars(kind).len() == 2
                    && text("module"@, module) && list("candidates"@, candidates),
                KindView::ModuleFileAmbiguous { module, candidates, analysed } => particulars(
                    kind,
                ).len() == 3 && text("module"@, module) && list("candidates"@, candidates) && text(
                    "analysed"@,
                    analysed,
                ),
                KindView::ModulePathConditional { module, attribute } => particulars(kind).len()
                    == 2 && text("module"@, module) && text("attribute"@, attribute),
                KindView::CoverageSuffixMatch { key } => particulars(kind).len() == 1 && text(
                    "key"@,
                    key,
                ),
                KindView::CoverageAmbiguous { keys } => particulars(kind).len() == 1 && list(
                    "keys"@,
                    keys,
                ),
                KindView::CoverageContested { key, claimants } => particulars(kind).len() == 2
                    && text("key"@, key) && list("claimants"@, claimants),
                KindView::CoverageSuperseded { key, winner } => particulars(kind).len() == 2
                    && text("key"@, key) && text("winner"@, winner),
                KindView::FilterMatchedNothing { filter } => particulars(kind).len() == 1 && text(
                    "filter"@,
                    filter,
                ),
            }
        }),
{
    reveal_strlit("artifact");
    reveal_strlit("token");
    reveal_strlit("module");
    reveal_strlit("candidates");
    reveal_strlit("analysed");
    reveal_strlit("attribute");
    reveal_strlit("key");
    reveal_strlit("keys");
    reveal_strlit("claimants");
    reveal_strlit("winner");
    reveal_strlit("filter");
    reveal_with_fuel(value_under, 4);
    let data = particulars(kind);
    assert("artifact"@.len() == 8 && "token"@.len() == 5);
    assert("module"@.len() == 6 && "candidates"@.len() == 10 && "analysed"@.len() == 8);
    assert("attribute"@.len() == 9 && "key"@.len() == 3 && "claimants"@.len() == 9);
    assert("winner"@.len() == 6);
    if data.len() == 2 {
        assert(data.drop_last() == seq![data[0]]);
    }
    if data.len() == 3 {
        assert(data.drop_last() == seq![data[0], data[1]]);
        assert(data.drop_last().drop_last() == seq![data[0]]);
    }
}

/// A warning says what the diagnostic says, and points where it points.
pub proof fn law_a_warning_says_what_was_said(diagnostic: DiagnosticView)
    ensures
        ({
            let warning = warning_of(diagnostic);
            &&& warning.code == diagnostic.kind.code()
            &&& warning.message == diagnostic.kind.message()
            &&& warning.data == particulars(diagnostic.kind)
            &&& diagnostic.site is None ==> warning.file is None && warning.line is None
                && warning.column is None
            &&& diagnostic.site matches Some(site) ==> warning.file == Some(site.file)
                && warning.line == site.line && warning.column == site.column
            &&& diagnostic.phase is Config ==> warning.phase == "config"@
            &&& diagnostic.phase is Run ==> warning.phase == "run"@
            &&& warning.severity == "warning"@
        }),
{
}

/// The entries stand in the order of the table, and none is lost.
pub proof fn law_entries_stand_in_order(entries: Seq<EntryView>, i: int, j: int)
    requires
        0 <= i < j < entries.len(),
    ensures
        entries_in_order(entries).to_multiset() == entries.to_multiset(),
        entries_in_order(entries).len() == entries.len(),
        ({
            let (a, b) = (entries_in_order(entries)[i], entries_in_order(entries)[j]);
            &&& a.crap is None ==> b.crap is None
            &&& a.crap is Some && b.crap is Some ==> report::magnitude(a.crap->Some_0)
                >= report::magnitude(b.crap->Some_0)
            &&& a.crap == b.crap ==> !text::before(b.name, a.name) && (a.name == b.name
                ==> !text::before(b.file, a.file) && (a.file == b.file ==> a.start_line
                <= b.start_line))
        }),
{
    let keys = entry_keys(entries);
    crate::order::law_an_order_keeps_every_value(keys, entries);
    crate::order::law_what_is_sorted_ascends(keys, i, j);
    let order = crate::order::ordering(keys);
    let (a, b) = (keys[order[i]], keys[order[j]]);
    assert(a == entry_key(entries[order[i]]));
    assert(b == entry_key(entries[order[j]]));
    report::law_what_a_report_is_ordered_by(b, a);
}

} // verus!
