//! The join of measured functions with line coverage.
//!
//! Which record of a profile a source file is read from is settled over all
//! files at once: a record that several files claim belongs to the one whose
//! path it is, if there is exactly one such file, and else to none of them.

use vstd::prelude::*;

use crate::complexity::{FunctionComplexity, FunctionView};
use crate::coverage::{LcovData, Profile, Resolution, ResolutionView};
use crate::text;

verus! {

/// A number of the arithmetic on coverage: the bits of its double-precision
/// form, by which it is ordered, and its text with one decimal place.
#[derive(Debug, PartialEq, Eq)]
pub struct Figure {
    /// The number, as the bits of its double-precision form.
    pub bits: u64,
    /// The number as it is shown, with one decimal place.
    pub text: String,
}

/// What a `Figure` says.
#[verifier::ext_equal]
pub struct FigureView {
    /// See `Figure::bits`.
    pub bits: u64,
    /// See `Figure::text`.
    pub text: Seq<char>,
}

impl View for Figure {
    type V = FigureView;

    open spec fn view(&self) -> FigureView {
        FigureView { bits: self.bits, text: self.text@ }
    }
}

impl Clone for Figure {
    fn clone(&self) -> (out: Figure)
        ensures
            out == self,
    {
        Figure { bits: self.bits, text: self.text.clone() }
    }
}

/// The figures of one function: the fraction of its lines that was run, shown
/// as a percentage, and its score.
#[derive(Debug, PartialEq, Eq)]
pub struct Figures {
    /// The fraction of the lines that was run.
    pub coverage: Figure,
    /// The score.
    pub crap: Figure,
}

/// A fraction, as two whole numbers.
#[derive(Debug, Clone, Copy, PartialEq, Eq)]
pub struct Fraction {
    /// What is counted.
    pub numerator: u64,
    /// What it is counted of.
    pub denominator: u64,
}

impl Fraction {
    /// Whether the fraction lies between nothing and everything.
    pub open spec fn proper(self) -> bool {
        0 < self.denominator && self.numerator <= self.denominator
    }
}

/// The instrumented lines of one function.
#[derive(Debug, Clone, Copy, PartialEq, Eq)]
pub struct LineCounts {
    /// How many were run.
    pub covered: u64,
    /// How many there are.
    pub total: u64,
}

impl LineCounts {
    /// The fraction of the lines that was run. Of no lines all were: what is not
    /// instrumented is not untested.
    pub open spec fn ratio(self) -> Fraction {
        if self.total == 0 {
            Fraction { numerator: 1, denominator: 1 }
        } else {
            Fraction { numerator: self.covered, denominator: self.total }
        }
    }

    /// The fraction of the lines that was run.
    pub fn fraction(self) -> (out: Fraction)
        ensures
            out == self.ratio(),
            self.covered <= self.total ==> out.proper(),
    {
        if self.total == 0 {
            Fraction { numerator: 1, denominator: 1 }
        } else {
            Fraction { numerator: self.covered, denominator: self.total }
        }
    }
}

/// One source file with the functions measured in it.
#[derive(Debug)]
pub struct SourceUnit {
    /// The module path of the file, which starts with its crate.
    pub module: String,
    /// The path that the file is known by.
    pub path: String,
    /// The functions measured in it.
    pub functions: Vec<FunctionComplexity>,
}

/// What a `SourceUnit` holds.
#[verifier::ext_equal]
pub struct UnitView {
    /// See `SourceUnit::module`.
    pub module: Seq<char>,
    /// See `SourceUnit::path`.
    pub path: Seq<char>,
    /// See `SourceUnit::functions`.
    pub functions: Seq<FunctionView>,
}

impl View for SourceUnit {
    type V = UnitView;

    open spec fn view(&self) -> UnitView {
        UnitView {
            module: self.module@,
            path: self.path@,
            functions: crate::complexity::functions_view(self.functions@),
        }
    }
}

/// What several `SourceUnit`s hold.
pub open spec fn units_view(units: Seq<SourceUnit>) -> Seq<UnitView> {
    units.map_values(|unit: SourceUnit| unit@)
}

/// What the coverage of a file was attributed to, with all files in view.
#[derive(Debug, PartialEq, Eq)]
pub enum Attribution {
    /// The match of the file stands: nobody else claims its record, or it is the
    /// only one to match it exactly, or it has none.
    Resolved(Resolution),
    /// Several files claim the record and none outranks the others, so it is
    /// attributed to none of them.
    Collision { key: String, sources: Vec<String> },
    /// The file claimed the record by a suffix match and lost it to the one file
    /// that matches it exactly.
    Superseded { key: String, winner: String },
}

/// What an `Attribution` says.
#[verifier::ext_equal]
pub enum AttributionView {
    /// See `Attribution::Resolved`.
    Resolved(ResolutionView),
    /// See `Attribution::Collision`.
    Collision { key: Seq<char>, sources: Seq<Seq<char>> },
    /// See `Attribution::Superseded`.
    Superseded { key: Seq<char>, winner: Seq<char> },
}

impl View for Attribution {
    type V = AttributionView;

    open spec fn view(&self) -> AttributionView {
        match self {
            Attribution::Resolved(resolution) => AttributionView::Resolved(resolution@),
            Attribution::Collision { key, sources } => AttributionView::Collision {
                key: key@,
                sources: text::views(sources@),
            },
            Attribution::Superseded { key, winner } => AttributionView::Superseded {
                key: key@,
                winner: winner@,
            },
        }
    }
}

impl Clone for Attribution {
    fn clone(&self) -> (out: Attribution)
        ensures
            out@ == self@,
    {
        match self {
            Attribution::Resolved(resolution) => Attribution::Resolved(resolution.clone()),
            Attribution::Collision { key, sources } => Attribution::Collision {
                key: key.clone(),
                sources: text::copies(sources),
            },
            Attribution::Superseded { key, winner } => Attribution::Superseded {
                key: key.clone(),
                winner: winner.clone(),
            },
        }
    }
}

/// What an attribution means for every function scored from it. An exact match
/// has nothing to say.
#[derive(Debug, Clone, Copy, PartialEq, Eq)]
pub enum Caveat<'a> {
    /// Scored, but from a record that was matched by its suffix only.
    Suffix { key: &'a str },
    /// Not in the profile at all.
    Absent,
    /// Several records match equally well.
    Ambiguous { keys: &'a Vec<String> },
    /// Several files claim the record.
    Contested { key: &'a str, claimants: &'a Vec<String> },
    /// The record belongs to a file that matches it exactly.
    Superseded { key: &'a str, winner: &'a str },
}

/// What a `Caveat` says.
#[verifier::ext_equal]
pub enum CaveatView {
    /// See `Caveat::Suffix`.
    Suffix { key: Seq<char> },
    /// See `Caveat::Absent`.
    Absent,
    /// See `Caveat::Ambiguous`.
    Ambiguous { keys: Seq<Seq<char>> },
    /// See `Caveat::Contested`.
    Contested { key: Seq<char>, claimants: Seq<Seq<char>> },
    /// See `Caveat::Superseded`.
    Superseded { key: Seq<char>, winner: Seq<char> },
}

impl<'a> View for Caveat<'a> {
    type V = CaveatView;

    open spec fn view(&self) -> CaveatView {
        match self {
            Caveat::Suffix { key } => CaveatView::Suffix { key: key@ },
            Caveat::Absent => CaveatView::Absent,
            Caveat::Ambiguous { keys } => CaveatView::Ambiguous { keys: text::views(keys@) },
            Caveat::Contested { key, claimants } => CaveatView::Contested {
                key: key@,
                claimants: text::views(claimants@),
            },
            Caveat::Superseded { key, winner } => CaveatView::Superseded {
                key: key@,
                winner: winner@,
            },
        }
    }
}

impl CaveatView {
    /// The word for a caveat.
    pub open spec fn tag(self) -> Seq<char> {
        match self {
            CaveatView::Suffix { .. } => "suffix"@,
            CaveatView::Absent => "absent"@,
            CaveatView::Ambiguous { .. } => "ambiguous"@,
            CaveatView::Contested { .. } => "contested"@,
            CaveatView::Superseded { .. } => "superseded"@,
        }
    }
}

impl<'a> Caveat<'a> {
    /// The word for a caveat.
    pub fn tag(&self) -> (out: &'static str)
        ensures
            out@ == self@.tag(),
    {
        match self {
            Caveat::Suffix { .. } => "suffix",
            Caveat::Absent => "absent",
            Caveat::Ambiguous { .. } => "ambiguous",
            Caveat::Contested { .. } => "contested",
            Caveat::Superseded { .. } => "superseded",
        }
    }
}

impl AttributionView {
    /// The record that coverage may be read from, where there is a single
    /// defensible one.
    pub open spec fn key(self) -> Option<Seq<char>> {
        match self {
            AttributionView::Resolved(resolution) => resolution.key(),
            AttributionView::Collision { .. } => None,
            AttributionView::Superseded { .. } => None,
        }
    }

    /// What the attribution means for what is scored from it.
    pub open spec fn caveat(self) -> Option<CaveatView> {
        match self {
            AttributionView::Resolved(ResolutionView::Exact(_)) => None,
            AttributionView::Resolved(ResolutionView::Suffix(key)) => Some(
                CaveatView::Suffix { key },
            ),
            AttributionView::Resolved(ResolutionView::Ambiguous(keys)) => Some(
                CaveatView::Ambiguous { keys },
            ),
            AttributionView::Resolved(ResolutionView::Unresolved) => Some(CaveatView::Absent),
            AttributionView::Collision { key, sources } => Some(
                CaveatView::Contested { key, claimants: sources },
            ),
            AttributionView::Superseded { key, winner } => Some(
                CaveatView::Superseded { key, winner },
            ),
        }
    }
}

impl Attribution {
    /// The record that coverage may be read from, where there is a single
    /// defensible one.
    pub fn key(&self) -> (out: Option<&str>)
        ensures
            match out {
                Some(key) => self@.key() == Some(key@),
                None => self@.key() is None,
            },
    {
        match self {
            Attribution::Resolved(resolution) => resolution.key(),
            Attribution::Collision { .. } => None,
            Attribution::Superseded { .. } => None,
        }
    }

    /// What the attribution means for what is scored from it: nothing to say of
    /// an exact match.
    pub fn caveat(&self) -> (out: Option<Caveat<'_>>)
        ensures
            match out {
                Some(caveat) => self@.caveat() == Some(caveat@),
                None => self@.caveat() is None,
            },
    {
        match self {
            Attribution::Resolved(Resolution::Exact(_)) => None,
            Attribution::Resolved(Resolution::Suffix(key)) => Some(Caveat::Suffix { key }),
            Attribution::Resolved(Resolution::Ambiguous(keys)) => Some(Caveat::Ambiguous { keys }),
            Attribution::Resolved(Resolution::Unresolved) => Some(Caveat::Absent),
            Attribution::Collision { key, sources } => Some(
                Caveat::Contested { key, claimants: sources },
            ),
            Attribution::Superseded { key, winner } => Some(Caveat::Superseded { key, winner }),
        }
    }
}

/// One function after the join.
#[derive(Debug, PartialEq, Eq)]
pub struct JoinedFunction {
    /// The name of the function.
    pub name: String,
    /// The module that it is in: that of its file, and the inline modules around
    /// it.
    pub module: String,
    /// The path that its file is known by.
    pub file: String,
    /// The line that it starts on.
    pub start_line: usize,
    /// Its cyclomatic complexity.
    pub complexity: u32,
    /// The fraction of its lines that was run, if its file has a record.
    pub coverage: Option<Figure>,
    /// The counts that the fraction comes from.
    pub lines: Option<LineCounts>,
    /// Its score, if its file has a record.
    pub crap: Option<Figure>,
}

/// What a `JoinedFunction` says, but for its figures.
#[verifier::ext_equal]
pub struct JoinedView {
    /// See `JoinedFunction::name`.
    pub name: Seq<char>,
    /// See `JoinedFunction::module`.
    pub module: Seq<char>,
    /// See `JoinedFunction::file`.
    pub file: Seq<char>,
    /// See `JoinedFunction::start_line`.
    pub start_line: usize,
    /// See `JoinedFunction::complexity`.
    pub complexity: nat,
    /// See `JoinedFunction::lines`.
    pub lines: Option<LineCounts>,
}

impl View for JoinedFunction {
    type V = JoinedView;

    open spec fn view(&self) -> JoinedView {
        JoinedView {
            name: self.name@,
            module: self.module@,
            file: self.file@,
            start_line: self.start_line,
            complexity: self.complexity as nat,
            lines: self.lines,
        }
    }
}

/// One source file after the join: what its coverage was attributed to, and the
/// functions scored from that.
#[derive(Debug, PartialEq, Eq)]
pub struct JoinedFile {
    /// The path that the file is known by.
    pub file: String,
    /// What its coverage was attributed to.
    pub attribution: Attribution,
    /// Its functions, in the order of the input.
    pub functions: Vec<JoinedFunction>,
}

/// What a `JoinedFile` says, but for the figures of its functions.
#[verifier::ext_equal]
pub struct JoinedFileView {
    /// See `JoinedFile::file`.
    pub file: Seq<char>,
    /// See `JoinedFile::attribution`.
    pub attribution: AttributionView,
    /// See `JoinedFile::functions`.
    pub functions: Seq<JoinedView>,
}

impl View for JoinedFile {
    type V = JoinedFileView;

    open spec fn view(&self) -> JoinedFileView {
        JoinedFileView {
            file: self.file@,
            attribution: self.attribution@,
            functions: self.functions@.map_values(|function: JoinedFunction| function@),
        }
    }
}

/// What several `JoinedFile`s say.
pub open spec fn files_view(files: Seq<JoinedFile>) -> Seq<JoinedFileView> {
    files.map_values(|file: JoinedFile| file@)
}

/// What the join makes: one entry for each file, in the order of the input.
#[derive(Debug)]
pub struct JoinResult {
    /// The files.
    pub files: Vec<JoinedFile>,
}

/// What a path is asked for by: without the `../` in front of it, which no path
/// of a profile ends with.
pub open spec fn query(path: Seq<char>) -> Seq<char>
    decreases path.len(),
{
    if text::has_prefix(path, seq!['.', '.', '/']) {
        query(path.skip(3))
    } else {
        path
    }
}

/// How a source path is matched against a profile.
pub open spec fn resolution_of(profile: Profile, path: Seq<char>) -> ResolutionView {
    crate::coverage::resolved(query(path), crate::coverage::paths(profile))
}

/// A claim of a source path on a record.
#[verifier::ext_equal]
pub struct ClaimView {
    /// The source path.
    pub path: Seq<char>,
    /// Whether the record is the path itself.
    pub exact: bool,
}

/// Whether a path is among the claims.
pub open spec fn claimed_by(claims: Seq<ClaimView>, path: Seq<char>) -> bool {
    exists|i: int| 0 <= i < claims.len() && (#[trigger] claims[i]).path == path
}

/// The claims on a record, in the order of the files. A path that is listed
/// twice is one claimant.
pub open spec fn claims_on(profile: Profile, units: Seq<UnitView>, key: Seq<char>) -> Seq<ClaimView>
    decreases units.len(),
{
    if units.len() == 0 {
        Seq::empty()
    } else {
        let claims = claims_on(profile, units.drop_last(), key);
        let path = units.last().path;
        let resolution = resolution_of(profile, path);
        if resolution.key() == Some(key) && !claimed_by(claims, path) {
            claims.push(ClaimView { path, exact: resolution is Exact })
        } else {
            claims
        }
    }
}

/// The claims of paths that are the record itself, in order.
pub open spec fn exact_claims(claims: Seq<ClaimView>) -> Seq<ClaimView> {
    claims.filter(|claim: ClaimView| claim.exact)
}

/// The paths of claims.
pub open spec fn claim_paths(claims: Seq<ClaimView>) -> Seq<Seq<char>> {
    claims.map_values(|claim: ClaimView| claim.path)
}

/// How a record with several claims is settled for one of the claimants. The
/// only exact one takes it, and the others lose it to that one; where none or
/// several are exact, nothing ranks the claims and nobody takes it.
pub open spec fn settled(
    key: Seq<char>,
    claims: Seq<ClaimView>,
    path: Seq<char>,
    resolution: ResolutionView,
) -> AttributionView {
    let exact = exact_claims(claims);
    if exact.len() == 1 {
        if exact[0].path == path {
            AttributionView::Resolved(resolution)
        } else {
            AttributionView::Superseded { key, winner: exact[0].path }
        }
    } else {
        AttributionView::Collision { key, sources: claim_paths(claims) }
    }
}

/// What the coverage of a source path is attributed to, with all files in view.
pub open spec fn attribution_of(
    profile: Profile,
    units: Seq<UnitView>,
    path: Seq<char>,
) -> AttributionView {
    let resolution = resolution_of(profile, path);
    match resolution.key() {
        Some(key) => {
            let claims = claims_on(profile, units, key);
            if claims.len() > 1 {
                settled(key, claims, path, resolution)
            } else {
                AttributionView::Resolved(resolution)
            }
        },
        None => AttributionView::Resolved(resolution),
    }
}

/// The module that a function is in.
pub open spec fn module_name(unit: UnitView, function: FunctionView) -> Seq<char> {
    if function.modules.len() == 0 {
        unit.module
    } else {
        unit.module + "::"@ + text::joined(function.modules, "::"@)
    }
}

/// A line as profiles count them. Those that do not fit count as the last one.
pub open spec fn profile_line(line: usize) -> u32 {
    if line <= u32::MAX {
        line as u32
    } else {
        u32::MAX
    }
}

/// The instrumented lines of a function, if its file has a record.
pub open spec fn counts_of(
    profile: Profile,
    key: Option<Seq<char>>,
    function: FunctionView,
) -> Option<LineCounts> {
    match key {
        Some(key) => {
            let counts = crate::coverage::range_counts(
                profile,
                key,
                profile_line(function.start_line),
                profile_line(function.end_line),
            );
            Some(LineCounts { covered: counts.0 as u64, total: counts.1 as u64 })
        },
        None => None,
    }
}

/// What the join makes of one function.
pub open spec fn joined_function(
    profile: Profile,
    key: Option<Seq<char>>,
    unit: UnitView,
    function: FunctionView,
) -> JoinedView {
    JoinedView {
        name: function.name,
        module: module_name(unit, function),
        file: unit.path,
        start_line: function.start_line,
        complexity: function.complexity,
        lines: counts_of(profile, key, function),
    }
}

/// What the join makes of one file.
pub open spec fn joined_file(profile: Profile, units: Seq<UnitView>, unit: UnitView) -> JoinedFileView {
    let attribution = attribution_of(profile, units, unit.path);
    JoinedFileView {
        file: unit.path,
        attribution,
        functions: unit.functions.map_values(
            |function: FunctionView| joined_function(profile, attribution.key(), unit, function),
        ),
    }
}

/// What the join makes of all files.
pub open spec fn joined_files(profile: Profile, units: Seq<UnitView>) -> Seq<JoinedFileView> {
    units.map_values(|unit: UnitView| joined_file(profile, units, unit))
}

/// What a path is asked for by.
pub fn query_key(path: &str) -> (out: String)
    ensures
        out@ == query(path@),
{
    let all = text::chars(path);
    let mut at: usize = 0;
    assert(all@.skip(0) == all@);
    while all.len() - at >= 3 && all[at] == '.' && all[at + 1] == '.' && all[at + 2] == '/'
        invariant
            at <= all.len(),
            all@ == path@,
            query(path@) == query(all@.skip(at as int)),
        decreases all.len() - at,
    {
        let ghost rest = all@.skip(at as int);
        assert(rest.take(3) == seq!['.', '.', '/']);
        assert(rest.skip(3) == all@.skip(at + 3));
        at += 3;
    }
    proof {
        let rest = all@.skip(at as int);
        if text::has_prefix(rest, seq!['.', '.', '/']) {
            assert(rest.take(3)[0] == '.');
            assert(rest.take(3)[1] == '.');
            assert(rest.take(3)[2] == '/');
        }
    }
    text::slice(&all, at, all.len())
}

/// The module that a function is in: that of its file, and the inline modules
/// around it.
fn module_of(unit: &SourceUnit, function: &FunctionComplexity) -> (out: String)
    ensures
        out@ == module_name(unit@, function@),
{
    let mut out = unit.module.clone();
    if function.modules.len() > 0 {
        out.append("::");
        out.append(&text::join(&function.modules, "::"));
    }
    out
}

/// A line as profiles count them.
fn line_to_u32(line: usize) -> (out: u32)
    ensures
        out == profile_line(line),
{
    if line as u64 <= u32::MAX as u64 {
        line as u32
    } else {
        u32::MAX
    }
}

/// The instrumented lines of a function, if its file has a record.
fn line_counts(lcov: &LcovData, key: Option<&str>, function: &FunctionComplexity) -> (out: Option<
    LineCounts,
>)
    ensures
        match key {
            Some(key) => out == counts_of(lcov@, Some(key@), function@),
            None => out is None,
        },
        out matches Some(counts) ==> counts.covered <= counts.total,
{
    match key {
        Some(key) => {
            let (covered, total) = lcov.coverage_in_range(
                key,
                line_to_u32(function.start_line),
                line_to_u32(function.end_line),
            );
            Some(LineCounts { covered, total })
        },
        None => None,
    }
}

/// A claim of a source path on a record.
struct Claim {
    path: String,
    exact: bool,
}

impl View for Claim {
    type V = ClaimView;

    closed spec fn view(&self) -> ClaimView {
        ClaimView { path: self.path@, exact: self.exact }
    }
}

/// What several `Claim`s say.
spec fn claims_view(claims: Seq<Claim>) -> Seq<ClaimView> {
    claims.map_values(|claim: Claim| claim@)
}

/// Whether a path is among the claims.
fn has_claim(claims: &Vec<Claim>, path: &str) -> (r: bool)
    ensures
        r == claimed_by(claims_view(claims@), path@),
{
    let ghost views = claims_view(claims@);
    let mut i: usize = 0;
    while i < claims.len()
        invariant
            i <= claims.len(),
            views == claims_view(claims@),
            forall|k: int| 0 <= k < i ==> (#[trigger] views[k]).path != path@,
        decreases claims.len() - i,
    {
        assert(views[i as int] == claims@[i as int]@);
        if text::same(&claims[i].path, path) {
            return true;
        }
        i += 1;
    }
    false
}

/// Whether `resolutions` are the matches of the units.
spec fn resolves(profile: Profile, units: Seq<SourceUnit>, resolutions: Seq<Resolution>) -> bool {
    &&& resolutions.len() == units.len()
    &&& forall|i: int|
        0 <= i < units.len() ==> (#[trigger] resolutions[i])@ == resolution_of(
            profile,
            units[i].path@,
        )
}

/// The claims on a record.
fn claims_of(
    lcov: &LcovData,
    units: &Vec<SourceUnit>,
    resolutions: &Vec<Resolution>,
    key: &str,
) -> (out: Vec<Claim>)
    requires
        resolves(lcov@, units@, resolutions@),
    ensures
        claims_view(out@) == claims_on(lcov@, units_view(units@), key@),
{
    let ghost views = units_view(units@);
    let mut out: Vec<Claim> = Vec::new();
    let mut i: usize = 0;
    assert(views.take(0) == Seq::<UnitView>::empty());
    assert(claims_view(out@) == Seq::<ClaimView>::empty());
    while i < units.len()
        invariant
            i <= units.len(),
            views == units_view(units@),
            resolves(lcov@, units@, resolutions@),
            claims_view(out@) == claims_on(lcov@, views.take(i as int), key@),
        decreases units.len() - i,
    {
        assert(views.take(i + 1).drop_last() == views.take(i as int));
        assert(views.take(i + 1).last() == units@[i as int]@);
        let claims: bool = match resolutions[i].key() {
            Some(claimed) => text::same(claimed, key),
            None => false,
        };
        if claims && !has_claim(&out, &units[i].path) {
            let exact: bool = match &resolutions[i] {
                Resolution::Exact(_) => true,
                _ => false,
            };
            let ghost before = out@;
            out.push(Claim { path: units[i].path.clone(), exact });
            assert(claims_view(out@) == claims_view(before).push(out@.last()@));
        }
        i += 1;
    }
    assert(views.take(i as int) == views);
    out
}

/// Settles a record with several claims for one of the claimants.
fn contested(key: &str, claimants: &Vec<Claim>, path: &str, resolution: Resolution) -> (out:
    Attribution)
    ensures
        out@ == settled(key@, claims_view(claimants@), path@, resolution@),
{
    let ghost views = claims_view(claimants@);
    let mut exact: Vec<usize> = Vec::new();
    let mut sources: Vec<String> = Vec::new();
    let mut i: usize = 0;
    proof {
        reveal(Seq::filter);
    }
    while i < claimants.len()
        invariant
            i <= claimants.len(),
            views == claims_view(claimants@),
            exact@.len() == exact_claims(views.take(i as int)).len(),
            forall|k: int|
                0 <= k < exact@.len() ==> (#[trigger] exact@[k]) < claimants.len()
                    && views[exact@[k] as int] == exact_claims(views.take(i as int))[k],
            text::views(sources@) == claim_paths(views.take(i as int)),
        decreases claimants.len() - i,
    {
        let ghost seen = views.take(i as int);
        let ghost more = views.take(i + 1);
        assert(more.drop_last() == seen);
        assert(more.last() == claimants@[i as int]@);
        proof {
            reveal(Seq::filter);
        }
        if claimants[i].exact {
            exact.push(i);
        }
        let ghost before = sources@;
        sources.push(claimants[i].path.clone());
        assert(text::views(sources@) == text::views(before).push(claimants@[i as int].path@));
        assert(claim_paths(more) == claim_paths(seen).push(claimants@[i as int].path@));
        i += 1;
    }
    assert(views.take(i as int) == views);
    if exact.len() == 1 {
        let winner = &claimants[exact[0]];
        assert(winner@ == exact_claims(views)[0]);
        if text::same(&winner.path, path) {
            Attribution::Resolved(resolution)
        } else {
            Attribution::Superseded { key: key.to_owned(), winner: winner.path.clone() }
        }
    } else {
        Attribution::Collision { key: key.to_owned(), sources }
    }
}

/// Settles what the coverage of the unit at `i` is attributed to.
fn attribute(
    lcov: &LcovData,
    units: &Vec<SourceUnit>,
    resolutions: &Vec<Resolution>,
    i: usize,
) -> (out: Attribution)
    requires
        resolves(lcov@, units@, resolutions@),
        i < units.len(),
    ensures
        out@ == attribution_of(lcov@, units_view(units@), units@[i as int].path@),
{
    let resolution = resolutions[i].clone();
    match resolutions[i].key() {
        Some(key) => {
            let claimants = claims_of(lcov, units, resolutions, key);
            if claimants.len() > 1 {
                contested(key, &claimants, &units[i].path, resolution)
            } else {
                Attribution::Resolved(resolution)
            }
        },
        None => Attribution::Resolved(resolution),
    }
}

/// Whether arithmetic can be done on every complexity and every fraction.
pub open spec fn scores_anything<F: Fn(u32, Fraction) -> Figures>(score: F) -> bool {
    forall|complexity: u32, fraction: Fraction|
        fraction.proper() ==> #[trigger] call_requires(score, (complexity, fraction))
}

/// Whether the arithmetic makes the same figures of the same numbers every time.
pub open spec fn scores_alike<F: Fn(u32, Fraction) -> Figures>(score: F) -> bool {
    forall|complexity: u32, fraction: Fraction, a: Figures, b: Figures|
        #[trigger] call_ensures(score, (complexity, fraction), a) && #[trigger] call_ensures(
            score,
            (complexity, fraction),
            b,
        ) ==> a.coverage@ == b.coverage@ && a.crap@ == b.crap@
}

/// Whether the figures of a function are what the arithmetic makes of its
/// complexity and its fraction: none where it has no counts.
pub open spec fn scored_by<F: Fn(u32, Fraction) -> Figures>(
    score: F,
    function: JoinedFunction,
) -> bool {
    match function.lines {
        None => function.coverage is None && function.crap is None,
        Some(counts) => {
            &&& function.coverage is Some
            &&& function.crap is Some
            &&& counts.covered <= counts.total
            &&& call_ensures(
                score,
                (function.complexity, counts.ratio()),
                Figures {
                    coverage: function.coverage->Some_0,
                    crap: function.crap->Some_0,
                },
            )
        },
    }
}

/// Whether the figures of every function are what the arithmetic makes.
pub open spec fn all_scored_by<F: Fn(u32, Fraction) -> Figures>(
    score: F,
    files: Seq<JoinedFile>,
) -> bool {
    forall|i: int, j: int|
        0 <= i < files.len() && 0 <= j < files[i].functions@.len() ==> scored_by(
            score,
            #[trigger] files[i].functions@[j],
        )
}

/// Joins one function.
fn join_function<F: Fn(u32, Fraction) -> Figures>(
    lcov: &LcovData,
    key: Option<&str>,
    unit: &SourceUnit,
    function: &FunctionComplexity,
    score: &F,
) -> (out: JoinedFunction)
    requires
        scores_anything(*score),
    ensures
        match key {
            Some(key) => out@ == joined_function(lcov@, Some(key@), unit@, function@),
            None => out@ == joined_function(lcov@, None, unit@, function@),
        },
        scored_by(*score, out),
{
    let lines = line_counts(lcov, key, function);
    let (coverage, crap) = match lines {
        Some(counts) => {
            let figures = score(function.complexity, counts.fraction());
            (Some(figures.coverage), Some(figures.crap))
        },
        None => (None, None),
    };
    JoinedFunction {
        name: function.name.clone(),
        module: module_of(unit, function),
        file: unit.path.clone(),
        start_line: function.start_line,
        complexity: function.complexity,
        coverage,
        lines,
        crap,
    }
}

/// Joins the functions of one file.
fn join_unit<F: Fn(u32, Fraction) -> Figures>(
    lcov: &LcovData,
    attribution: Attribution,
    unit: &SourceUnit,
    score: &F,
) -> (out: JoinedFile)
    requires
        scores_anything(*score),
    ensures
        out@ == (JoinedFileView {
            file: unit@.path,
            attribution: attribution@,
            functions: unit@.functions.map_values(
                |function: FunctionView|
                    joined_function(lcov@, attribution@.key(), unit@, function),
            ),
        }),
        forall|j: int|
            0 <= j < out.functions@.len() ==> scored_by(*score, #[trigger] out.functions@[j]),
{
    let mut functions: Vec<JoinedFunction> = Vec::new();
    let key = attribution.key();
    let mut j: usize = 0;
    while j < unit.functions.len()
        invariant
            j <= unit.functions.len(),
            functions@.len() == j,
            scores_anything(*score),
            match key {
                Some(key) => attribution@.key() == Some(key@),
                None => attribution@.key() is None,
            },
            forall|k: int|
                0 <= k < j ==> (#[trigger] functions@[k])@ == joined_function(
                    lcov@,
                    attribution@.key(),
                    unit@,
                    unit@.functions[k],
                ),
            forall|k: int| 0 <= k < j ==> scored_by(*score, #[trigger] functions@[k]),
        decreases unit.functions.len() - j,
    {
        assert(unit@.functions[j as int] == unit.functions@[j as int]@);
        functions.push(join_function(lcov, key, unit, &unit.functions[j], score));
        j += 1;
    }
    assert(functions@.map_values(|function: JoinedFunction| function@)
        == unit@.functions.map_values(
        |function: FunctionView| joined_function(lcov@, attribution@.key(), unit@, function),
    ));
    JoinedFile { file: unit.path.clone(), attribution, functions }
}

/// Joins measured functions with line coverage.
///
/// `score` is the arithmetic on a complexity and the fraction of lines that was
/// run. Which files are scored at all, and from which lines, is settled here.
pub fn join<F: Fn(u32, Fraction) -> Figures>(
    lcov: &LcovData,
    units: &Vec<SourceUnit>,
    score: &F,
) -> (out: JoinResult)
    requires
        scores_anything(*score),
    ensures
        files_view(out.files@) == joined_files(lcov@, units_view(units@)),
        all_scored_by(*score, out.files@),
{
    let ghost views = units_view(units@);
    let mut resolutions: Vec<Resolution> = Vec::new();
    let mut i: usize = 0;
    while i < units.len()
        invariant
            i <= units.len(),
            resolutions@.len() == i,
            forall|k: int|
                0 <= k < i ==> (#[trigger] resolutions@[k])@ == resolution_of(
                    lcov@,
                    units@[k].path@,
                ),
        decreases units.len() - i,
    {
        resolutions.push(lcov.resolve_path(&query_key(&units[i].path)));
        i += 1;
    }
    let mut files: Vec<JoinedFile> = Vec::new();
    let mut n: usize = 0;
    while n < units.len()
        invariant
            n <= units.len(),
            views == units_view(units@),
            scores_anything(*score),
            resolves(lcov@, units@, resolutions@),
            files@.len() == n,
            forall|k: int|
                0 <= k < n ==> (#[trigger] files@[k])@ == joined_file(lcov@, views, views[k]),
            all_scored_by(*score, files@),
        decreases units.len() - n,
    {
        let unit = &units[n];
        assert(views[n as int] == unit@);
        let attribution = attribute(lcov, units, &resolutions, n);
        files.push(join_unit(lcov, attribution, unit, score));
        n += 1;
    }
    assert(files_view(files@) == joined_files(lcov@, views));
    JoinResult { files }
}

/// Whether no path has two claims.
spec fn one_claim_each(claims: Seq<ClaimView>) -> bool {
    forall|i: int, j: int|
        0 <= i < j < claims.len() ==> (#[trigger] claims[i]).path != (#[trigger] claims[j]).path
}

/// What the claims on a record are: one for each path that matches it, telling
/// how it does.
proof fn lemma_claims(profile: Profile, units: Seq<UnitView>, key: Seq<char>)
    ensures
        one_claim_each(claims_on(profile, units, key)),
        forall|i: int|
            0 <= i < units.len() && resolution_of(profile, (#[trigger] units[i]).path).key()
                == Some(key) ==> claimed_by(claims_on(profile, units, key), units[i].path),
        forall|c: int|
            0 <= c < claims_on(profile, units, key).len() ==> {
                let claim = #[trigger] claims_on(profile, units, key)[c];
                &&& resolution_of(profile, claim.path).key() == Some(key)
                &&& claim.exact == resolution_of(profile, claim.path) is Exact
                &&& exists|i: int| 0 <= i < units.len() && (#[trigger] units[i]).path == claim.path
            },
    decreases units.len(),
{
    if units.len() > 0 {
        let rest = units.drop_last();
        let known = claims_on(profile, rest, key);
        let all = claims_on(profile, units, key);
        let last = units.last();
        lemma_claims(profile, rest, key);
        assert forall|i: int|
            0 <= i < units.len() && resolution_of(profile, (#[trigger] units[i]).path).key()
                == Some(key) implies claimed_by(all, units[i].path) by {
            if i < units.len() - 1 {
                assert(rest[i] == units[i]);
                let c = choose|c: int| 0 <= c < known.len() && (#[trigger] known[c]).path == units[i].path;
                assert(all[c] == known[c]);
            } else if claimed_by(known, last.path) {
                let c = choose|c: int| 0 <= c < known.len() && (#[trigger] known[c]).path == last.path;
                assert(all[c] == known[c]);
            } else {
                assert(all[known.len() as int].path == last.path);
            }
        }
        assert forall|c: int| 0 <= c < all.len() implies {
            let claim = #[trigger] all[c];
            &&& resolution_of(profile, claim.path).key() == Some(key)
            &&& claim.exact == resolution_of(profile, claim.path) is Exact
            &&& exists|i: int| 0 <= i < units.len() && (#[trigger] units[i]).path == claim.path
        } by {
            if c < known.len() {
                assert(known[c] == all[c]);
                let i = choose|i: int| 0 <= i < rest.len() && (#[trigger] rest[i]).path == known[c].path;
                assert(units[i].path == all[c].path);
            } else {
                assert(units[units.len() - 1].path == all[c].path);
            }
        }
        assert forall|i: int, j: int| 0 <= i < j < all.len() implies (#[trigger] all[i]).path != (
        #[trigger] all[j]).path by {
            assert(all[i] == known[i]);
            if j < known.len() {
                assert(all[j] == known[j]);
            }
        }
    }
}

/// The exact claims are claims, and no path has two of them.
proof fn lemma_exact_claims(claims: Seq<ClaimView>)
    requires
        one_claim_each(claims),
    ensures
        one_claim_each(exact_claims(claims)),
        forall|k: int|
            0 <= k < exact_claims(claims).len() ==> (#[trigger] exact_claims(claims)[k]).exact
                && exists|c: int|
                0 <= c < claims.len() && #[trigger] claims[c] == exact_claims(claims)[k],
    decreases claims.len(),
{
    reveal(Seq::filter);
    if claims.len() > 0 {
        let rest = claims.drop_last();
        let known = exact_claims(rest);
        let all = exact_claims(claims);
        assert forall|i: int, j: int| 0 <= i < j < rest.len() implies (#[trigger] rest[i]).path != (
        #[trigger] rest[j]).path by {
            assert(claims[i].path != claims[j].path);
        }
        lemma_exact_claims(rest);
        assert forall|k: int| 0 <= k < all.len() implies (#[trigger] all[k]).exact && exists|c: int|
            0 <= c < claims.len() && #[trigger] claims[c] == all[k] by {
            if k < known.len() {
                assert(all[k] == known[k]);
                let c = choose|c: int| 0 <= c < rest.len() && #[trigger] rest[c] == known[k];
                assert(claims[c] == all[k]);
            } else {
                assert(claims[claims.len() - 1] == all[k]);
            }
        }
        assert forall|i: int, j: int| 0 <= i < j < all.len() implies (#[trigger] all[i]).path != (
        #[trigger] all[j]).path by {
            assert(all[i] == known[i]);
            if j < known.len() {
                assert(all[j] == known[j]);
            } else {
                let c = choose|c: int| 0 <= c < rest.len() && #[trigger] rest[c] == known[i];
                assert(claims[c].path != claims[claims.len() - 1].path);
            }
        }
    }
}

/// No record is ever read for two different source paths.
pub proof fn law_one_record_scores_one_path(
    profile: Profile,
    units: Seq<UnitView>,
    i: int,
    j: int,
)
    requires
        0 <= i < units.len(),
        0 <= j < units.len(),
        attribution_of(profile, units, units[i].path).key() is Some,
        attribution_of(profile, units, units[i].path).key() == attribution_of(
            profile,
            units,
            units[j].path,
        ).key(),
    ensures
        units[i].path == units[j].path,
{
    let key = attribution_of(profile, units, units[i].path).key()->Some_0;
    let claims = claims_on(profile, units, key);
    lemma_claims(profile, units, key);
    assert(claimed_by(claims, units[i].path));
    assert(claimed_by(claims, units[j].path));
}

/// The only source path that is the record itself takes it, whoever else claims
/// it by a suffix.
pub proof fn law_the_only_exact_claimant_wins(
    profile: Profile,
    units: Seq<UnitView>,
    i: int,
    key: Seq<char>,
)
    requires
        0 <= i < units.len(),
        resolution_of(profile, units[i].path) == ResolutionView::Exact(key),
        forall|j: int|
            0 <= j < units.len() && resolution_of(profile, (#[trigger] units[j]).path)
                == ResolutionView::Exact(key) ==> units[j].path == units[i].path,
    ensures
        attribution_of(profile, units, units[i].path) == AttributionView::Resolved(
            ResolutionView::Exact(key),
        ),
        forall|j: int|
            0 <= j < units.len() && units[j].path != units[i].path && resolution_of(
                profile,
                (#[trigger] units[j]).path,
            ).key() == Some(key) ==> attribution_of(profile, units, units[j].path)
                == (AttributionView::Superseded { key, winner: units[i].path }),
{
    let path = units[i].path;
    let claims = claims_on(profile, units, key);
    let exact = exact_claims(claims);
    lemma_claims(profile, units, key);
    lemma_exact_claims(claims);
    assert(claimed_by(claims, path));
    let c = choose|c: int| 0 <= c < claims.len() && (#[trigger] claims[c]).path == path;
    claims.lemma_filter_contains(|claim: ClaimView| claim.exact, c);
    assert(exact.contains(claims[c]));
    assert forall|k: int| 0 <= k < exact.len() implies (#[trigger] exact[k]).path == path by {
        let d = choose|d: int| 0 <= d < claims.len() && #[trigger] claims[d] == exact[k];
        let n = choose|n: int| 0 <= n < units.len() && (#[trigger] units[n]).path == claims[d].path;
        assert(resolution_of(profile, units[n].path) == ResolutionView::Exact(key));
    }
    if exact.len() > 1 {
        assert(exact[0].path != exact[1].path);
    }
    assert(exact.len() == 1);
    assert forall|j: int|
        0 <= j < units.len() && units[j].path != path && resolution_of(
            profile,
            (#[trigger] units[j]).path,
        ).key() == Some(key) implies attribution_of(profile, units, units[j].path) == (
    AttributionView::Superseded { key, winner: path }) by {
        assert(claimed_by(claims, units[j].path));
        let d = choose|d: int| 0 <= d < claims.len() && (#[trigger] claims[d]).path == units[j].path;
        assert(d != c);
        assert(claims.len() > 1);
    }
    if claims.len() > 1 {
        assert(settled(key, claims, path, ResolutionView::Exact(key)) == AttributionView::Resolved(
            ResolutionView::Exact(key),
        ));
    }
}

/// A record that several source paths claim, none of which or several of which
/// are the record itself, is read for none of them.
pub proof fn law_equal_claims_are_not_decided(
    profile: Profile,
    units: Seq<UnitView>,
    i: int,
    key: Seq<char>,
)
    requires
        0 <= i < units.len(),
        resolution_of(profile, units[i].path).key() == Some(key),
        claims_on(profile, units, key).len() > 1,
        exact_claims(claims_on(profile, units, key)).len() != 1,
    ensures
        attribution_of(profile, units, units[i].path) == (AttributionView::Collision {
            key,
            sources: claim_paths(claims_on(profile, units, key)),
        }),
        attribution_of(profile, units, units[i].path).key() is None,
{
}

/// Only an exact match has nothing to say, and only an exact match and a suffix
/// match are scored.
pub proof fn law_caveats_tell_what_is_scored(attribution: AttributionView)
    ensures
        attribution.caveat() is None <==> attribution matches AttributionView::Resolved(
            ResolutionView::Exact(_),
        ),
        attribution.key() is Some <==> (attribution.caveat() is None
            || attribution.caveat()->Some_0 is Suffix),
{
}

/// A path that does not start with `../` is asked for by itself.
pub proof fn law_a_path_below_the_root_is_its_own_query(path: Seq<char>)
    requires
        !text::has_prefix(path, seq!['.', '.', '/']),
    ensures
        query(path) == path,
{
}

/// The functions of a file have counts exactly if the file has a record that
/// they may be read from.
pub proof fn law_counts_exist_exactly_with_a_record(
    profile: Profile,
    units: Seq<UnitView>,
    i: int,
    j: int,
)
    requires
        0 <= i < units.len(),
        0 <= j < units[i].functions.len(),
    ensures
        joined_files(profile, units)[i].functions[j].lines is Some <==> attribution_of(
            profile,
            units,
            units[i].path,
        ).key() is Some,
{
}

/// The fraction of the lines that was run is that of the counts: it is to one as
/// the lines that were run are to all of them. Of no lines all were.
pub proof fn law_the_fraction_is_that_of_the_counts(counts: LineCounts)
    ensures
        counts.ratio().denominator > 0,
        counts.total > 0 ==> counts.ratio().numerator * counts.total == counts.covered
            * counts.ratio().denominator,
        counts.total == 0 ==> counts.ratio().numerator == counts.ratio().denominator,
{
}

/// Of equally many lines, more that were run make a larger fraction.
pub proof fn law_more_lines_run_make_a_larger_fraction(fewer: LineCounts, more: LineCounts)
    requires
        fewer.total == more.total,
        fewer.total > 0,
        fewer.covered < more.covered,
    ensures
        fewer.ratio().numerator * more.ratio().denominator < more.ratio().numerator
            * fewer.ratio().denominator,
{
    let (a, b, t) = (fewer.covered as int, more.covered as int, fewer.total as int);
    assert(a * t < b * t) by (nonlinear_arith)
        requires
            a < b,
            t > 0,
    ;
}

/// Steps up in front of a path make no difference to what it is asked for by, and
/// nothing else is left out.
pub proof fn law_steps_up_are_not_asked_for(path: Seq<char>)
    ensures
        query(seq!['.', '.', '/'] + path) == query(path),
        path.len() < 3 || path[0] != '.' || path[1] != '.' || path[2] != '/' ==> query(path)
            == path,
{
    let up = seq!['.', '.', '/'];
    assert((up + path).take(3) == up);
    assert((up + path).skip(3) == path);
    if text::has_prefix(path, up) {
        assert(path.take(3)[0] == up[0] && path.take(3)[1] == up[1] && path.take(3)[2] == up[2]);
    }
}

/// The module of a function is that of its file, and each inline module around it
/// adds its name behind `::`.
pub proof fn law_inline_modules_add_their_names(
    unit: UnitView,
    function: FunctionView,
    name: Seq<char>,
)
    ensures
        function.modules.len() == 0 ==> module_name(unit, function) == unit.module,
        module_name(
            unit,
            FunctionView { modules: function.modules.push(name), ..function },
        ) == module_name(unit, function) + seq![':', ':'] + name,
{
    reveal_strlit("::");
    assert("::"@ == seq![':', ':']);
    let longer = function.modules.push(name);
    assert(longer.drop_last() == function.modules);
    if function.modules.len() > 0 {
        let all = text::joined(function.modules, "::"@);
        assert(unit.module + "::"@ + (all + "::"@ + name) == unit.module + "::"@ + all + seq![
            ':',
            ':',
        ] + name);
    }
}

/// A line that profiles can count is counted as it is, and any other as the last.
pub proof fn law_lines_are_counted_as_they_are(line: usize)
    ensures
        line <= 4_294_967_295 ==> profile_line(line) == line,
        line > 4_294_967_295 ==> profile_line(line) == 4_294_967_295,
{
}

/// The lines of a function are those of the record of its file from the line on
/// which it starts to the line on which it ends: the counts of two functions that
/// share out the lines of a third are together the counts of that one.
pub proof fn law_a_function_has_the_lines_between_its_ends(
    profile: Profile,
    key: Seq<char>,
    function: FunctionView,
    middle: usize,
)
    requires
        function.start_line <= middle,
        middle < function.end_line,
        function.end_line <= 4_294_967_295,
    ensures
        counts_of(profile, None, function) is None,
        ({
            let whole = counts_of(profile, Some(key), function)->Some_0;
            let low = counts_of(
                profile,
                Some(key),
                FunctionView { end_line: middle, ..function },
            )->Some_0;
            let high = counts_of(
                profile,
                Some(key),
                FunctionView { start_line: (middle + 1) as usize, ..function },
            )->Some_0;
            &&& whole.covered == low.covered + high.covered
            &&& whole.total == low.total + high.total
        }),
        ({
            let one = counts_of(
                profile,
                Some(key),
                FunctionView { start_line: middle, end_line: middle, ..function },
            )->Some_0;
            let told = profile.dom().contains(key) && profile[key].dom().contains(middle as u32);
            &&& one.total == (if told {
                1int
            } else {
                0int
            })
            &&& one.covered == (if told && profile[key][middle as u32] > 0 {
                1int
            } else {
                0int
            })
        }),
{
    let (first, last) = (function.start_line as u32, function.end_line as u32);
    crate::coverage::law_ranges_add_up(profile, key, first, middle as u32, last);
    lemma_counts_fit(profile, key, first, last);
    lemma_counts_fit(profile, key, first, middle as u32);
    lemma_counts_fit(profile, key, (middle + 1) as u32, last);
}

proof fn lemma_counts_fit(profile: Profile, key: Seq<char>, first: u32, last: u32)
    ensures
        crate::coverage::range_counts(profile, key, first, last).0 <= u64::MAX,
        crate::coverage::range_counts(profile, key, first, last).1 <= u64::MAX,
{
    if first <= last {
        lemma_counts_are_few(profile, key, first, last);
    } else {
        crate::coverage::law_ranges_add_up(profile, key, first, first, last);
    }
}

proof fn lemma_counts_are_few(profile: Profile, key: Seq<char>, first: u32, last: u32)
    requires
        first <= last,
    ensures
        crate::coverage::range_counts(profile, key, first, last).0 <= last - first + 1,
        crate::coverage::range_counts(profile, key, first, last).1 <= last - first + 1,
    decreases last,
{
    if first < last {
        let middle = (last - 1) as u32;
        lemma_counts_are_few(profile, key, first, middle);
        crate::coverage::law_ranges_add_up(profile, key, first, middle, last);
        crate::coverage::law_ranges_add_up(profile, key, last, last, last);
    } else {
        crate::coverage::law_ranges_add_up(profile, key, first, first, last);
    }
}

/// A record that only one source path claims is that path's, by whatever match.
pub proof fn law_a_sole_claimant_keeps_its_match(profile: Profile, units: Seq<UnitView>, i: int)
    requires
        0 <= i < units.len(),
        forall|j: int|
            0 <= j < units.len() && resolution_of(profile, (#[trigger] units[j]).path).key()
                == resolution_of(profile, units[i].path).key() ==> units[j].path == units[i].path,
    ensures
        attribution_of(profile, units, units[i].path) == AttributionView::Resolved(
            resolution_of(profile, units[i].path),
        ),
{
    let resolution = resolution_of(profile, units[i].path);
    if resolution.key() is Some {
        let key = resolution.key()->Some_0;
        let claims = claims_on(profile, units, key);
        lemma_claims(profile, units, key);
        if claims.len() > 1 {
            assert(claims[0].path != claims[1].path);
            let a = choose|a: int|
                0 <= a < units.len() && (#[trigger] units[a]).path == claims[0].path;
            let b = choose|b: int|
                0 <= b < units.len() && (#[trigger] units[b]).path == claims[1].path;
            assert(units[a].path == units[i].path && units[b].path == units[i].path);
        }
    }
}

/// A path without a match has no record, whatever other files claim.
pub proof fn law_no_match_is_no_record(profile: Profile, units: Seq<UnitView>, path: Seq<char>)
    requires
        resolution_of(profile, path) is Ambiguous || resolution_of(profile, path) is Unresolved,
    ensures
        attribution_of(profile, units, path) == AttributionView::Resolved(
            resolution_of(profile, path),
        ),
        attribution_of(profile, units, path).key() is None,
{
}

/// A match by one record is scored from that record.
pub proof fn law_a_match_is_scored_from_its_record(key: Seq<char>)
    ensures
        AttributionView::Resolved(ResolutionView::Exact(key)).key() == Some(key),
        AttributionView::Resolved(ResolutionView::Suffix(key)).key() == Some(key),
        AttributionView::Resolved(ResolutionView::Suffix(key)).caveat() == Some(
            CaveatView::Suffix { key },
        ),
        AttributionView::Resolved(ResolutionView::Unresolved).caveat() == Some(CaveatView::Absent),
{
}

/// Where different source paths claim a record and not exactly one of them is the
/// record itself, it is nobody's: all who claim it are named, each once, in the
/// order of the files, and no one else is.
pub proof fn law_a_contested_record_names_its_claimants(
    profile: Profile,
    units: Seq<UnitView>,
    i: int,
    j: int,
    key: Seq<char>,
)
    requires
        0 <= i < units.len(),
        0 <= j < units.len(),
        units[i].path != units[j].path,
        resolution_of(profile, units[i].path).key() == Some(key),
        resolution_of(profile, units[j].path).key() == Some(key),
        (resolution_of(profile, units[i].path) is Exact && resolution_of(
            profile,
            units[j].path,
        ) is Exact) || (forall|k: int|
            0 <= k < units.len() && resolution_of(profile, (#[trigger] units[k]).path).key()
                == Some(key) ==> !(resolution_of(profile, units[k].path) is Exact)),
    ensures
        attribution_of(profile, units, units[i].path) is Collision,
        attribution_of(profile, units, units[i].path).key() is None,
        attribution_of(profile, units, units[i].path)->Collision_key == key,
        ({
            let named = attribution_of(profile, units, units[i].path)->Collision_sources;
            &&& named.no_duplicates()
            &&& forall|path: Seq<char>| #[trigger]
                named.contains(path) <==> exists|k: int|
                    0 <= k < units.len() && (#[trigger] units[k]).path == path && resolution_of(
                        profile,
                        path,
                    ).key() == Some(key)
            &&& forall|a: int, b: int|
                0 <= a < b < named.len() ==> first_of(units, #[trigger] named[a]) < first_of(
                    units,
                    #[trigger] named[b],
                )
        }),
{
    let claims = claims_on(profile, units, key);
    let exact = exact_claims(claims);
    let named = claim_paths(claims);
    lemma_claims(profile, units, key);
    lemma_claims_in_order(profile, units, key);
    assert(claimed_by(claims, units[i].path) && claimed_by(claims, units[j].path));
    let x = choose|x: int| 0 <= x < claims.len() && (#[trigger] claims[x]).path == units[i].path;
    let y = choose|y: int| 0 <= y < claims.len() && (#[trigger] claims[y]).path == units[j].path;
    assert(x != y);
    assert(exact.len() != 1) by {
        let is_exact = |claim: ClaimView| claim.exact;
        assert(exact == claims.filter(is_exact));
        if exact.len() == 1 {
            if claims[x].exact && claims[y].exact {
                claims.lemma_filter_contains(is_exact, x);
                claims.lemma_filter_contains(is_exact, y);
                assert(claims[x] == exact[0] && claims[y] == exact[0]);
            } else {
                assert(exact.contains(exact[0]));
                claims.lemma_filter_contains_rev(is_exact, exact[0]);
                claims.lemma_filter_pred(is_exact, 0);
                let c = choose|c: int| 0 <= c < claims.len() && claims[c] == exact[0];
                assert(resolution_of(profile, claims[c].path).key() == Some(key));
                let k = choose|k: int|
                    0 <= k < units.len() && (#[trigger] units[k]).path == claims[c].path;
                assert(resolution_of(profile, units[k].path) is Exact);
            }
        }
    }
    assert(attribution_of(profile, units, units[i].path) == (AttributionView::Collision {
        key,
        sources: named,
    }));
    assert forall|path: Seq<char>| #[trigger] named.contains(path) <==> exists|k: int|
        0 <= k < units.len() && (#[trigger] units[k]).path == path && resolution_of(
            profile,
            path,
        ).key() == Some(key) by {
        if named.contains(path) {
            let c = choose|c: int| 0 <= c < named.len() && named[c] == path;
            assert(claims[c].path == path);
        }
        if exists|k: int|
            0 <= k < units.len() && (#[trigger] units[k]).path == path && resolution_of(
                profile,
                path,
            ).key() == Some(key) {
            assert(claimed_by(claims, path));
            let c = choose|c: int| 0 <= c < claims.len() && (#[trigger] claims[c]).path == path;
            assert(named[c] == path);
        }
    }
    assert forall|a: int, b: int| 0 <= a < named.len() && 0 <= b < named.len() && a != b implies
        named[a] != named[b] by {
        if a < b {
            assert(claims[a].path != claims[b].path);
        } else {
            assert(claims[b].path != claims[a].path);
        }
    }
    assert forall|a: int, b: int| 0 <= a < b < named.len() implies first_of(
        units,
        #[trigger] named[a],
    ) < first_of(units, #[trigger] named[b]) by {
        assert(first_of(units, claims[a].path) < first_of(units, claims[b].path));
    }
}

/// The position of the first file with a path; that behind the last one if there is
/// none.
pub open spec fn first_of(units: Seq<UnitView>, path: Seq<char>) -> nat
    decreases units.len(),
{
    if units.len() == 0 {
        0
    } else {
        let rest = first_of(units.drop_last(), path);
        if rest < units.len() - 1 || units.last().path == path {
            rest
        } else {
            units.len()
        }
    }
}

proof fn lemma_first_of(units: Seq<UnitView>, path: Seq<char>)
    ensures
        first_of(units, path) <= units.len(),
        first_of(units, path) < units.len() <==> exists|k: int|
            0 <= k < units.len() && (#[trigger] units[k]).path == path,
    decreases units.len(),
{
    if units.len() > 0 {
        let rest = units.drop_last();
        lemma_first_of(rest, path);
        if first_of(units, path) < units.len() {
            if first_of(rest, path) < rest.len() {
                let k = choose|k: int| 0 <= k < rest.len() && (#[trigger] rest[k]).path == path;
                assert(units[k].path == path);
            } else {
                assert(units[units.len() - 1].path == path);
            }
        }
        if exists|k: int| 0 <= k < units.len() && (#[trigger] units[k]).path == path {
            let k = choose|k: int| 0 <= k < units.len() && (#[trigger] units[k]).path == path;
            if k < units.len() - 1 {
                assert(rest[k].path == path);
            }
        }
    }
}

proof fn lemma_claims_in_order(profile: Profile, units: Seq<UnitView>, key: Seq<char>)
    ensures
        forall|a: int, b: int|
            0 <= a < b < claims_on(profile, units, key).len() ==> first_of(
                units,
                (#[trigger] claims_on(profile, units, key)[a]).path,
            ) < first_of(units, (#[trigger] claims_on(profile, units, key)[b]).path),
    decreases units.len(),
{
    if units.len() > 0 {
        let rest = units.drop_last();
        let known = claims_on(profile, rest, key);
        let all = claims_on(profile, units, key);
        lemma_claims_in_order(profile, rest, key);
        lemma_claims(profile, rest, key);
        assert forall|a: int, b: int| 0 <= a < b < all.len() implies first_of(
            units,
            (#[trigger] all[a]).path,
        ) < first_of(units, (#[trigger] all[b]).path) by {
            assert(all[a] == known[a]);
            lemma_first_of(rest, known[a].path);
            assert(first_of(units, known[a].path) == first_of(rest, known[a].path));
            if b < known.len() {
                assert(all[b] == known[b]);
                lemma_first_of(rest, known[b].path);
                assert(first_of(units, known[b].path) == first_of(rest, known[b].path));
            } else {
                let path = units.last().path;
                lemma_first_of(rest, path);
                if first_of(rest, path) < rest.len() {
                    let k = choose|k: int| 0 <= k < rest.len() && (#[trigger] rest[k]).path == path;
                    assert(resolution_of(profile, rest[k].path).key() == Some(key));
                    assert(claimed_by(known, rest[k].path));
                }
            }
        }
    }
}

/// The join gives every file and every function, each in its place and with what
/// was measured of it, read from the one record that its file may be read from.
pub proof fn law_every_function_is_joined(profile: Profile, units: Seq<UnitView>, i: int, j: int)
    requires
        0 <= i < units.len(),
        0 <= j < units[i].functions.len(),
    ensures
        ({
            let files = joined_files(profile, units);
            let function = units[i].functions[j];
            let found = files[i].functions[j];
            &&& files.len() == units.len()
            &&& files[i].file == units[i].path
            &&& files[i].attribution == attribution_of(profile, units, units[i].path)
            &&& files[i].functions.len() == units[i].functions.len()
            &&& found.name == function.name
            &&& found.file == units[i].path
            &&& found.start_line == function.start_line
            &&& found.complexity == function.complexity
            &&& found.module == module_name(units[i], function)
            &&& found.lines == counts_of(profile, files[i].attribution.key(), function)
        }),
{
}

/// The figures of a function are what the arithmetic makes of its complexity and of
/// the lines that were run of its lines; a function without counts has none.
pub proof fn law_figures_come_from_the_counts<F: Fn(u32, Fraction) -> Figures>(
    score: F,
    function: JoinedFunction,
)
    requires
        scored_by(score, function),
    ensures
        function.lines is None ==> function.coverage is None && function.crap is None,
        function.lines matches Some(counts) ==> {
            &&& function.coverage is Some && function.crap is Some
            &&& counts.total > 0 ==> exists|figures: Figures|
                figures.coverage == function.coverage->Some_0 && figures.crap
                    == function.crap->Some_0 && #[trigger] call_ensures(
                    score,
                    (
                        function.complexity,
                        Fraction { numerator: counts.covered, denominator: counts.total },
                    ),
                    figures,
                )
        },
{
    if function.lines is Some {
        let counts = function.lines->Some_0;
        let figures = Figures {
            coverage: function.coverage->Some_0,
            crap: function.crap->Some_0,
        };
        assert(call_ensures(score, (function.complexity, counts.ratio()), figures));
    }
}

/// The counts of a function are those of the lines from its first to its last, in the
/// record that it is read from.
pub proof fn law_the_counts_are_of_the_lines_of_a_function(
    profile: Profile,
    key: Seq<char>,
    function: FunctionView,
)
    ensures
        ({
            let counts = counts_of(profile, Some(key), function);
            let told = crate::coverage::range_counts(
                profile,
                key,
                profile_line(function.start_line),
                profile_line(function.end_line),
            );
            &&& counts is Some
            &&& counts->Some_0.covered == told.0
            &&& counts->Some_0.total == told.1
        }),
{
    lemma_counts_fit(
        profile,
        key,
        profile_line(function.start_line),
        profile_line(function.end_line),
    );
}

} // verus!
