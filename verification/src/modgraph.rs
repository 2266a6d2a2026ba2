//! Which files a crate is made of, by the rules of the compiler.
//!
//! A walk starts at the root of a crate and follows the modules that each file
//! declares. What a file is called comes from these declarations, never from
//! where it lies. Nothing is read here: the walk says which file comes next and
//! which paths it wants to know of, and is told what is there.
//!
//! A `cfg` is not evaluated. One that decides whether a module is compiled is
//! passed over, so the module is followed. One that decides which file a module
//! is compiled from makes the module declined: a guess could measure a file that
//! was never compiled.
//!
//! What is compiled for tests only is followed too, and marked as such: nothing
//! is said about its declarations, because a test file that is missing is no part
//! of the product that is missing.

use vstd::prelude::*;

use crate::diagnostic::{Diagnostic, DiagnosticView, Kind, KindView, Site, SiteView};
use crate::path::{self, Style};
use crate::product::{self, is_named, name_of};
use crate::syntax::{
    Clause, ClauseView, Definition, DefinitionView, File, FileView, Head, HeadView, Node, NodeView,
};
use crate::text;

verus! {

/// Where the declarations of a file resolve, and what the file is called.
#[derive(Debug, PartialEq, Eq)]
pub struct Scope {
    /// The module path, from the crate on.
    pub segments: Vec<String>,
    /// The directory that declarations resolve in.
    pub dir: String,
    /// The further directory that a file which is not `mod.rs` adds to it for
    /// its own declarations.
    pub relative: Option<String>,
    /// Whether the file and all that it declares is compiled for tests only.
    pub test_only: bool,
    /// How paths are written.
    pub style: Style,
}

/// What a `Scope` holds.
#[verifier::ext_equal]
pub struct ScopeView {
    /// See `Scope::segments`.
    pub segments: Seq<Seq<char>>,
    /// See `Scope::dir`.
    pub dir: Seq<char>,
    /// See `Scope::relative`.
    pub relative: Option<Seq<char>>,
    /// See `Scope::test_only`.
    pub test_only: bool,
    /// See `Scope::style`.
    pub style: Style,
}

impl View for Scope {
    type V = ScopeView;

    open spec fn view(&self) -> ScopeView {
        ScopeView {
            segments: text::views(self.segments@),
            dir: self.dir@,
            relative: crate::syntax::optional(self.relative),
            test_only: self.test_only,
            style: self.style,
        }
    }
}

impl ScopeView {
    /// The scope inside something that is compiled for tests only, or not.
    pub open spec fn within(self, test_only: bool) -> ScopeView {
        ScopeView { test_only: self.test_only || test_only, ..self }
    }

    /// The directory that a module declared here is looked for in.
    pub open spec fn module_dir(self) -> Seq<char> {
        match self.relative {
            Some(segment) => path::joined_in(self.style, self.dir, segment),
            None => self.dir,
        }
    }
}

impl Scope {
    /// The scope inside something that is compiled for tests only, or not.
    fn within(&self, test_only: bool) -> (out: Scope)
        ensures
            out@ == self@.within(test_only),
    {
        Scope {
            segments: text::copies(&self.segments),
            dir: self.dir.clone(),
            relative: match &self.relative {
                Some(segment) => Some(segment.clone()),
                None => None,
            },
            test_only: self.test_only || test_only,
            style: self.style,
        }
    }

    /// The directory that a module declared here is looked for in.
    fn module_dir(&self) -> (out: String)
        ensures
            out@ == self@.module_dir(),
    {
        match &self.relative {
            Some(segment) => path::join_in(self.style, &self.dir, segment),
            None => self.dir.clone(),
        }
    }
}

/// Whether an attribute that applies others under a condition may apply a
/// `path`: one of those after the condition is a `path`, or is such an attribute
/// itself that may apply one. Arguments that cannot be read may.
pub open spec fn may_supply_path(clause: ClauseView) -> bool
    decreases clause,
{
    match clause {
        ClauseView::List { terms: Some(terms), .. } => exists|i: int|
            1 <= i < terms.len() && (name_of(#[trigger] terms[i]) == Some("path"@) || (name_of(
                terms[i],
            ) == Some("cfg_attr"@) && may_supply_path(terms[i]))),
        ClauseView::List { terms: None, .. } => true,
        _ => false,
    }
}

/// Whether an attribute that applies others under a condition may apply a
/// `path`.
fn supplies_path(clause: &Clause) -> (r: bool)
    ensures
        r == may_supply_path(clause@),
    decreases clause,
{
    match clause {
        Clause::List { terms: Some(terms), .. } => {
            let ghost views = Seq::new(terms@.len(), |i: int| terms@[i]@);
            assert(clause@ matches ClauseView::List { terms: Some(seen), .. } && seen == views);
            let mut i: usize = 1;
            while i < terms.len()
                invariant
                    1 <= i,
                    views == Seq::new(terms@.len(), |i: int| terms@[i]@),
                    clause@ matches ClauseView::List { terms: Some(seen), .. } && seen == views,
                    forall|k: int|
                        1 <= k < i && k < terms@.len() ==> !(name_of(#[trigger] views[k]) == Some(
                            "path"@,
                        ) || (name_of(views[k]) == Some("cfg_attr"@) && may_supply_path(views[k]))),
                    decreases_to!(clause => terms),
                decreases terms.len() - i,
            {
                let term = &terms[i];
                assert(views[i as int] == term@);
                if is_named(term, "path") {
                    return true;
                }
                if is_named(term, "cfg_attr") {
                    if supplies_path(term) {
                        assert(name_of(views[i as int]) == Some("cfg_attr"@) && may_supply_path(
                            views[i as int],
                        ));
                        return true;
                    }
                }
                i += 1;
            }
            false
        },
        Clause::List { terms: None, .. } => true,
        _ => false,
    }
}

/// The attribute as its tokens read, if it may apply a `path` under a
/// condition.
pub open spec fn conditional_text(clause: ClauseView) -> Option<Seq<char>> {
    match clause {
        ClauseView::List { name, tokens, .. } => if name == Some("cfg_attr"@) && may_supply_path(
            clause,
        ) {
            Some("#[cfg_attr("@ + tokens + ")]"@)
        } else {
            None
        },
        _ => None,
    }
}

/// The attribute as its tokens read, if it may apply a `path` under a
/// condition.
fn conditional_path_attribute(clause: &Clause) -> (out: Option<String>)
    ensures
        crate::syntax::optional(out) == conditional_text(clause@),
{
    match clause {
        Clause::List { tokens, .. } => {
            if is_named(clause, "cfg_attr") && supplies_path(clause) {
                let mut out = "#[cfg_attr(".to_owned();
                out.append(tokens);
                out.append(")]");
                Some(out)
            } else {
                None
            }
        },
        _ => None,
    }
}

/// The attributes that may apply a `path` under a condition, as their tokens
/// read.
pub open spec fn conditionals(attrs: Seq<ClauseView>) -> Seq<Seq<char>>
    decreases attrs.len(),
{
    if attrs.len() == 0 {
        Seq::empty()
    } else {
        match conditional_text(attrs.last()) {
            Some(text) => conditionals(attrs.drop_last()).push(text),
            None => conditionals(attrs.drop_last()),
        }
    }
}

/// The text of a `path` attribute, if the attribute is one with a string.
pub open spec fn path_text(clause: ClauseView) -> Option<Seq<char>> {
    match clause {
        ClauseView::Value { name, text } => if name == Some("path"@) {
            text
        } else {
            None
        },
        _ => None,
    }
}

/// The first text that a `path` attribute gives.
pub open spec fn first_path(attrs: Seq<ClauseView>) -> Option<Seq<char>>
    decreases attrs.len(),
{
    if attrs.len() == 0 {
        None
    } else {
        match first_path(attrs.drop_last()) {
            Some(text) => Some(text),
            None => path_text(attrs.last()),
        }
    }
}

/// Where the file of a module comes from.
#[derive(Debug, PartialEq, Eq)]
pub enum ModuleSource {
    /// From its name.
    Default,
    /// From a `path` attribute.
    Fixed(String),
    /// From a condition that is not evaluated; the attributes as their tokens
    /// read.
    Conditional(String),
}

/// What a `ModuleSource` says.
#[verifier::ext_equal]
pub enum ModuleSourceView {
    /// See `ModuleSource::Default`.
    Default,
    /// See `ModuleSource::Fixed`.
    Fixed(Seq<char>),
    /// See `ModuleSource::Conditional`.
    Conditional(Seq<char>),
}

impl View for ModuleSource {
    type V = ModuleSourceView;

    open spec fn view(&self) -> ModuleSourceView {
        match self {
            ModuleSource::Default => ModuleSourceView::Default,
            ModuleSource::Fixed(text) => ModuleSourceView::Fixed(text@),
            ModuleSource::Conditional(text) => ModuleSourceView::Conditional(text@),
        }
    }
}

/// Where the file of a module with these attributes comes from. A condition
/// outranks a plain `path`: which of them applies is not known.
pub open spec fn source_named_by(attrs: Seq<ClauseView>) -> ModuleSourceView {
    if conditionals(attrs).len() > 0 {
        ModuleSourceView::Conditional(text::joined(conditionals(attrs), " "@))
    } else {
        match first_path(attrs) {
            Some(text) => ModuleSourceView::Fixed(text),
            None => ModuleSourceView::Default,
        }
    }
}

/// The first text that a `path` attribute gives.
fn path_attribute(attrs: &Vec<Clause>) -> (out: Option<String>)
    ensures
        crate::syntax::optional(out) == first_path(crate::syntax::clauses_view(attrs@)),
{
    let ghost views = crate::syntax::clauses_view(attrs@);
    let mut i: usize = 0;
    assert(views.take(0) == Seq::<ClauseView>::empty());
    while i < attrs.len()
        invariant
            i <= attrs.len(),
            views == crate::syntax::clauses_view(attrs@),
            first_path(views.take(i as int)) is None,
        decreases attrs.len() - i,
    {
        let attr = &attrs[i];
        assert(views.take(i + 1).drop_last() == views.take(i as int));
        assert(views.take(i + 1).last() == attr@);
        match attr {
            Clause::Value { text: Some(text), .. } => {
                if is_named(attr, "path") {
                    proof {
                        lemma_first_path_stays(views, i + 1);
                    }
                    return Some(text.clone());
                }
            },
            _ => {},
        }
        i += 1;
    }
    assert(views.take(i as int) == views);
    None
}

proof fn lemma_first_path_stays(attrs: Seq<ClauseView>, n: int)
    requires
        0 <= n <= attrs.len(),
        first_path(attrs.take(n)) is Some,
    ensures
        first_path(attrs) == first_path(attrs.take(n)),
    decreases attrs.len(),
{
    if n < attrs.len() {
        assert(attrs.drop_last().take(n) == attrs.take(n));
        lemma_first_path_stays(attrs.drop_last(), n);
    } else {
        assert(attrs.take(n) == attrs);
    }
}

/// Tells where the file of a module with these attributes comes from.
pub fn module_source(attrs: &Vec<Clause>) -> (out: ModuleSource)
    ensures
        out@ == source_named_by(crate::syntax::clauses_view(attrs@)),
{
    let ghost views = crate::syntax::clauses_view(attrs@);
    let mut found: Vec<String> = Vec::new();
    let mut i: usize = 0;
    assert(views.take(0) == Seq::<ClauseView>::empty());
    while i < attrs.len()
        invariant
            i <= attrs.len(),
            views == crate::syntax::clauses_view(attrs@),
            text::views(found@) == conditionals(views.take(i as int)),
        decreases attrs.len() - i,
    {
        assert(views.take(i + 1).drop_last() == views.take(i as int));
        assert(views.take(i + 1).last() == attrs@[i as int]@);
        let ghost before = found@;
        match conditional_path_attribute(&attrs[i]) {
            Some(text) => {
                found.push(text);
                assert(text::views(found@) == text::views(before).push(text@));
            },
            None => {},
        }
        i += 1;
    }
    assert(views.take(i as int) == views);
    if found.len() > 0 {
        return ModuleSource::Conditional(text::join(&found, " "));
    }
    assert(text::views(found@).len() == 0);
    match path_attribute(attrs) {
        Some(text) => ModuleSource::Fixed(text),
        None => ModuleSource::Default,
    }
}

/// A file that a declaration leads to, with the scope of its own declarations.
#[verifier::ext_equal]
pub struct PendingView {
    /// The file.
    pub file: Seq<char>,
    /// Its scope.
    pub scope: ScopeView,
}

/// A file that waits to be walked.
#[derive(Debug, PartialEq, Eq)]
pub struct Pending {
    /// The file.
    pub file: String,
    /// Its scope.
    pub scope: Scope,
}

impl View for Pending {
    type V = PendingView;

    open spec fn view(&self) -> PendingView {
        PendingView { file: self.file@, scope: self.scope@ }
    }
}

/// What several `Pending`s hold.
pub open spec fn pendings_view(pendings: Seq<Pending>) -> Seq<PendingView> {
    pendings.map_values(|pending: Pending| pending@)
}

/// What declarations come to: what there is to say about them, and the files
/// that they lead to.
#[verifier::ext_equal]
pub struct Declared {
    /// What there is to say.
    pub said: Seq<DiagnosticView>,
    /// The files.
    pub files: Seq<PendingView>,
}

impl Declared {
    /// What nothing comes to.
    pub open spec fn nothing() -> Declared {
        Declared { said: Seq::empty(), files: Seq::empty() }
    }

    /// What is left to say, which is nothing where it would be about tests.
    pub open spec fn unless_said_of_tests(self, test_only: bool) -> Declared {
        Declared {
            said: if test_only {
                Seq::empty()
            } else {
                self.said
            },
            files: self.files,
        }
    }

    /// What one thing and then another come to.
    pub open spec fn and(self, other: Declared) -> Declared {
        Declared { said: self.said + other.said, files: self.files + other.files }
    }
}

/// What the walk knows when it looks at declarations: the root of the
/// workspace, the file that they stand in, and the paths at which there is a
/// file.
#[verifier::ext_equal]
pub struct PlaceView {
    /// The root of the workspace.
    pub workspace_root: Seq<char>,
    /// The file that the declarations stand in.
    pub file: Seq<char>,
    /// The paths at which there is a file.
    pub present: Seq<Seq<char>>,
}

/// The paths at which a module may have its file: the one that its `path`
/// attribute gives, or `name.rs` and `name/mod.rs`.
pub open spec fn candidates(
    name: Seq<char>,
    given: Option<Seq<char>>,
    scope: ScopeView,
) -> Seq<Seq<char>> {
    match given {
        Some(text) => seq![path::joined_in(scope.style, scope.dir, text)],
        None => seq![
            path::joined_in(scope.style, scope.module_dir(), name + ".rs"@),
            path::joined_in(
                scope.style,
                path::joined_in(scope.style, scope.module_dir(), name),
                "mod.rs"@,
            ),
        ],
    }
}

/// The candidates at which there is a file, in order.
pub open spec fn existing(candidates: Seq<Seq<char>>, present: Seq<Seq<char>>) -> Seq<Seq<char>> {
    candidates.filter(|candidate: Seq<char>| present.contains(candidate))
}

/// Paths as they are known in the workspace.
pub open spec fn known_as(
    style: Style,
    root: Seq<char>,
    paths: Seq<Seq<char>>,
) -> Seq<Seq<char>> {
    paths.map_values(|p: Seq<char>| path::relative_in(style, root, p))
}

/// The scope of the file of a module: one that a `path` attribute gives owns its
/// directory, `mod.rs` owns the directory named after the module, and any other
/// file owns that directory for its own declarations only.
pub open spec fn scope_of(
    name: Seq<char>,
    given: Option<Seq<char>>,
    scope: ScopeView,
    segments: Seq<Seq<char>>,
    file: Seq<char>,
) -> ScopeView {
    let test_only = scope.test_only;
    let style = scope.style;
    match given {
        Some(_) => ScopeView {
            segments,
            dir: path::directory_in(style, file),
            relative: None,
            test_only,
            style,
        },
        None => if path::file_name_in(style, file) == Some("mod.rs"@) {
            ScopeView {
                segments,
                dir: path::joined_in(style, scope.module_dir(), name),
                relative: None,
                test_only,
                style,
            }
        } else {
            ScopeView { segments, dir: scope.module_dir(), relative: Some(name), test_only, style }
        },
    }
}

/// What the declaration of a module without a body comes to: its file, the first
/// of the candidates that are there; and a word where there is none, or more
/// than one.
pub open spec fn resolved(
    name: Seq<char>,
    given: Option<Seq<char>>,
    scope: ScopeView,
    segments: Seq<Seq<char>>,
    site: SiteView,
    place: PlaceView,
) -> Declared {
    let looked = candidates(name, given, scope);
    let found = existing(looked, place.present);
    let module = text::joined(segments, "::"@);
    let root = place.workspace_root;
    if found.len() == 0 {
        Declared {
            said: seq![
                DiagnosticView::run(
                    site,
                    KindView::ModuleFileMissing { module, candidates: known_as(scope.style, root, looked) },
                ),
            ],
            files: Seq::empty(),
        }
    } else {
        Declared {
            said: if found.len() > 1 {
                seq![
                    DiagnosticView::run(
                        site,
                        KindView::ModuleFileAmbiguous {
                            module,
                            candidates: known_as(scope.style, root, found),
                            analysed: path::relative_in(scope.style, root, found[0]),
                        },
                    ),
                ]
            } else {
                Seq::empty()
            },
            files: seq![
                PendingView {
                    file: found[0],
                    scope: scope_of(name, given, scope, segments, found[0]),
                },
            ],
        }
    }
}

/// A column counted from one, as far as the type reaches.
pub open spec fn column_from_one(column: usize) -> usize {
    if column < usize::MAX {
        (column + 1) as usize
    } else {
        column
    }
}

/// The directory that the declarations inside an inline module resolve in.
pub open spec fn inline_dir(
    name: Seq<char>,
    given: Option<Seq<char>>,
    scope: ScopeView,
) -> Seq<char> {
    match given {
        Some(text) => path::joined_in(scope.style, scope.dir, text),
        None => path::joined_in(scope.style, scope.module_dir(), name),
    }
}

/// The scope of the declarations inside an inline module.
pub open spec fn inline_scope(
    name: Seq<char>,
    given: Option<Seq<char>>,
    scope: ScopeView,
) -> ScopeView {
    ScopeView {
        segments: scope.segments.push(name),
        dir: inline_dir(name, given, scope),
        relative: None,
        test_only: scope.test_only,
        style: scope.style,
    }
}

/// The text of a `path` attribute that holds under every condition.
pub open spec fn given_path(source: ModuleSourceView) -> Option<Seq<char>> {
    match source {
        ModuleSourceView::Fixed(text) => Some(text),
        _ => None,
    }
}

/// What one construct declares. Only a module declares anything: one whose file
/// depends on a condition is declined, one with a body is looked into, and any
/// other is resolved. Nothing is said about one that is compiled for tests only.
pub open spec fn declared_by(node: NodeView, scope: ScopeView, place: PlaceView) -> Declared
    decreases node,
{
    match node.head {
        HeadView::Item {
            attrs,
            definition: DefinitionView::Module { name, line, column, inline },
        } => {
            let scope = scope.within(product::test_only(attrs));
            let segments = scope.segments.push(name);
            let site = SiteView {
                file: path::relative_in(scope.style, place.workspace_root, place.file),
                line: Some(line),
                column: Some(column_from_one(column)),
            };
            let source = source_named_by(attrs);
            let all = match source {
                ModuleSourceView::Conditional(attribute) => Declared {
                    said: seq![
                        DiagnosticView::run(
                            site,
                            KindView::ModulePathConditional {
                                module: text::joined(segments, "::"@),
                                attribute,
                            },
                        ),
                    ],
                    files: Seq::empty(),
                },
                _ => if inline {
                    declared(node.children, inline_scope(name, given_path(source), scope), place)
                } else {
                    resolved(name, given_path(source), scope, segments, site, place)
                },
            };
            all.unless_said_of_tests(scope.test_only)
        },
        _ => Declared::nothing(),
    }
}

/// What several constructs declare, one after the other.
pub open spec fn declared(nodes: Seq<NodeView>, scope: ScopeView, place: PlaceView) -> Declared
    decreases nodes,
{
    if nodes.len() == 0 {
        Declared::nothing()
    } else {
        declared(nodes.drop_last(), scope, place).and(declared_by(nodes.last(), scope, place))
    }
}

/// The paths that it matters to know of for one construct.
pub open spec fn probes_of(node: NodeView, scope: ScopeView) -> Seq<Seq<char>>
    decreases node,
{
    match node.head {
        HeadView::Item {
            attrs,
            definition: DefinitionView::Module { name, inline, .. },
        } => {
            let scope = scope.within(product::test_only(attrs));
            let source = source_named_by(attrs);
            if source is Conditional {
                Seq::empty()
            } else if inline {
                probes(node.children, inline_scope(name, given_path(source), scope))
            } else {
                candidates(name, given_path(source), scope)
            }
        },
        _ => Seq::empty(),
    }
}

/// The paths that it matters to know of for several constructs.
pub open spec fn probes(nodes: Seq<NodeView>, scope: ScopeView) -> Seq<Seq<char>>
    decreases nodes,
{
    if nodes.len() == 0 {
        Seq::empty()
    } else {
        probes(nodes.drop_last(), scope) + probes_of(nodes.last(), scope)
    }
}

/// The paths at which a module may have its file.
fn candidate_files(name: &str, given: Option<&str>, scope: &Scope) -> (out: Vec<String>)
    ensures
        text::views(out@) == candidates(name@, crate::runner::optional_text(given), scope@),
{
    let mut out: Vec<String> = Vec::new();
    match given {
        Some(text) => {
            out.push(path::join_in(scope.style, &scope.dir, text));
        },
        None => {
            let dir = scope.module_dir();
            let mut file = name.to_owned();
            file.append(".rs");
            out.push(path::join_in(scope.style, &dir, &file));
            let inner = path::join_in(scope.style, &dir, name);
            out.push(path::join_in(scope.style, &inner, "mod.rs"));
        },
    }
    assert(text::views(out@) == candidates(name@, crate::runner::optional_text(given), scope@));
    out
}

/// What the walk knows when it looks at declarations.
struct Place<'a> {
    workspace_root: &'a str,
    file: &'a str,
    present: &'a Vec<String>,
}

impl<'a> View for Place<'a> {
    type V = PlaceView;

    closed spec fn view(&self) -> PlaceView {
        PlaceView {
            workspace_root: self.workspace_root@,
            file: self.file@,
            present: text::views(self.present@),
        }
    }
}

/// Paths as they are known in the workspace.
fn named(style: Style, root: &str, paths: &Vec<String>) -> (out: Vec<String>)
    ensures
        text::views(out@) == known_as(style, root@, text::views(paths@)),
{
    let mut out: Vec<String> = Vec::new();
    let mut i: usize = 0;
    while i < paths.len()
        invariant
            i <= paths.len(),
            out@.len() == i,
            forall|k: int|
                0 <= k < i ==> (#[trigger] out@[k])@ == path::relative_in(style, root@, paths@[k]@),
        decreases paths.len() - i,
    {
        out.push(path::workspace_relative_in(style, root, &paths[i]));
        i += 1;
    }
    assert(text::views(out@) == known_as(style, root@, text::views(paths@)));
    out
}

/// The candidates at which there is a file.
fn existing_files(candidates: &Vec<String>, present: &Vec<String>) -> (out: Vec<String>)
    ensures
        text::views(out@) == existing(text::views(candidates@), text::views(present@)),
{
    let ghost views = text::views(candidates@);
    let mut out: Vec<String> = Vec::new();
    let mut i: usize = 0;
    proof {
        reveal(Seq::filter);
    }
    assert(text::views(out@) == existing(views.take(0), text::views(present@)));
    while i < candidates.len()
        invariant
            i <= candidates.len(),
            views == text::views(candidates@),
            text::views(out@) == existing(views.take(i as int), text::views(present@)),
        decreases candidates.len() - i,
    {
        assert(views.take(i + 1).drop_last() == views.take(i as int));
        assert(views.take(i + 1).last() == candidates@[i as int]@);
        proof {
            reveal(Seq::filter);
        }
        let ghost before = out@;
        if text::holds(present, &candidates[i]) {
            out.push(candidates[i].clone());
            assert(text::views(out@) == text::views(before).push(candidates@[i as int]@));
        }
        i += 1;
    }
    assert(views.take(i as int) == views);
    out
}

/// What has been said and queued after declarations.
spec fn grown(
    said: Seq<Diagnostic>,
    said_before: Seq<Diagnostic>,
    files: Seq<Pending>,
    files_before: Seq<Pending>,
    more: Declared,
) -> bool {
    &&& crate::diagnostic::diagnostics_view(said) == crate::diagnostic::diagnostics_view(
        said_before,
    ) + more.said
    &&& pendings_view(files) == pendings_view(files_before) + more.files
}

/// Resolves the declaration of a module without a body.
fn resolve_module(
    name: &str,
    given: Option<&str>,
    scope: &Scope,
    segments: &Vec<String>,
    site: &Site,
    place: &Place,
    diagnostics: &mut Vec<Diagnostic>,
    queue: &mut Vec<Pending>,
)
    ensures
        grown(
            final(diagnostics)@,
            old(diagnostics)@,
            final(queue)@,
            old(queue)@,
            resolved(
                name@,
                crate::runner::optional_text(given),
                scope@,
                text::views(segments@),
                site@,
                place@,
            ),
        ),
{
    let ghost all = resolved(
        name@,
        crate::runner::optional_text(given),
        scope@,
        text::views(segments@),
        site@,
        place@,
    );
    let ghost said = crate::diagnostic::diagnostics_view(diagnostics@);
    let ghost files = pendings_view(queue@);
    let module = text::join(segments, "::");
    let looked = candidate_files(name, given, scope);
    let found = existing_files(&looked, place.present);
    assert(text::views(found@).len() == found@.len());
    if found.len() == 0 {
        let diagnostic = Diagnostic::run(
            site.clone(),
            Kind::ModuleFileMissing {
                module,
                candidates: named(scope.style, place.workspace_root, &looked),
            },
        );
        diagnostics.push(diagnostic);
        assert(crate::diagnostic::diagnostics_view(diagnostics@) == said + seq![diagnostic@]);
        assert(pendings_view(queue@) == files + Seq::<PendingView>::empty());
        return;
    }
    let child = &found[0];
    assert(text::views(found@)[0] == child@);
    if found.len() > 1 {
        let diagnostic = Diagnostic::run(
            site.clone(),
            Kind::ModuleFileAmbiguous {
                module,
                candidates: named(scope.style, place.workspace_root, &found),
                analysed: path::workspace_relative_in(scope.style, place.workspace_root, child),
            },
        );
        diagnostics.push(diagnostic);
        assert(crate::diagnostic::diagnostics_view(diagnostics@) == said + seq![diagnostic@]);
    } else {
        assert(crate::diagnostic::diagnostics_view(diagnostics@) == said
            + Seq::<DiagnosticView>::empty());
    }
    let segments = text::copies(segments);
    let test_only = scope.test_only;
    let style = scope.style;
    let inner = if given.is_some() {
        Scope { segments, dir: path::parent_in(style, child), relative: None, test_only, style }
    } else if path::is_named_in(style, child, "mod.rs") {
        let dir = path::join_in(style, &scope.module_dir(), name);
        Scope { segments, dir, relative: None, test_only, style }
    } else {
        let relative = Some(name.to_owned());
        Scope { segments, dir: scope.module_dir(), relative, test_only, style }
    };
    let pending = Pending { file: child.clone(), scope: inner };
    queue.push(pending);
    assert(pendings_view(queue@) == files + seq![pending@]);
    assert(seq![pending@] == all.files);
}

/// Queues the file of every module that a construct declares, and says what
/// there is to say.
fn declare(
    node: &Node,
    scope: &Scope,
    place: &Place,
    diagnostics: &mut Vec<Diagnostic>,
    queue: &mut Vec<Pending>,
)
    ensures
        grown(
            final(diagnostics)@,
            old(diagnostics)@,
            final(queue)@,
            old(queue)@,
            declared_by(node@, scope@, place@),
        ),
    decreases node,
{
    let ghost said = crate::diagnostic::diagnostics_view(diagnostics@);
    let ghost files = pendings_view(queue@);
    assert(node@.children == crate::syntax::nodes_view(node.children@));
    assert(said + Seq::<DiagnosticView>::empty() == said);
    assert(files + Seq::<PendingView>::empty() == files);
    match &node.head {
        Head::Item { attrs, definition: Definition::Module { name, line, column, inline } } => {
            let here = scope.within(product::is_test_only(attrs));
            let mut segments = text::copies(&here.segments);
            segments.push(name.clone());
            assert(text::views(segments@) == here@.segments.push(name@));
            let shown: usize = if *column < usize::MAX {
                *column + 1
            } else {
                *column
            };
            let site = Site::at(
                &path::workspace_relative_in(here.style, place.workspace_root, place.file),
                *line,
                shown,
            );
            let source = module_source(attrs);
            let given = match &source {
                ModuleSource::Conditional(attribute) => {
                    if !here.test_only {
                        let diagnostic = Diagnostic::run(
                            site,
                            Kind::ModulePathConditional {
                                module: text::join(&segments, "::"),
                                attribute: attribute.clone(),
                            },
                        );
                        diagnostics.push(diagnostic);
                        assert(crate::diagnostic::diagnostics_view(diagnostics@) == said
                            + seq![diagnostic@]);
                    }
                    return;
                },
                ModuleSource::Fixed(text) => Some(text.as_str()),
                ModuleSource::Default => None,
            };
            assert(crate::runner::optional_text(given) == given_path(source@));
            let mut more: Vec<Diagnostic> = Vec::new();
            let ghost none = crate::diagnostic::diagnostics_view(more@);
            assert(none == Seq::<DiagnosticView>::empty());
            if *inline {
                let dir = match given {
                    Some(text) => path::join_in(here.style, &here.dir, text),
                    None => path::join_in(here.style, &here.module_dir(), name),
                };
                let inner = Scope {
                    segments,
                    dir,
                    relative: None,
                    test_only: here.test_only,
                    style: here.style,
                };
                assert(inner@ == inline_scope(name@, given_path(source@), here@));
                declared_modules(&node.children, &inner, place, &mut more, queue);
            } else {
                resolve_module(name, given, &here, &segments, &site, place, &mut more, queue);
            }
            let ghost added = crate::diagnostic::diagnostics_view(more@);
            if !here.test_only {
                let ghost before = diagnostics@;
                let ghost tail = more@;
                diagnostics.append(&mut more);
                assert(diagnostics@ == before + tail);
                assert(crate::diagnostic::diagnostics_view(diagnostics@) == said + added);
            }
            assert(none + declared_by(node@, scope@, place@).said == declared_by(
                node@,
                scope@,
                place@,
            ).said);
            assert(none + added == added);
        },
        _ => {},
    }
}

/// Queues the file of every module that constructs declare, looking into inline
/// modules, which add a name and a directory without being a file.
fn declared_modules(
    nodes: &Vec<Node>,
    scope: &Scope,
    place: &Place,
    diagnostics: &mut Vec<Diagnostic>,
    queue: &mut Vec<Pending>,
)
    ensures
        grown(
            final(diagnostics)@,
            old(diagnostics)@,
            final(queue)@,
            old(queue)@,
            declared(crate::syntax::nodes_view(nodes@), scope@, place@),
        ),
    decreases nodes,
{
    let ghost views = crate::syntax::nodes_view(nodes@);
    let ghost said = crate::diagnostic::diagnostics_view(diagnostics@);
    let ghost files = pendings_view(queue@);
    let mut i: usize = 0;
    assert(views.take(0) == Seq::<NodeView>::empty());
    assert(said + Seq::<DiagnosticView>::empty() == said);
    assert(files + Seq::<PendingView>::empty() == files);
    while i < nodes.len()
        invariant
            i <= nodes.len(),
            views == crate::syntax::nodes_view(nodes@),
            said == crate::diagnostic::diagnostics_view(old(diagnostics)@),
            files == pendings_view(old(queue)@),
            crate::diagnostic::diagnostics_view(diagnostics@) == said + declared(
                views.take(i as int),
                scope@,
                place@,
            ).said,
            pendings_view(queue@) == files + declared(views.take(i as int), scope@, place@).files,
        decreases nodes.len() - i,
    {
        let ghost seen = declared(views.take(i as int), scope@, place@);
        let ghost more = declared_by(views[i as int], scope@, place@);
        assert(views.take(i + 1).drop_last() == views.take(i as int));
        assert(views[i as int] == nodes@[i as int]@);
        declare(&nodes[i], scope, place, diagnostics, queue);
        assert((said + seen.said) + more.said == said + (seen.said + more.said));
        assert((files + seen.files) + more.files == files + (seen.files + more.files));
        i += 1;
    }
    assert(views.take(i as int) == views);
}

/// Lists the paths that it matters to know of for a construct.
fn list_probes_of(node: &Node, scope: &Scope, out: &mut Vec<String>)
    ensures
        text::views(final(out)@) == text::views(old(out)@) + probes_of(node@, scope@),
    decreases node,
{
    let ghost start = text::views(out@);
    assert(node@.children == crate::syntax::nodes_view(node.children@));
    assert(start + Seq::<Seq<char>>::empty() == start);
    match &node.head {
        Head::Item { attrs, definition: Definition::Module { name, inline, .. } } => {
            let here = scope.within(product::is_test_only(attrs));
            let source = module_source(attrs);
            let given = match &source {
                ModuleSource::Conditional(_) => {
                    return;
                },
                ModuleSource::Fixed(text) => Some(text.as_str()),
                ModuleSource::Default => None,
            };
            assert(crate::runner::optional_text(given) == given_path(source@));
            if *inline {
                let mut segments = text::copies(&here.segments);
                segments.push(name.clone());
                assert(text::views(segments@) == here@.segments.push(name@));
                let dir = match given {
                    Some(text) => path::join_in(here.style, &here.dir, text),
                    None => path::join_in(here.style, &here.module_dir(), name),
                };
                let inner = Scope {
                    segments,
                    dir,
                    relative: None,
                    test_only: here.test_only,
                    style: here.style,
                };
                assert(inner@ == inline_scope(name@, given_path(source@), here@));
                list_probes(&node.children, &inner, out);
            } else {
                let mut more = candidate_files(name, given, &here);
                let ghost before = out@;
                let ghost added = more@;
                out.append(&mut more);
                assert(text::views(out@) == text::views(before) + text::views(added));
            }
        },
        _ => {},
    }
}

/// Lists the paths that it matters to know of for several constructs.
fn list_probes(nodes: &Vec<Node>, scope: &Scope, out: &mut Vec<String>)
    ensures
        text::views(final(out)@) == text::views(old(out)@) + probes(
            crate::syntax::nodes_view(nodes@),
            scope@,
        ),
    decreases nodes,
{
    let ghost views = crate::syntax::nodes_view(nodes@);
    let ghost start = text::views(out@);
    let mut i: usize = 0;
    assert(views.take(0) == Seq::<NodeView>::empty());
    assert(start + Seq::<Seq<char>>::empty() == start);
    while i < nodes.len()
        invariant
            i <= nodes.len(),
            views == crate::syntax::nodes_view(nodes@),
            start == text::views(old(out)@),
            text::views(out@) == start + probes(views.take(i as int), scope@),
        decreases nodes.len() - i,
    {
        let ghost seen = probes(views.take(i as int), scope@);
        let ghost more = probes_of(views[i as int], scope@);
        assert(views.take(i + 1).drop_last() == views.take(i as int));
        assert(views[i as int] == nodes@[i as int]@);
        list_probes_of(&nodes[i], scope, out);
        assert((start + seen) + more == start + (seen + more));
        i += 1;
    }
    assert(views.take(i as int) == views);
}

/// Walks the files of crates. One walk serves a whole workspace, so that a file
/// which several crates reach is walked once, for the one that reaches it first.
///
/// A walk is driven from outside: `next` tells which file is next, `enter` takes
/// the identity of that file, `probes` tells which paths to look at, and `visit`
/// takes what the file declares.
#[derive(Debug)]
pub struct Walker {
    style: Style,
    workspace_root: String,
    queue: Vec<Pending>,
    visited: Vec<String>,
    visited_in_tests: Vec<String>,
    current: Option<Pending>,
}

/// Where a walk stands.
#[verifier::ext_equal]
pub struct WalkView {
    /// How paths are written.
    pub style: Style,
    /// The root of the workspace.
    pub workspace_root: Seq<char>,
    /// The files that wait to be walked, the next one first.
    pub queue: Seq<PendingView>,
    /// The identities of the files that were entered as product, in order.
    pub visited: Seq<Seq<char>>,
    /// The identities of the files that were entered for tests only, in order.
    pub visited_in_tests: Seq<Seq<char>>,
    /// The file that was entered and not visited yet.
    pub current: Option<PendingView>,
}

/// What an optional `Pending` holds.
spec fn pending_view(pending: Option<Pending>) -> Option<PendingView> {
    match pending {
        Some(pending) => Some(pending@),
        None => None,
    }
}

impl View for Walker {
    type V = WalkView;

    closed spec fn view(&self) -> WalkView {
        WalkView {
            style: self.style,
            workspace_root: self.workspace_root@,
            queue: pendings_view(self.queue@),
            visited: text::views(self.visited@),
            visited_in_tests: text::views(self.visited_in_tests@),
            current: pending_view(self.current),
        }
    }
}

/// One file of the module graph.
#[derive(Debug, PartialEq, Eq)]
pub struct Module {
    /// Its module path, from the crate on.
    pub module: String,
    /// The file.
    pub file: String,
    /// Whether all of it is compiled for tests only.
    pub test_only: bool,
}

impl WalkView {
    /// A walk that has not begun.
    pub open spec fn new(style: Style, workspace_root: Seq<char>) -> WalkView {
        WalkView {
            style,
            workspace_root,
            queue: Seq::empty(),
            visited: Seq::empty(),
            visited_in_tests: Seq::empty(),
            current: None,
        }
    }

    /// The walk with the root of one more crate at the end of its queue. The
    /// root is the crate, whatever the file is called.
    pub open spec fn begun(self, root: Seq<char>, crate_ident: Seq<char>) -> WalkView {
        WalkView {
            queue: self.queue.push(
                PendingView {
                    file: root,
                    scope: ScopeView {
                        segments: seq![crate_ident],
                        dir: path::directory_in(self.style, root),
                        relative: None,
                        test_only: false,
                        style: self.style,
                    },
                },
            ),
            ..self
        }
    }

    /// Whether there is no need to enter the next file, given its identity: it
    /// was entered as product, or it is wanted for tests only and was entered so.
    pub open spec fn knows(self, identity: Seq<char>) -> bool {
        ||| self.visited.contains(identity)
        ||| self.queue[0].scope.test_only && self.visited_in_tests.contains(identity)
    }

    /// The walk after its next file was found to have an identity: the file is
    /// dropped if it is known, and else entered.
    pub open spec fn entered(self, identity: Seq<char>) -> WalkView {
        if self.knows(identity) {
            WalkView { queue: self.queue.skip(1), current: None, ..self }
        } else if self.queue[0].scope.test_only {
            WalkView {
                queue: self.queue.skip(1),
                visited_in_tests: self.visited_in_tests.push(identity),
                current: Some(self.queue[0]),
                ..self
            }
        } else {
            WalkView {
                queue: self.queue.skip(1),
                visited: self.visited.push(identity),
                current: Some(self.queue[0]),
                ..self
            }
        }
    }

    /// The scope of what the file that was entered declares.
    pub open spec fn scope_in(self, file: FileView) -> ScopeView {
        self.current->Some_0.scope.within(product::test_only_file(file))
    }

    /// What the file that was entered declares, given the paths at which there
    /// is a file.
    pub open spec fn declares(self, file: FileView, present: Seq<Seq<char>>) -> Declared {
        declared(
            file.nodes,
            self.scope_in(file),
            PlaceView {
                workspace_root: self.workspace_root,
                file: self.current->Some_0.file,
                present,
            },
        )
    }

    /// The walk after the file that was entered was visited: what it declares
    /// waits at the end of the queue.
    pub open spec fn advanced(self, file: FileView, present: Seq<Seq<char>>) -> WalkView {
        WalkView {
            queue: self.queue + self.declares(file, present).files,
            current: None,
            ..self
        }
    }
}

impl Walker {
    /// A walk over a workspace, which has not begun.
    pub fn new(style: Style, workspace_root: &str) -> (out: Walker)
        ensures
            out@ == WalkView::new(style, workspace_root@),
    {
        let out = Walker {
            style,
            workspace_root: workspace_root.to_owned(),
            queue: Vec::new(),
            visited: Vec::new(),
            visited_in_tests: Vec::new(),
            current: None,
        };
        assert(out@ == WalkView::new(style, workspace_root@));
        out
    }

    /// Adds the root of a crate.
    pub fn begin(&mut self, root: &str, crate_ident: &str)
        ensures
            final(self)@ == old(self)@.begun(root@, crate_ident@),
    {
        let mut segments: Vec<String> = Vec::new();
        segments.push(crate_ident.to_owned());
        assert(text::views(segments@) == seq![crate_ident@]);
        let scope = Scope {
            segments,
            dir: path::parent_in(self.style, root),
            relative: None,
            test_only: false,
            style: self.style,
        };
        let ghost before = self.queue@;
        let pending = Pending { file: root.to_owned(), scope };
        self.queue.push(pending);
        assert(pendings_view(self.queue@) == pendings_view(before).push(pending@));
    }

    /// The file that is next, if any is left.
    pub fn next(&self) -> (out: Option<&str>)
        ensures
            match out {
                Some(file) => self@.queue.len() > 0 && file@ == self@.queue[0].file,
                None => self@.queue.len() == 0,
            },
    {
        if self.queue.len() == 0 {
            None
        } else {
            assert(self@.queue[0] == self.queue@[0]@);
            Some(self.queue[0].file.as_str())
        }
    }

    /// Takes the identity of the next file, and tells whether the file is to be
    /// visited: only if none of that identity was. Two spellings of one file have
    /// one identity, so a file that leads back to itself ends the walk there. A
    /// file that was visited for tests only is visited again where it is product.
    pub fn enter(&mut self, identity: &str) -> (fresh: bool)
        requires
            old(self)@.queue.len() > 0,
        ensures
            fresh == !old(self)@.knows(identity@),
            final(self)@ == old(self)@.entered(identity@),
    {
        let ghost before = self.queue@;
        let next = self.queue.remove(0);
        assert(pendings_view(self.queue@) == pendings_view(before).skip(1));
        assert(pendings_view(before)[0] == next@);
        if text::holds(&self.visited, identity) || (next.scope.test_only && text::holds(
            &self.visited_in_tests,
            identity,
        )) {
            self.current = None;
            false
        } else if next.scope.test_only {
            let ghost known = self.visited_in_tests@;
            self.visited_in_tests.push(identity.to_owned());
            assert(text::views(self.visited_in_tests@) == text::views(known).push(identity@));
            self.current = Some(next);
            true
        } else {
            let ghost known = self.visited@;
            self.visited.push(identity.to_owned());
            assert(text::views(self.visited@) == text::views(known).push(identity@));
            self.current = Some(next);
            true
        }
    }

    /// The paths at which it matters whether there is a file, given the file that
    /// was entered.
    pub fn probes(&self, file: &File) -> (out: Vec<String>)
        requires
            self@.current is Some,
        ensures
            text::views(out@) == probes(file@.nodes, self@.scope_in(file@)),
    {
        let mut out: Vec<String> = Vec::new();
        match &self.current {
            Some(current) => {
                let scope = current.scope.within(product::is_test_only_file(file));
                list_probes(&file.nodes, &scope, &mut out);
            },
            None => {},
        }
        assert(text::views(Seq::<String>::empty()) + text::views(out@) == text::views(out@));
        out
    }

    /// Visits the file that was entered: queues what it declares, says what there
    /// is to say about that, and tells what the file is called.
    pub fn visit(
        &mut self,
        file: &File,
        present: &Vec<String>,
        diagnostics: &mut Vec<Diagnostic>,
    ) -> (out: Module)
        requires
            old(self)@.current is Some,
        ensures
            final(self)@ == old(self)@.advanced(file@, text::views(present@)),
            crate::diagnostic::diagnostics_view(final(diagnostics)@)
                == crate::diagnostic::diagnostics_view(old(diagnostics)@) + old(self)@.declares(
                file@,
                text::views(present@),
            ).said,
            out.module@ == text::joined(old(self)@.current->Some_0.scope.segments, "::"@),
            out.file@ == old(self)@.current->Some_0.file,
            out.test_only == old(self)@.scope_in(file@).test_only,
    {
        let current = self.current.take().unwrap();
        let place = Place {
            workspace_root: self.workspace_root.as_str(),
            file: current.file.as_str(),
            present,
        };
        let scope = current.scope.within(product::is_test_only_file(file));
        declared_modules(&file.nodes, &scope, &place, diagnostics, &mut self.queue);
        Module {
            module: text::join(&scope.segments, "::"),
            file: current.file,
            test_only: scope.test_only,
        }
    }
}

/// No file is walked twice: once a file of some identity was entered as product,
/// the walk drops every further one of that identity, and it forgets none on the
/// way.
pub proof fn law_no_file_is_walked_twice(
    walk: WalkView,
    root: Seq<char>,
    crate_ident: Seq<char>,
    other: Seq<char>,
    file: FileView,
    present: Seq<Seq<char>>,
    identity: Seq<char>,
)
    requires
        walk.visited.contains(identity),
    ensures
        walk.entered(identity).current is None,
        walk.entered(identity).visited == walk.visited,
        walk.begun(root, crate_ident).visited.contains(identity),
        walk.entered(other).visited.contains(identity),
        walk.advanced(file, present).visited.contains(identity),
{
    let i = choose|i: int| 0 <= i < walk.visited.len() && walk.visited[i] == identity;
    assert(walk.visited.push(other)[i] == identity);
}

/// A file that is entered is known from then on, as product or for tests.
pub proof fn law_an_entered_file_is_known(walk: WalkView, identity: Seq<char>)
    requires
        !walk.knows(identity),
    ensures
        if walk.queue[0].scope.test_only {
            walk.entered(identity).visited_in_tests.contains(identity)
        } else {
            walk.entered(identity).visited.contains(identity)
        },
{
    assert(walk.visited.push(identity)[walk.visited.len() as int] == identity);
    assert(walk.visited_in_tests.push(identity)[walk.visited_in_tests.len() as int] == identity);
}

/// Every step brings the walk nearer to its end: it drops a file from the queue,
/// and where it enters that file, the file is new as product, or new for tests.
/// As a workspace has finitely many files, a walk ends, whatever the files
/// declare.
pub proof fn law_every_step_makes_progress(walk: WalkView, identity: Seq<char>)
    requires
        walk.queue.len() > 0,
    ensures
        walk.entered(identity).queue.len() == walk.queue.len() - 1,
        walk.entered(identity).current is Some ==> {
            ||| !walk.visited.contains(identity) && walk.entered(identity).visited
                == walk.visited.push(identity)
            ||| !walk.visited_in_tests.contains(identity) && walk.entered(
                identity,
            ).visited_in_tests == walk.visited_in_tests.push(identity)
        },
{
}

/// What is compiled for tests only says nothing, and all that it leads to is
/// compiled for tests only.
pub proof fn law_tests_lead_to_tests(nodes: Seq<NodeView>, scope: ScopeView, place: PlaceView)
    requires
        scope.test_only,
    ensures
        declared(nodes, scope, place).said == Seq::<DiagnosticView>::empty(),
        forall|i: int|
            0 <= i < declared(nodes, scope, place).files.len() ==> (#[trigger] declared(
                nodes,
                scope,
                place,
            ).files[i]).scope.test_only,
    decreases nodes, 0int,
{
    if nodes.len() > 0 {
        law_tests_lead_to_tests(nodes.drop_last(), scope, place);
        lemma_tests_lead_to_tests(nodes.last(), scope, place);
        let rest = declared(nodes.drop_last(), scope, place);
        let last = declared_by(nodes.last(), scope, place);
        let all = declared(nodes, scope, place);
        assert forall|i: int| 0 <= i < all.files.len() implies (
        #[trigger] all.files[i]).scope.test_only by {
            if i < rest.files.len() {
                assert(all.files[i] == rest.files[i]);
            } else {
                assert(all.files[i] == last.files[i - rest.files.len()]);
            }
        }
    }
}

proof fn lemma_tests_lead_to_tests(node: NodeView, scope: ScopeView, place: PlaceView)
    requires
        scope.test_only,
    ensures
        declared_by(node, scope, place).said == Seq::<DiagnosticView>::empty(),
        forall|i: int|
            0 <= i < declared_by(node, scope, place).files.len() ==> (#[trigger] declared_by(
                node,
                scope,
                place,
            ).files[i]).scope.test_only,
    decreases node, 1int,
{
    match node.head {
        HeadView::Item {
            attrs,
            definition: DefinitionView::Module { name, inline, .. },
        } => {
            let here = scope.within(product::test_only(attrs));
            let source = source_named_by(attrs);
            if !(source is Conditional) && inline {
                law_tests_lead_to_tests(
                    node.children,
                    inline_scope(name, given_path(source), here),
                    place,
                );
            }
        },
        _ => {},
    }
}

/// Both spellings of the file of a module lead on to one directory: what a module
/// declares is looked for in the directory named after it, whether its file is
/// `mod.rs` in there or the file of its name beside it.
pub proof fn law_both_spellings_lead_to_one_directory(
    name: Seq<char>,
    scope: ScopeView,
    segments: Seq<Seq<char>>,
    site: SiteView,
    place: PlaceView,
    file: Seq<char>,
)
    ensures
        scope_of(name, None, scope, segments, file).module_dir() == path::joined_in(
            scope.style,
            scope.module_dir(),
            name,
        ),
        forall|i: int|
            0 <= i < resolved(name, None, scope, segments, site, place).files.len() ==> (
            #[trigger] resolved(
                name,
                None,
                scope,
                segments,
                site,
                place,
            ).files[i]).scope.module_dir() == path::joined_in(
                scope.style,
                scope.module_dir(),
                name,
            ),
{
}

/// Files are walked breadth first: what a file declares comes after everything
/// that waited before it.
pub proof fn law_declared_files_wait_their_turn(
    walk: WalkView,
    file: FileView,
    present: Seq<Seq<char>>,
    i: int,
)
    requires
        0 <= i < walk.queue.len(),
    ensures
        walk.advanced(file, present).queue[i] == walk.queue[i],
{
}

/// Whether two lists of present paths agree on `wanted`.
pub open spec fn agree_on(a: Seq<Seq<char>>, b: Seq<Seq<char>>, wanted: Seq<Seq<char>>) -> bool {
    forall|i: int|
        0 <= i < wanted.len() ==> a.contains(#[trigger] wanted[i]) == b.contains(wanted[i])
}

/// Where a place differs in what is present only.
pub open spec fn with_present(place: PlaceView, present: Seq<Seq<char>>) -> PlaceView {
    PlaceView { present, ..place }
}

/// Looking at the probed paths is enough: what declarations come to does not
/// depend on any other path.
pub proof fn law_only_probed_paths_matter(
    nodes: Seq<NodeView>,
    scope: ScopeView,
    place: PlaceView,
    present: Seq<Seq<char>>,
)
    requires
        agree_on(place.present, present, probes(nodes, scope)),
    ensures
        declared(nodes, scope, place) == declared(nodes, scope, with_present(place, present)),
    decreases nodes, 0int,
{
    if nodes.len() > 0 {
        let rest = probes(nodes.drop_last(), scope);
        let last = probes_of(nodes.last(), scope);
        let all = probes(nodes, scope);
        assert(all == rest + last);
        assert forall|i: int| 0 <= i < rest.len() implies place.present.contains(
            #[trigger] rest[i],
        ) == present.contains(rest[i]) by {
            assert(all[i] == rest[i]);
        }
        assert forall|i: int| 0 <= i < last.len() implies place.present.contains(
            #[trigger] last[i],
        ) == present.contains(last[i]) by {
            assert(all[rest.len() + i] == last[i]);
        }
        law_only_probed_paths_matter(nodes.drop_last(), scope, place, present);
        lemma_only_probed_paths_matter(nodes.last(), scope, place, present);
    }
}

proof fn lemma_only_probed_paths_matter(
    node: NodeView,
    scope: ScopeView,
    place: PlaceView,
    present: Seq<Seq<char>>,
)
    requires
        agree_on(place.present, present, probes_of(node, scope)),
    ensures
        declared_by(node, scope, place) == declared_by(node, scope, with_present(place, present)),
    decreases node, 1int,
{
    match node.head {
        HeadView::Item {
            attrs,
            definition: DefinitionView::Module { name, inline, .. },
        } => {
            let here = scope.within(product::test_only(attrs));
            let source = source_named_by(attrs);
            let given = given_path(source);
            if !(source is Conditional) {
                if inline {
                    law_only_probed_paths_matter(
                        node.children,
                        inline_scope(name, given, here),
                        place,
                        present,
                    );
                } else {
                    lemma_existing_alike(candidates(name, given, here), place.present, present);
                }
            }
        },
        _ => {},
    }
}

proof fn lemma_existing_alike(looked: Seq<Seq<char>>, a: Seq<Seq<char>>, b: Seq<Seq<char>>)
    requires
        agree_on(a, b, looked),
    ensures
        existing(looked, a) == existing(looked, b),
    decreases looked.len(),
{
    reveal(Seq::filter);
    if looked.len() > 0 {
        assert forall|i: int| 0 <= i < looked.drop_last().len() implies a.contains(
            #[trigger] looked.drop_last()[i],
        ) == b.contains(looked.drop_last()[i]) by {
            assert(looked.drop_last()[i] == looked[i]);
        }
        lemma_existing_alike(looked.drop_last(), a, b);
        assert(a.contains(looked[looked.len() - 1]) == b.contains(looked[looked.len() - 1]));
    }
}

/// Whether no file was entered twice as product, nor twice for tests.
pub open spec fn enters_once(walk: WalkView) -> bool {
    walk.visited.no_duplicates() && walk.visited_in_tests.no_duplicates()
}

/// A walk enters no file twice as product, nor twice for tests, however it goes
/// on.
pub proof fn law_a_walk_enters_once(
    walk: WalkView,
    style: Style,
    workspace_root: Seq<char>,
    root: Seq<char>,
    crate_ident: Seq<char>,
    identity: Seq<char>,
    file: FileView,
    present: Seq<Seq<char>>,
)
    requires
        enters_once(walk),
    ensures
        enters_once(WalkView::new(style, workspace_root)),
        enters_once(walk.begun(root, crate_ident)),
        enters_once(walk.entered(identity)),
        enters_once(walk.advanced(file, present)),
{
}

/// Where a walk meets finitely many files, it enters each at most twice: so the
/// steps that enter a file are bounded, whatever the files declare.
pub proof fn law_a_walk_is_bounded(walk: WalkView, files: Set<Seq<char>>)
    requires
        enters_once(walk),
        files.finite(),
        forall|i: int| 0 <= i < walk.visited.len() ==> files.contains(#[trigger] walk.visited[i]),
        forall|i: int|
            0 <= i < walk.visited_in_tests.len() ==> files.contains(
                #[trigger] walk.visited_in_tests[i],
            ),
    ensures
        walk.visited.len() + walk.visited_in_tests.len() <= 2 * files.len(),
{
    walk.visited.unique_seq_to_set();
    walk.visited_in_tests.unique_seq_to_set();
    vstd::set_lib::lemma_len_subset(walk.visited.to_set(), files);
    vstd::set_lib::lemma_len_subset(walk.visited_in_tests.to_set(), files);
}

/// A file is walked only if it is the root of a crate or a file that was walked
/// declares it: every file that waits waited before, or is such.
pub proof fn law_only_roots_and_declared_files_are_walked(
    walk: WalkView,
    root: Seq<char>,
    crate_ident: Seq<char>,
    identity: Seq<char>,
    file: FileView,
    present: Seq<Seq<char>>,
    waiting: PendingView,
)
    requires
        !walk.queue.contains(waiting),
    ensures
        walk.begun(root, crate_ident).queue.contains(waiting) ==> waiting.file == root
            && waiting.scope.segments == seq![crate_ident],
        walk.queue.len() > 0 ==> !walk.entered(identity).queue.contains(waiting),
        walk.advanced(file, present).queue.contains(waiting) ==> walk.declares(
            file,
            present,
        ).files.contains(waiting),
{
    let begun = walk.begun(root, crate_ident).queue;
    if begun.contains(waiting) {
        let k = choose|k: int| 0 <= k < begun.len() && begun[k] == waiting;
        if k < walk.queue.len() {
            assert(walk.queue[k] == waiting);
        }
    }
    let entered = walk.entered(identity).queue;
    if walk.queue.len() > 0 && entered.contains(waiting) {
        let k = choose|k: int| 0 <= k < entered.len() && entered[k] == waiting;
        assert(walk.queue[k + 1] == waiting);
    }
    let advanced = walk.advanced(file, present).queue;
    if advanced.contains(waiting) {
        let files = walk.declares(file, present).files;
        let k = choose|k: int| 0 <= k < advanced.len() && advanced[k] == waiting;
        if k < walk.queue.len() {
            assert(walk.queue[k] == waiting);
        } else {
            assert(files[k - walk.queue.len()] == waiting);
        }
    }
}

/// No file that waits is lost, and every file that is declared waits: a file
/// leaves the queue only to be entered, or because it was.
pub proof fn law_every_declared_file_is_walked(
    walk: WalkView,
    root: Seq<char>,
    crate_ident: Seq<char>,
    identity: Seq<char>,
    file: FileView,
    present: Seq<Seq<char>>,
    waiting: PendingView,
)
    ensures
        walk.queue.contains(waiting) ==> walk.begun(root, crate_ident).queue.contains(waiting),
        walk.queue.contains(waiting) ==> {
            ||| walk.entered(identity).queue.contains(waiting)
            ||| walk.entered(identity).current == Some(waiting)
            ||| waiting == walk.queue[0] && walk.knows(identity)
        },
        walk.queue.contains(waiting) || walk.declares(file, present).files.contains(waiting)
            ==> walk.advanced(file, present).queue.contains(waiting),
{
    let files = walk.declares(file, present).files;
    if walk.queue.contains(waiting) {
        let k = choose|k: int| 0 <= k < walk.queue.len() && walk.queue[k] == waiting;
        assert(walk.begun(root, crate_ident).queue[k] == waiting);
        assert(walk.advanced(file, present).queue[k] == waiting);
        if k > 0 {
            assert(walk.entered(identity).queue[k - 1] == waiting);
        }
    }
    if files.contains(waiting) {
        let k = choose|k: int| 0 <= k < files.len() && files[k] == waiting;
        assert(walk.advanced(file, present).queue[walk.queue.len() + k] == waiting);
    }
}

/// Whether a module can be called so: by a plain name, which is not `mod`.
pub open spec fn module_can_be_called(name: Seq<char>) -> bool {
    path::plain_name(name) && name != seq!['m', 'o', 'd']
}

proof fn lemma_file_of_a_name(name: Seq<char>)
    requires
        module_can_be_called(name),
    ensures
        path::plain_name(name + ".rs"@),
        name + ".rs"@ != "mod.rs"@,
        path::plain_name("mod.rs"@),
{
    reveal_strlit(".rs");
    reveal_strlit("mod.rs");
    let file = name + ".rs"@;
    assert(file[file.len() - 1] == 's' && file[file.len() - 2] == 'r');
    assert forall|c: char| (c == '/' || c == '\\' || c == ':') && !name.contains(c) implies !(
    #[trigger] file.contains(c)) by {
        if file.contains(c) {
            let i = choose|i: int| 0 <= i < file.len() && file[i] == c;
            if i < name.len() {
                assert(name[i] == c);
            }
        }
    }
    assert(!file.contains('/') && !file.contains('\\') && !file.contains(':'));
    assert(file != seq!['.']) by {
        assert(file.len() > 1);
    }
    assert(file != seq!['.', '.']) by {
        assert(file.len() > 2);
    }
    if file == "mod.rs"@ {
        assert(name == seq!['m', 'o', 'd']) by {
            assert(name.len() == 3);
            assert(file[0] == 'm' && file[1] == 'o' && file[2] == 'd');
            assert(name =~= seq!['m', 'o', 'd']);
        }
    }
    let fixed = "mod.rs"@;
    assert(fixed.len() == 6);
    assert(!fixed.contains('/') && !fixed.contains('\\') && !fixed.contains(':'));
}

/// A `path` attribute starts from the file that it stands in: a module with one is
/// looked for at exactly one place, its text behind the directory that holds the
/// declaring file. That is so in the root of a crate, in a file that was itself
/// given by a `path`, in a `mod.rs`, and in a file that is named after its module.
pub proof fn law_a_path_attribute_starts_from_its_file(
    walk: WalkView,
    root: Seq<char>,
    crate_ident: Seq<char>,
    name: Seq<char>,
    given: Option<Seq<char>>,
    scope: ScopeView,
    segments: Seq<Seq<char>>,
    file: Seq<char>,
    inner: Seq<char>,
    text: Seq<char>,
)
    requires
        path::tidy_in(scope.style, scope.module_dir()),
        module_can_be_called(name),
        given is None ==> file == path::joined_in(
            scope.style,
            scope.module_dir(),
            name + seq!['.', 'r', 's'],
        ) || file == path::joined_in(
            scope.style,
            path::joined_in(scope.style, scope.module_dir(), name),
            seq!['m', 'o', 'd', '.', 'r', 's'],
        ),
    ensures
        candidates(inner, Some(text), scope_of(name, given, scope, segments, file)) == seq![
            path::joined_in(scope.style, path::directory_in(scope.style, file), text),
        ],
        path::tidy_in(scope.style, scope_of(name, given, scope, segments, file).module_dir()),
        candidates(inner, Some(text), walk.begun(root, crate_ident).queue.last().scope) == seq![
            path::joined_in(walk.style, path::directory_in(walk.style, root), text),
        ],
        path::tidy_in(walk.style, walk.begun(root, crate_ident).queue.last().scope.module_dir()),
{
    reveal_strlit(".rs");
    reveal_strlit("mod.rs");
    assert(".rs"@ == seq!['.', 'r', 's']);
    assert("mod.rs"@ == seq!['m', 'o', 'd', '.', 'r', 's']);
    let style = scope.style;
    lemma_file_of_a_name(name);
    path::law_a_directory_is_tidy(style, file);
    path::law_a_directory_is_tidy(walk.style, root);
    path::law_a_name_is_in_its_directory(style, scope.module_dir(), name);
    path::law_a_name_is_in_its_directory(style, scope.module_dir(), name + ".rs"@);
    let home = path::joined_in(style, scope.module_dir(), name);
    path::law_a_name_is_in_its_directory(style, home, "mod.rs"@);
}

/// A module is looked for by its name: in the directory of the root of a crate, in
/// the directory of a file that a `path` attribute gave, and in the directory named
/// after any other module, which stands beside the file of that module or holds it.
/// There it is `name.rs`, or else `mod.rs` in the directory `name`.
pub proof fn law_a_module_is_looked_for_by_its_name(
    walk: WalkView,
    root: Seq<char>,
    crate_ident: Seq<char>,
    name: Seq<char>,
    given: Option<Seq<char>>,
    scope: ScopeView,
    segments: Seq<Seq<char>>,
    file: Seq<char>,
    inner: Seq<char>,
)
    ensures
        ({
            let home = match given {
                Some(_) => path::directory_in(scope.style, file),
                None => path::joined_in(scope.style, scope.module_dir(), name),
            };
            candidates(inner, None, scope_of(name, given, scope, segments, file)) == seq![
                path::joined_in(scope.style, home, inner + seq!['.', 'r', 's']),
                path::joined_in(
                    scope.style,
                    path::joined_in(scope.style, home, inner),
                    seq!['m', 'o', 'd', '.', 'r', 's'],
                ),
            ]
        }),
        ({
            let home = path::directory_in(walk.style, root);
            candidates(inner, None, walk.begun(root, crate_ident).queue.last().scope) == seq![
                path::joined_in(walk.style, home, inner + seq!['.', 'r', 's']),
                path::joined_in(
                    walk.style,
                    path::joined_in(walk.style, home, inner),
                    seq!['m', 'o', 'd', '.', 'r', 's'],
                ),
            ]
        }),
{
    reveal_strlit(".rs");
    reveal_strlit("mod.rs");
    assert(".rs"@ == seq!['.', 'r', 's']);
    assert("mod.rs"@ == seq!['m', 'o', 'd', '.', 'r', 's']);
}

/// A module without a body is walked from the first of its candidates at which there
/// is a file, under its own name, and as what its declaration is. One candidate with
/// a file is all there is to it; more are said, and none is said to be missing, with
/// every place that was looked at.
pub proof fn law_a_module_is_walked_from_the_file_that_is_there(
    name: Seq<char>,
    given: Option<Seq<char>>,
    scope: ScopeView,
    segments: Seq<Seq<char>>,
    site: SiteView,
    place: PlaceView,
)
    ensures
        ({
            let looked = candidates(name, given, scope);
            let found = resolved(name, given, scope, segments, site, place);
            let there = |i: int| place.present.contains(looked[i]);
            let known = |p: Seq<char>| path::relative_in(scope.style, place.workspace_root, p);
            let module = text::joined(segments, seq![':', ':']);
            &&& looked.len() == (if given is Some {
                1nat
            } else {
                2nat
            })
            &&& !there(0) && (looked.len() == 1 || !there(1)) ==> {
                &&& found.files == Seq::<PendingView>::empty()
                &&& found.said == seq![
                    DiagnosticView::run(
                        site,
                        KindView::ModuleFileMissing {
                            module,
                            candidates: looked.map_values(known),
                        },
                    ),
                ]
            }
            &&& there(0) ==> found.files.len() == 1 && found.files[0].file == looked[0]
            &&& !there(0) && looked.len() == 2 && there(1) ==> found.files.len() == 1
                && found.files[0].file == looked[1]
            &&& (looked.len() == 1 && there(0)) || (looked.len() == 2 && there(0) != there(1))
                ==> found.said == Seq::<DiagnosticView>::empty()
            &&& looked.len() == 2 && there(0) && there(1) ==> found.said == seq![
                DiagnosticView::run(
                    site,
                    KindView::ModuleFileAmbiguous {
                        module,
                        candidates: looked.map_values(known),
                        analysed: known(looked[0]),
                    },
                ),
            ]
            &&& found.files.len() == 1 ==> found.files[0].scope.segments == segments
                && found.files[0].scope.test_only == scope.test_only
                && found.files[0].scope.style == scope.style
        }),
{
    reveal_strlit("::");
    assert("::"@ == seq![':', ':']);
    let looked = candidates(name, given, scope);
    let is_there = |candidate: Seq<char>| place.present.contains(candidate);
    let found = existing(looked, place.present);
    let none = Seq::<Seq<char>>::empty();
    assert(found == looked.filter(is_there));
    reveal(Seq::filter);
    assert(none.filter(is_there) == none);
    if looked.len() == 1 {
        assert(looked == none.push(looked[0]));
        none.lemma_filter_push(looked[0], is_there);
        assert(none.push(looked[0])[0] == looked[0]);
    } else {
        let first = none.push(looked[0]);
        assert(looked == first.push(looked[1]));
        none.lemma_filter_push(looked[0], is_there);
        first.lemma_filter_push(looked[1], is_there);
    }
    let known = |p: Seq<char>| path::relative_in(scope.style, place.workspace_root, p);
    assert(known_as(scope.style, place.workspace_root, looked) == looked.map_values(known));
    assert(known_as(scope.style, place.workspace_root, found) == found.map_values(known));
    if looked.len() == 2 && is_there(looked[0]) && is_there(looked[1]) {
        assert(found == looked);
    }
}

/// What declarations come to comes in their order; and only modules declare
/// anything.
pub proof fn law_declarations_come_in_their_order(
    a: Seq<NodeView>,
    b: Seq<NodeView>,
    node: NodeView,
    scope: ScopeView,
    place: PlaceView,
)
    ensures
        declared(a + b, scope, place).files == declared(a, scope, place).files + declared(
            b,
            scope,
            place,
        ).files,
        declared(a + b, scope, place).said == declared(a, scope, place).said + declared(
            b,
            scope,
            place,
        ).said,
        !(node.head matches HeadView::Item { definition: DefinitionView::Module { .. }, .. })
            ==> declared(seq![node], scope, place) == Declared::nothing(),
    decreases b.len(),
{
    lemma_declared_of_one(node, scope, place);
    if b.len() == 0 {
        assert(a + b == a);
        assert(declared(a, scope, place).files + Seq::<PendingView>::empty() == declared(
            a,
            scope,
            place,
        ).files);
        assert(declared(a, scope, place).said + Seq::<DiagnosticView>::empty() == declared(
            a,
            scope,
            place,
        ).said);
    } else {
        assert((a + b).drop_last() == a + b.drop_last());
        assert((a + b).last() == b.last());
        law_declarations_come_in_their_order(a, b.drop_last(), node, scope, place);
        let x = declared(a, scope, place);
        let y = declared(b.drop_last(), scope, place);
        let z = declared_by(b.last(), scope, place);
        assert((x.files + y.files) + z.files == x.files + (y.files + z.files));
        assert((x.said + y.said) + z.said == x.said + (y.said + z.said));
    }
}

proof fn lemma_declared_of_one(node: NodeView, scope: ScopeView, place: PlaceView)
    ensures
        declared(seq![node], scope, place) == declared_by(node, scope, place),
{
    let one = seq![node];
    let all = declared_by(node, scope, place);
    assert(one.drop_last() == Seq::<NodeView>::empty());
    assert(declared(one.drop_last(), scope, place) == Declared::nothing());
    assert(Seq::<PendingView>::empty() + all.files == all.files);
    assert(Seq::<DiagnosticView>::empty() + all.said == all.said);
}

/// What a module of a file declares, or is. One without a body is resolved under
/// the modules around it and its name; one with a body is looked into under these,
/// from the directory of its name or from the one that its `path` gives; one whose
/// file depends on a condition is not resolved, which is said. It is said where the
/// declaration stands, and not of what is compiled for tests only.
pub proof fn law_what_a_module_declares(
    node: NodeView,
    attrs: Seq<ClauseView>,
    name: Seq<char>,
    line: usize,
    column: usize,
    inline: bool,
    scope: ScopeView,
    place: PlaceView,
)
    requires
        node.head == (HeadView::Item {
            attrs,
            definition: DefinitionView::Module { name, line, column, inline },
        }),
        column < usize::MAX,
    ensures
        ({
            let here = ScopeView {
                test_only: scope.test_only || product::test_only(attrs),
                ..scope
            };
            let segments = scope.segments.push(name);
            let site = SiteView {
                file: path::relative_in(scope.style, place.workspace_root, place.file),
                line: Some(line),
                column: Some((column + 1) as usize),
            };
            let found = declared(seq![node], scope, place);
            let given = match source_named_by(attrs) {
                ModuleSourceView::Fixed(text) => Some(text),
                _ => None,
            };
            let inner = ScopeView {
                segments,
                dir: match given {
                    Some(text) => path::joined_in(scope.style, scope.dir, text),
                    None => path::joined_in(scope.style, scope.module_dir(), name),
                },
                relative: None,
                test_only: here.test_only,
                style: scope.style,
            };
            &&& here.test_only ==> found.said == Seq::<DiagnosticView>::empty()
            &&& source_named_by(attrs) is Conditional ==> found.files == Seq::<PendingView>::empty()
            &&& source_named_by(attrs) is Conditional && !here.test_only ==> found.said == seq![
                DiagnosticView::run(
                    site,
                    KindView::ModulePathConditional {
                        module: text::joined(segments, seq![':', ':']),
                        attribute: source_named_by(attrs)->Conditional_0,
                    },
                ),
            ]
            &&& !(source_named_by(attrs) is Conditional) && inline ==> found.files == declared(
                node.children,
                inner,
                place,
            ).files && (!here.test_only ==> found.said == declared(
                node.children,
                inner,
                place,
            ).said)
            &&& !(source_named_by(attrs) is Conditional) && !inline ==> found.files == resolved(
                name,
                given,
                here,
                segments,
                site,
                place,
            ).files && (!here.test_only ==> found.said == resolved(
                name,
                given,
                here,
                segments,
                site,
                place,
            ).said)
        }),
{
    reveal_strlit("::");
    assert("::"@ == seq![':', ':']);
    lemma_declared_of_one(node, scope, place);
}

/// The file of a module comes from the first `path` attribute that gives a text,
/// whatever else stands around it, and from its name where there is none, as long
/// as no attribute may apply a `path` under a condition.
pub proof fn law_the_first_path_counts(
    before: Seq<ClauseView>,
    text: Seq<char>,
    after: Seq<ClauseView>,
)
    requires
        forall|i: int|
            0 <= i < before.len() ==> conditional_text(#[trigger] before[i]) is None && !(
            before[i] matches ClauseView::Value { name: Some(name), text: Some(_) } && name == seq![
                'p',
                'a',
                't',
                'h',
            ]),
        forall|i: int| 0 <= i < after.len() ==> conditional_text(#[trigger] after[i]) is None,
    ensures
        source_named_by(
            before.push(
                ClauseView::Value { name: Some(seq!['p', 'a', 't', 'h']), text: Some(text) },
            ) + after,
        ) == ModuleSourceView::Fixed(text),
        source_named_by(before) == ModuleSourceView::Default,
{
    reveal_strlit("path");
    assert("path"@ == seq!['p', 'a', 't', 'h']);
    let attr = ClauseView::Value { name: Some(seq!['p', 'a', 't', 'h']), text: Some(text) };
    let first = before.push(attr);
    lemma_no_path(before);
    assert(first.drop_last() == before);
    assert(first_path(first) == Some(text));
    assert((first + after).take(first.len() as int) == first);
    lemma_first_path_stays(first + after, first.len() as int);
    assert forall|i: int| 0 <= i < (first + after).len() implies conditional_text(
        #[trigger] (first + after)[i],
    ) is None by {
        if i < before.len() {
            assert((first + after)[i] == before[i]);
        } else if i > before.len() {
            assert((first + after)[i] == after[i - first.len()]);
        }
    }
    lemma_no_conditionals(first + after);
    lemma_no_conditionals(before);
}

proof fn lemma_no_path(attrs: Seq<ClauseView>)
    requires
        forall|i: int|
            0 <= i < attrs.len() ==> !((#[trigger] attrs[i]) matches ClauseView::Value {
                name: Some(name),
                text: Some(_),
            } && name == "path"@),
    ensures
        first_path(attrs) is None,
    decreases attrs.len(),
{
    if attrs.len() > 0 {
        let rest = attrs.drop_last();
        assert forall|i: int| 0 <= i < rest.len() implies !((
        #[trigger] rest[i]) matches ClauseView::Value { name: Some(name), text: Some(_) } && name
            == "path"@) by {
            assert(rest[i] == attrs[i]);
        }
        lemma_no_path(rest);
        let last = attrs[attrs.len() - 1];
        assert(!(last matches ClauseView::Value { name: Some(name), text: Some(_) } && name
            == "path"@));
    }
}

proof fn lemma_no_conditionals(attrs: Seq<ClauseView>)
    requires
        forall|i: int| 0 <= i < attrs.len() ==> conditional_text(#[trigger] attrs[i]) is None,
    ensures
        conditionals(attrs) == Seq::<Seq<char>>::empty(),
    decreases attrs.len(),
{
    if attrs.len() > 0 {
        let rest = attrs.drop_last();
        assert forall|i: int| 0 <= i < rest.len() implies conditional_text(
            #[trigger] rest[i],
        ) is None by {
            assert(rest[i] == attrs[i]);
        }
        lemma_no_conditionals(rest);
        assert(conditional_text(attrs[attrs.len() - 1]) is None);
    }
}

/// Every attribute that may apply a `path` under a condition is told, in order and as
/// its tokens read, and one of them outranks every plain `path`.
pub proof fn law_a_conditional_path_is_told(
    before: Seq<ClauseView>,
    attr: ClauseView,
    after: Seq<ClauseView>,
)
    ensures
        conditionals(before + after) == conditionals(before) + conditionals(after),
        conditionals(seq![attr]) == (match conditional_text(attr) {
            Some(text) => seq![text],
            None => Seq::<Seq<char>>::empty(),
        }),
        conditional_text(attr) is Some ==> source_named_by(before + seq![attr] + after)
            == ModuleSourceView::Conditional(
            text::joined(
                conditionals(before) + seq![conditional_text(attr)->Some_0] + conditionals(after),
                seq![' '],
            ),
        ),
    decreases after.len(),
{
    reveal_strlit(" ");
    assert(" "@ == seq![' ']);
    let none = Seq::<Seq<char>>::empty();
    assert(seq![attr].drop_last() == Seq::<ClauseView>::empty());
    assert(conditionals(seq![attr].drop_last()) == none);
    if conditional_text(attr) is Some {
        let text = conditional_text(attr)->Some_0;
        assert(none.push(text) == seq![text]);
    }
    lemma_conditionals_add(before, after);
    lemma_conditionals_add(before, seq![attr]);
    lemma_conditionals_add(before + seq![attr], after);
}

proof fn lemma_conditionals_add(a: Seq<ClauseView>, b: Seq<ClauseView>)
    ensures
        conditionals(a + b) == conditionals(a) + conditionals(b),
    decreases b.len(),
{
    if b.len() == 0 {
        assert(a + b == a);
        assert(conditionals(a) + conditionals(b) == conditionals(a));
    } else {
        assert((a + b).drop_last() == a + b.drop_last());
        assert((a + b).last() == b.last());
        lemma_conditionals_add(a, b.drop_last());
        assert(conditionals(a + b) == conditionals(a) + conditionals(b));
    }
}

/// An attribute may apply a `path` under a condition if it is a `cfg_attr` and one of
/// the attributes behind its condition is a `path`, or is itself such an attribute;
/// or if what it applies cannot be read. Nothing else may, and the condition itself
/// does not count.
pub proof fn law_what_may_apply_a_path(
    terms: Seq<ClauseView>,
    trailing: bool,
    tokens: Seq<char>,
    other: ClauseView,
)
    ensures
        ({
            let attr = ClauseView::List {
                name: Some(seq!['c', 'f', 'g', '_', 'a', 't', 't', 'r']),
                terms: Some(terms),
                trailing,
                tokens,
            };
            let unread = ClauseView::List {
                name: Some(seq!['c', 'f', 'g', '_', 'a', 't', 't', 'r']),
                terms: None,
                trailing,
                tokens,
            };
            &&& conditional_text(attr) is Some <==> exists|i: int|
                1 <= i < terms.len() && (name_of(#[trigger] terms[i]) == Some(
                    seq!['p', 'a', 't', 'h'],
                ) || conditional_text(terms[i]) is Some)
            &&& conditional_text(attr) matches Some(text) ==> text == "#[cfg_attr("@ + tokens
                + ")]"@
            &&& conditional_text(unread) == Some("#[cfg_attr("@ + tokens + ")]"@)
        }),
        name_of(other) != Some(seq!['c', 'f', 'g', '_', 'a', 't', 't', 'r']) || !(other is List)
            ==> conditional_text(other) is None,
{
    reveal_strlit("path");
    reveal_strlit("cfg_attr");
    assert("path"@ == seq!['p', 'a', 't', 'h']);
    assert("cfg_attr"@ == seq!['c', 'f', 'g', '_', 'a', 't', 't', 'r']);
    let attr = ClauseView::List {
        name: Some("cfg_attr"@),
        terms: Some(terms),
        trailing,
        tokens,
    };
    if may_supply_path(attr) {
        let i = choose|i: int|
            1 <= i < terms.len() && (name_of(#[trigger] terms[i]) == Some("path"@) || (name_of(
                terms[i],
            ) == Some("cfg_attr"@) && may_supply_path(terms[i])));
        assert(name_of(terms[i]) == Some("path"@) || conditional_text(terms[i]) is Some);
    }
    if exists|i: int|
        1 <= i < terms.len() && (name_of(#[trigger] terms[i]) == Some("path"@) || conditional_text(
            terms[i],
        ) is Some) {
        let i = choose|i: int|
            1 <= i < terms.len() && (name_of(#[trigger] terms[i]) == Some("path"@)
                || conditional_text(terms[i]) is Some);
        let seen = attr->List_terms->Some_0;
        assert(seen[i] == terms[i]);
        assert(name_of(seen[i]) == Some("path"@) || (name_of(seen[i]) == Some("cfg_attr"@)
            && may_supply_path(seen[i])));
        assert(may_supply_path(attr));
    }
}

/// A crate begins at its root, under its own name, and as product; a walk that has
/// not begun has nothing before it and knows no file.
pub proof fn law_a_crate_begins_at_its_root(
    walk: WalkView,
    style: Style,
    workspace_root: Seq<char>,
    root: Seq<char>,
    crate_ident: Seq<char>,
    identity: Seq<char>,
)
    ensures
        ({
            let begun = walk.begun(root, crate_ident);
            &&& begun.queue.len() == walk.queue.len() + 1
            &&& begun.queue.last().file == root
            &&& begun.queue.last().scope.segments == seq![crate_ident]
            &&& !begun.queue.last().scope.test_only
            &&& begun.queue.last().scope.style == walk.style
            &&& begun.queue.drop_last() == walk.queue
            &&& begun.workspace_root == walk.workspace_root
            &&& begun.visited == walk.visited
        }),
        ({
            let fresh = WalkView::new(style, workspace_root).begun(root, crate_ident);
            &&& fresh.queue.len() == 1
            &&& !fresh.knows(identity)
            &&& fresh.entered(identity).current == Some(fresh.queue[0])
            &&& fresh.workspace_root == workspace_root
            &&& fresh.style == style
        }),
{
    assert(walk.begun(root, crate_ident).queue.drop_last() == walk.queue);
}

/// A file that is wanted as product is entered unless it was entered as product, and
/// one that is wanted for tests unless it was entered at all. The file that is
/// entered is the one that waited first.
pub proof fn law_a_file_is_entered_unless_it_was(walk: WalkView, identity: Seq<char>)
    requires
        walk.queue.len() > 0,
    ensures
        walk.entered(identity).current is Some <==> !walk.visited.contains(identity) && (
        walk.queue[0].scope.test_only ==> !walk.visited_in_tests.contains(identity)),
        walk.entered(identity).current matches Some(pending) ==> pending == walk.queue[0],
        walk.entered(identity).queue == walk.queue.skip(1),
{
}

/// What a file declares is resolved in the scope in which the file waited, as what the
/// file is, with the file as the place that it is said of; and the files that it
/// declares wait from then on.
pub proof fn law_a_file_declares_in_its_scope(
    walk: WalkView,
    file: FileView,
    present: Seq<Seq<char>>,
)
    requires
        walk.current is Some,
    ensures
        ({
            let waited = walk.current->Some_0;
            let scope = walk.scope_in(file);
            &&& scope.segments == waited.scope.segments
            &&& scope.dir == waited.scope.dir
            &&& scope.relative == waited.scope.relative
            &&& scope.style == waited.scope.style
            &&& scope.test_only <==> waited.scope.test_only || product::test_only_file(file)
            &&& walk.declares(file, present) == declared(
                file.nodes,
                scope,
                PlaceView { workspace_root: walk.workspace_root, file: waited.file, present },
            )
            &&& walk.advanced(file, present).queue == walk.queue + walk.declares(
                file,
                present,
            ).files
            &&& walk.advanced(file, present).current is None
            &&& walk.advanced(file, present).visited == walk.visited
            &&& walk.advanced(file, present).visited_in_tests == walk.visited_in_tests
        }),
{
}

/// The paths that are probed are the candidates of the modules that are declared,
/// wherever they stand, and no others.
pub proof fn law_candidates_are_probed(
    node: NodeView,
    attrs: Seq<ClauseView>,
    name: Seq<char>,
    line: usize,
    column: usize,
    inline: bool,
    a: Seq<NodeView>,
    b: Seq<NodeView>,
    scope: ScopeView,
)
    requires
        node.head == (HeadView::Item {
            attrs,
            definition: DefinitionView::Module { name, line, column, inline },
        }),
    ensures
        probes(a + b, scope) == probes(a, scope) + probes(b, scope),
        !inline && source_named_by(attrs) is Default ==> probes(seq![node], scope) == candidates(
            name,
            None,
            scope,
        ),
        !inline ==> (source_named_by(attrs) matches ModuleSourceView::Fixed(text) ==> probes(
            seq![node],
            scope,
        ) == candidates(name, Some(text), scope)),
        source_named_by(attrs) is Conditional ==> probes(seq![node], scope) == Seq::<
            Seq<char>,
        >::empty(),
    decreases b.len(),
{
    let none = Seq::<Seq<char>>::empty();
    let here = scope.within(product::test_only(attrs));
    assert(seq![node].drop_last() == Seq::<NodeView>::empty());
    assert(probes(seq![node].drop_last(), scope) == none);
    assert(none + probes_of(node, scope) == probes_of(node, scope));
    assert(candidates(name, None, here) == candidates(name, None, scope));
    assert(here.module_dir() == scope.module_dir());
    if b.len() == 0 {
        assert(a + b == a);
        assert(probes(a, scope) + probes(b, scope) == probes(a, scope));
    } else {
        assert((a + b).drop_last() == a + b.drop_last());
        assert((a + b).last() == b.last());
        law_candidates_are_probed(
            node,
            attrs,
            name,
            line,
            column,
            inline,
            a,
            b.drop_last(),
            scope,
        );
        assert((probes(a, scope) + probes(b.drop_last(), scope)) + probes_of(b.last(), scope)
            == probes(a, scope) + (probes(b.drop_last(), scope) + probes_of(b.last(), scope)));
    }
}

/// Where a `path` attribute leads depends on the directory of its scope and on its text
/// alone: neither on the name of the module, nor on the modules around it, nor on the
/// directory named after the file.
pub proof fn law_a_path_attribute_needs_no_name(
    name: Seq<char>,
    other: Seq<char>,
    scope: ScopeView,
    elsewhere: ScopeView,
    text: Seq<char>,
)
    requires
        scope.dir == elsewhere.dir,
        scope.style == elsewhere.style,
    ensures
        candidates(name, Some(text), scope) == candidates(other, Some(text), elsewhere),
        candidates(name, Some(text), scope).len() == 1,
        candidates(name, Some(text), scope)[0] == path::joined_in(scope.style, scope.dir, text),
{
}

} // verus!
