//! Where coverage comes from, and what a coverage command that was run means.
//!
//! Nothing is run here: a command is resolved to a program and its arguments,
//! and what came of running it is turned into success or an error.

use vstd::prelude::*;

use crate::diagnostic::{Diagnostic, DiagnosticView, Kind, KindView};
use crate::text;

verus! {

/// The token that stands for the LCOV output path in a coverage command.
pub const LCOV_PLACEHOLDER: &'static str = "{lcov}";

/// Where a coverage run leaves its LCOV artifact.
pub const DEFAULT_LCOV_PATH: &'static str = "target/crap4rust/coverage.lcov";

/// What to do where coverage tooling is missing.
pub const HINT: &'static str =
    "install it (`cargo install cargo-llvm-cov`) or run coverage yourself and pass the LCOV file with --lcov-path";

/// A coverage command: a program and its arguments, without a shell.
#[derive(Debug, PartialEq, Eq)]
pub struct CoverageCommand {
    /// The program.
    pub program: String,
    /// Its arguments.
    pub args: Vec<String>,
}

/// What a `CoverageCommand` holds.
#[verifier::ext_equal]
pub struct CommandView {
    /// See `CoverageCommand::program`.
    pub program: Seq<char>,
    /// See `CoverageCommand::args`.
    pub args: Seq<Seq<char>>,
}

impl View for CoverageCommand {
    type V = CommandView;

    open spec fn view(&self) -> CommandView {
        CommandView { program: self.program@, args: text::views(self.args@) }
    }
}

impl CommandView {
    /// The command that is run where none is given.
    pub open spec fn cargo_llvm_cov(lcov_path: Seq<char>) -> CommandView {
        CommandView {
            program: "cargo"@,
            args: seq!["llvm-cov"@, "--lcov"@, "--output-path"@, lcov_path],
        }
    }

    /// The command that a text spells: its words, in each of which the token is
    /// replaced by the output path. A text without a word spells none.
    pub open spec fn parse(spelled: Seq<char>, lcov_path: Seq<char>) -> Option<CommandView> {
        let words = text::words(spelled).map_values(
            |word: Seq<char>| text::replaced(word, LCOV_PLACEHOLDER@, lcov_path),
        );
        if words.len() == 0 {
            None
        } else {
            Some(CommandView { program: words[0], args: words.skip(1) })
        }
    }

    /// The command as it is shown: the program and its arguments, with a space
    /// in front of each argument.
    pub open spec fn rendered(self) -> Seq<char> {
        text::joined(seq![self.program] + self.args, " "@)
    }
}

impl CoverageCommand {
    /// The command that is run where none is given: it writes LCOV to
    /// `lcov_path`.
    pub fn cargo_llvm_cov(lcov_path: &str) -> (out: CoverageCommand)
        ensures
            out@ == CommandView::cargo_llvm_cov(lcov_path@),
    {
        let mut args: Vec<String> = Vec::new();
        args.push("llvm-cov".to_owned());
        args.push("--lcov".to_owned());
        args.push("--output-path".to_owned());
        args.push(lcov_path.to_owned());
        assert(text::views(args@) == seq!["llvm-cov"@, "--lcov"@, "--output-path"@, lcov_path@]);
        CoverageCommand { program: "cargo".to_owned(), args }
    }

    /// Parses a command: splits it on white space, then replaces the token in
    /// each word. So a path with spaces stays one argument. A blank text has no
    /// program.
    pub fn parse(spelled: &str, lcov_path: &str) -> (out: Option<CoverageCommand>)
        ensures
            match out {
                Some(command) => CommandView::parse(spelled@, lcov_path@) == Some(command@),
                None => CommandView::parse(spelled@, lcov_path@) is None,
            },
    {
        let words = text::words_of(spelled);
        let ghost all = text::words(spelled@).map_values(
            |word: Seq<char>| text::replaced(word, LCOV_PLACEHOLDER@, lcov_path@),
        );
        proof {
            reveal_strlit("{lcov}");
        }
        if words.len() == 0 {
            return None;
        }
        assert(text::words(spelled@)[0] == words@[0]@);
        let program = text::replace(&words[0], LCOV_PLACEHOLDER, lcov_path);
        let mut args: Vec<String> = Vec::new();
        let mut i: usize = 1;
        while i < words.len()
            invariant
                1 <= i <= words.len(),
                LCOV_PLACEHOLDER@.len() > 0,
                text::views(words@) == text::words(spelled@),
                all == text::words(spelled@).map_values(
                    |word: Seq<char>| text::replaced(word, LCOV_PLACEHOLDER@, lcov_path@),
                ),
                text::views(args@) == all.subrange(1, i as int),
            decreases words.len() - i,
        {
            let ghost before = args@;
            assert(text::words(spelled@)[i as int] == words@[i as int]@);
            args.push(text::replace(&words[i], LCOV_PLACEHOLDER, lcov_path));
            assert(text::views(args@) == text::views(before).push(all[i as int]));
            i += 1;
        }
        assert(all.subrange(1, i as int) == all.skip(1));
        Some(CoverageCommand { program, args })
    }

    /// The command as it is shown. It is informational, not to be fed to a
    /// shell.
    pub fn to_string(&self) -> (out: String)
        ensures
            out@ == self@.rendered(),
    {
        let ghost parts = seq![self.program@] + text::views(self.args@);
        let mut out = self.program.clone();
        let mut i: usize = 0;
        assert(parts.take(1) == seq![self.program@]);
        while i < self.args.len()
            invariant
                i <= self.args.len(),
                parts == seq![self.program@] + text::views(self.args@),
                out@ == text::joined(parts.take(i + 1), " "@),
            decreases self.args.len() - i,
        {
            assert(parts.take(i + 2).drop_last() == parts.take(i + 1));
            assert(parts.take(i + 2).last() == self.args@[i as int]@);
            out.append(" ");
            out.append(&self.args[i]);
            i += 1;
        }
        assert(parts.take(i + 1) == parts);
        out
    }
}

/// An LCOV artifact that a coverage run leaves, and that may therefore be
/// removed before one. A profile that was given is none.
#[derive(Debug, PartialEq, Eq)]
pub struct GeneratedArtifact {
    path: String,
}

impl View for GeneratedArtifact {
    type V = Seq<char>;

    closed spec fn view(&self) -> Seq<char> {
        self.path@
    }
}

impl GeneratedArtifact {
    /// Where the coverage command must leave its LCOV.
    pub fn path(&self) -> (out: &str)
        ensures
            out@ == self@,
    {
        self.path.as_str()
    }
}

/// Where the LCOV of a run comes from.
#[derive(Debug, PartialEq, Eq)]
pub enum CoverageSource {
    /// A profile that was given: read as it is, never written, never removed.
    Existing(String),
    /// A command that must leave LCOV at the artifact.
    Generated { command: CoverageCommand, artifact: GeneratedArtifact },
}

/// What a `CoverageSource` says.
#[verifier::ext_equal]
pub enum SourceView {
    /// See `CoverageSource::Existing`.
    Existing(Seq<char>),
    /// See `CoverageSource::Generated`.
    Generated { command: CommandView, artifact: Seq<char> },
}

impl View for CoverageSource {
    type V = SourceView;

    open spec fn view(&self) -> SourceView {
        match self {
            CoverageSource::Existing(path) => SourceView::Existing(path@),
            CoverageSource::Generated { command, artifact } => SourceView::Generated {
                command: command@,
                artifact: artifact@,
            },
        }
    }
}

/// The text of an optional string slice.
pub open spec fn optional_text(text: Option<&str>) -> Option<Seq<char>> {
    match text {
        Some(text) => Some(text@),
        None => None,
    }
}

/// Where coverage comes from: a profile that is given wins outright; else a
/// command that is given and not blank is run; else the default one.
pub open spec fn source_of(
    lcov_path: Option<Seq<char>>,
    test_command: Option<Seq<char>>,
) -> SourceView {
    match lcov_path {
        Some(path) => SourceView::Existing(path),
        None => SourceView::Generated {
            command: match test_command {
                Some(spelled) => match CommandView::parse(spelled, DEFAULT_LCOV_PATH@) {
                    Some(command) => command,
                    None => CommandView::cargo_llvm_cov(DEFAULT_LCOV_PATH@),
                },
                None => CommandView::cargo_llvm_cov(DEFAULT_LCOV_PATH@),
            },
            artifact: DEFAULT_LCOV_PATH@,
        },
    }
}

/// What there is to say about where coverage comes from, before anything is
/// run: that a command is ignored, or that it must write the artifact itself.
pub open spec fn advice_of(
    lcov_path: Option<Seq<char>>,
    test_command: Option<Seq<char>>,
) -> Seq<DiagnosticView> {
    match (lcov_path, test_command) {
        (Some(_), Some(_)) => seq![DiagnosticView::config(KindView::IgnoredTestCommand)],
        (None, Some(spelled)) => if text::occurs(spelled, LCOV_PLACEHOLDER@) {
            Seq::empty()
        } else {
            seq![
                DiagnosticView::config(
                    KindView::TestCommandWithoutLcovToken {
                        token: LCOV_PLACEHOLDER@,
                        artifact: DEFAULT_LCOV_PATH@,
                    },
                ),
            ]
        },
        (_, None) => Seq::empty(),
    }
}

impl CoverageSource {
    /// Resolves where coverage comes from, and what there is to say about it.
    pub fn resolve(lcov_path: Option<String>, test_command: Option<&str>) -> (out: (
        CoverageSource,
        Vec<Diagnostic>,
    ))
        ensures
            out.0@ == source_of(
                crate::syntax::optional(lcov_path),
                optional_text(test_command),
            ),
            crate::diagnostic::diagnostics_view(out.1@) == advice_of(
                crate::syntax::optional(lcov_path),
                optional_text(test_command),
            ),
    {
        let mut advice: Vec<Diagnostic> = Vec::new();
        assert(crate::diagnostic::diagnostics_view(advice@) == Seq::<DiagnosticView>::empty());
        match lcov_path {
            Some(path) => {
                if test_command.is_some() {
                    advice.push(Diagnostic::config(Kind::IgnoredTestCommand));
                    assert(crate::diagnostic::diagnostics_view(advice@) == seq![
                        DiagnosticView::config(KindView::IgnoredTestCommand),
                    ]);
                }
                (CoverageSource::Existing(path), advice)
            },
            None => {
                let artifact = GeneratedArtifact { path: DEFAULT_LCOV_PATH.to_owned() };
                let given = match test_command {
                    Some(spelled) => CoverageCommand::parse(spelled, artifact.path()),
                    None => None,
                };
                let command = match given {
                    Some(command) => command,
                    None => CoverageCommand::cargo_llvm_cov(artifact.path()),
                };
                match test_command {
                    Some(spelled) => {
                        if !text::contains(spelled, LCOV_PLACEHOLDER) {
                            advice.push(
                                Diagnostic::config(
                                    Kind::TestCommandWithoutLcovToken {
                                        token: LCOV_PLACEHOLDER,
                                        artifact: DEFAULT_LCOV_PATH.to_owned(),
                                    },
                                ),
                            );
                            assert(crate::diagnostic::diagnostics_view(advice@) == seq![
                                DiagnosticView::config(
                                    KindView::TestCommandWithoutLcovToken {
                                        token: LCOV_PLACEHOLDER@,
                                        artifact: DEFAULT_LCOV_PATH@,
                                    },
                                ),
                            ]);
                        }
                    },
                    None => {},
                }
                (CoverageSource::Generated { command, artifact }, advice)
            },
        }
    }

    /// The path that LCOV is read from once it exists.
    pub fn lcov_path(&self) -> (out: &str)
        ensures
            out@ == (match self@ {
                SourceView::Existing(path) => path,
                SourceView::Generated { artifact, .. } => artifact,
            }),
    {
        match self {
            CoverageSource::Existing(path) => path.as_str(),
            CoverageSource::Generated { artifact, .. } => artifact.path(),
        }
    }
}

/// What came of running a command.
#[derive(Debug, PartialEq, Eq)]
pub enum Outcome {
    /// There is no such program.
    NotFound,
    /// It could not be started for another reason.
    NotStarted,
    /// It ran to its end.
    Finished {
        /// Whether it reported success.
        success: bool,
        /// The status that it reported, as it is shown.
        status: String,
        /// What it wrote to its error stream.
        stderr: String,
    },
}

/// Why a coverage run failed.
#[derive(Debug, PartialEq, Eq)]
pub enum CoverageRunError {
    /// There is no such program, whether a name or a path was given.
    NotFound { command: String },
    /// The program reported failure.
    Failed { command: String, status: String, stderr: String },
    /// The program could not be started for another reason.
    Spawn { command: String },
    /// The program reported success and left no artifact.
    NoArtifact { command: String, artifact: String },
}

/// What a `CoverageRunError` says.
#[verifier::ext_equal]
pub enum RunErrorView {
    /// See `CoverageRunError::NotFound`.
    NotFound { command: Seq<char> },
    /// See `CoverageRunError::Failed`.
    Failed { command: Seq<char>, status: Seq<char>, stderr: Seq<char> },
    /// See `CoverageRunError::Spawn`.
    Spawn { command: Seq<char> },
    /// See `CoverageRunError::NoArtifact`.
    NoArtifact { command: Seq<char>, artifact: Seq<char> },
}

impl View for CoverageRunError {
    type V = RunErrorView;

    open spec fn view(&self) -> RunErrorView {
        match self {
            CoverageRunError::NotFound { command } => RunErrorView::NotFound { command: command@ },
            CoverageRunError::Failed { command, status, stderr } => RunErrorView::Failed {
                command: command@,
                status: status@,
                stderr: stderr@,
            },
            CoverageRunError::Spawn { command } => RunErrorView::Spawn { command: command@ },
            CoverageRunError::NoArtifact { command, artifact } => RunErrorView::NoArtifact {
                command: command@,
                artifact: artifact@,
            },
        }
    }
}

impl RunErrorView {
    /// The words of the error. Each names the way out: a profile of one's own.
    pub open spec fn message(self) -> Seq<char> {
        match self {
            RunErrorView::NotFound { command } => "coverage command `"@ + command
                + "` could not be found; "@ + HINT@,
            RunErrorView::Failed { command, status, stderr } => "coverage command `"@ + command
                + "` failed ("@ + status + ")\n"@ + stderr
                + "\nif coverage tooling is unavailable, "@ + HINT@,
            RunErrorView::Spawn { command } => "failed to run coverage command `"@ + command
                + "`; "@ + HINT@,
            RunErrorView::NoArtifact { command, artifact } => "coverage command `"@ + command
                + "` succeeded but produced no LCOV file at "@ + artifact
                + "; have it write LCOV there (the `"@ + LCOV_PLACEHOLDER@
                + "` token expands to that path), or pass an existing profile with --lcov-path"@,
        }
    }
}

impl CoverageRunError {
    /// The words of the error.
    pub fn to_string(&self) -> (out: String)
        ensures
            out@ == self@.message(),
    {
        match self {
            CoverageRunError::NotFound { command } => {
                let mut out = "coverage command `".to_owned();
                out.append(command);
                out.append("` could not be found; ");
                out.append(HINT);
                out
            },
            CoverageRunError::Failed { command, status, stderr } => {
                let mut out = "coverage command `".to_owned();
                out.append(command);
                out.append("` failed (");
                out.append(status);
                out.append(")\n");
                out.append(stderr);
                out.append("\nif coverage tooling is unavailable, ");
                out.append(HINT);
                out
            },
            CoverageRunError::Spawn { command } => {
                let mut out = "failed to run coverage command `".to_owned();
                out.append(command);
                out.append("`; ");
                out.append(HINT);
                out
            },
            CoverageRunError::NoArtifact { command, artifact } => {
                let mut out = "coverage command `".to_owned();
                out.append(command);
                out.append("` succeeded but produced no LCOV file at ");
                out.append(artifact);
                out.append("; have it write LCOV there (the `");
                out.append(LCOV_PLACEHOLDER);
                out.append(
                    "` token expands to that path), or pass an existing profile with --lcov-path",
                );
                out
            },
        }
    }
}

/// What the outcome of a run means: nothing is wrong exactly if it ran to its
/// end and reported success. An error stream is quoted without the white space
/// at its end.
pub open spec fn run_error(command: CommandView, outcome: Outcome) -> Option<RunErrorView> {
    match outcome {
        Outcome::NotFound => Some(RunErrorView::NotFound { command: command.rendered() }),
        Outcome::NotStarted => Some(RunErrorView::Spawn { command: command.rendered() }),
        Outcome::Finished { success, status, stderr } => if success {
            None
        } else {
            Some(
                RunErrorView::Failed {
                    command: command.rendered(),
                    status: status@,
                    stderr: text::trimmed_end(stderr@),
                },
            )
        },
    }
}

/// Turns what came of running a command into success or an error.
pub fn run_with(command: &CoverageCommand, outcome: &Outcome) -> (out: Result<(), CoverageRunError>)
    ensures
        match out {
            Ok(_) => run_error(command@, *outcome) is None,
            Err(error) => run_error(command@, *outcome) == Some(error@),
        },
{
    match outcome {
        Outcome::NotFound => Err(CoverageRunError::NotFound { command: command.to_string() }),
        Outcome::NotStarted => Err(CoverageRunError::Spawn { command: command.to_string() }),
        Outcome::Finished { success, status, stderr } => {
            if *success {
                Ok(())
            } else {
                Err(
                    CoverageRunError::Failed {
                        command: command.to_string(),
                        status: status.clone(),
                        stderr: text::trim_end(stderr),
                    },
                )
            }
        },
    }
}

/// Requires the artifact after a run that reported success: one that is not
/// there is an error, never whatever lay there before.
pub fn require_artifact(
    command: &CoverageCommand,
    artifact: &GeneratedArtifact,
    exists: bool,
) -> (out: Result<(), CoverageRunError>)
    ensures
        match out {
            Ok(_) => exists,
            Err(error) => !exists && error@ == (RunErrorView::NoArtifact {
                command: command@.rendered(),
                artifact: artifact@,
            }),
        },
{
    if exists {
        Ok(())
    } else {
        Err(
            CoverageRunError::NoArtifact {
                command: command.to_string(),
                artifact: artifact.path().to_owned(),
            },
        )
    }
}

/// What is to be done next to get hold of a profile.
#[derive(Debug, Clone, Copy, PartialEq, Eq)]
pub enum Task {
    /// Make the directory of the artifact, and remove the artifact.
    Clear,
    /// Run the command to its end.
    Execute,
    /// Look whether the artifact is there.
    Look,
    /// Read the profile.
    Read,
}

/// What came of a task.
#[derive(Debug, PartialEq, Eq)]
pub enum Event {
    /// There is no artifact, and there is a directory for it.
    Cleared,
    /// The command was run.
    Ran(Outcome),
    /// It was looked for the artifact.
    Looked { exists: bool },
}

impl SourceView {
    /// What is to be done first: a profile that is given is read, and one that
    /// is to be made is removed before that.
    pub open spec fn first_task(self) -> Task {
        match self {
            SourceView::Existing(_) => Task::Read,
            SourceView::Generated { .. } => Task::Clear,
        }
    }

    /// What is to be done after a task, given what came of it. What does not
    /// come of the task changes nothing.
    pub open spec fn next_task(self, task: Task, event: Event) -> Result<Task, RunErrorView> {
        match (self, task, event) {
            (SourceView::Generated { .. }, Task::Clear, Event::Cleared) => Ok(Task::Execute),
            (
                SourceView::Generated { command, .. },
                Task::Execute,
                Event::Ran(outcome),
            ) => match run_error(command, outcome) {
                None => Ok(Task::Look),
                Some(error) => Err(error),
            },
            (
                SourceView::Generated { command, artifact },
                Task::Look,
                Event::Looked { exists },
            ) => if exists {
                Ok(Task::Read)
            } else {
                Err(RunErrorView::NoArtifact { command: command.rendered(), artifact })
            },
            _ => Ok(task),
        }
    }

    /// What is to be done after several events, or the error that ended it.
    pub open spec fn task_after(self, events: Seq<Event>) -> Result<Task, RunErrorView>
        decreases events.len(),
    {
        if events.len() == 0 {
            Ok(self.first_task())
        } else {
            match self.task_after(events.drop_last()) {
                Ok(task) => self.next_task(task, events.last()),
                Err(error) => Err(error),
            }
        }
    }
}

impl CoverageSource {
    /// What is to be done first to get hold of the profile.
    pub fn first_task(&self) -> (out: Task)
        ensures
            out == self@.first_task(),
    {
        match self {
            CoverageSource::Existing(_) => Task::Read,
            CoverageSource::Generated { .. } => Task::Clear,
        }
    }

    /// What is to be done after a task, given what came of it.
    ///
    /// The artifact is removed before the command is run and must be there after
    /// it, so that what is read can only be what this run made. A profile that
    /// was given is only ever read.
    pub fn next_task(&self, task: Task, event: &Event) -> (out: Result<Task, CoverageRunError>)
        ensures
            match out {
                Ok(next) => self@.next_task(task, *event) == Ok::<Task, RunErrorView>(next),
                Err(error) => self@.next_task(task, *event) == Err::<Task, RunErrorView>(error@),
            },
    {
        match self {
            CoverageSource::Existing(_) => Ok(task),
            CoverageSource::Generated { command, artifact } => match (task, event) {
                (Task::Clear, Event::Cleared) => Ok(Task::Execute),
                (Task::Execute, Event::Ran(outcome)) => match run_with(command, outcome) {
                    Ok(_) => Ok(Task::Look),
                    Err(error) => Err(error),
                },
                (Task::Look, Event::Looked { exists }) => match require_artifact(
                    command,
                    artifact,
                    *exists,
                ) {
                    Ok(_) => Ok(Task::Read),
                    Err(error) => Err(error),
                },
                _ => Ok(task),
            },
        }
    }
}

/// Whether the artifact was removed by the event at `i`.
pub open spec fn cleared_at(events: Seq<Event>, i: int) -> bool {
    0 <= i < events.len() && events[i] is Cleared
}

/// Whether the command succeeded by the event at `j`, after the artifact was
/// removed at `i`.
pub open spec fn made_at(command: CommandView, events: Seq<Event>, i: int, j: int) -> bool {
    &&& cleared_at(events, i)
    &&& i < j < events.len()
    &&& match events[j] {
        Event::Ran(outcome) => run_error(command, outcome) is None,
        _ => false,
    }
}

/// Whether the artifact was there at `k`, after the command succeeded at `j` and
/// the artifact was removed at `i`.
pub open spec fn found_at(
    command: CommandView,
    events: Seq<Event>,
    i: int,
    j: int,
    k: int,
) -> bool {
    made_at(command, events, i, j) && j < k < events.len() && events[k] == (Event::Looked {
        exists: true,
    })
}

proof fn lemma_tasks_in_turn(command: CommandView, artifact: Seq<char>, events: Seq<Event>)
    ensures
        match (SourceView::Generated { command, artifact }).task_after(events) {
            Ok(Task::Execute) => exists|i: int| #[trigger] cleared_at(events, i),
            Ok(Task::Look) => exists|i: int, j: int| #[trigger] made_at(command, events, i, j),
            Ok(Task::Read) => exists|i: int, j: int, k: int| #[trigger]
                found_at(command, events, i, j, k),
            _ => true,
        },
    decreases events.len(),
{
    let source = SourceView::Generated { command, artifact };
    if events.len() > 0 {
        let rest = events.drop_last();
        let n = rest.len() as int;
        lemma_tasks_in_turn(command, artifact, rest);
        match source.task_after(rest) {
            Ok(Task::Clear) => {
                if events.last() is Cleared {
                    assert(cleared_at(events, n));
                }
            },
            Ok(Task::Execute) => {
                let i = choose|i: int| #[trigger] cleared_at(rest, i);
                assert(cleared_at(events, i));
                if source.task_after(events) == Ok::<Task, RunErrorView>(Task::Look) {
                    assert(made_at(command, events, i, n));
                }
            },
            Ok(Task::Look) => {
                let (i, j) = choose|i: int, j: int| #[trigger] made_at(command, rest, i, j);
                assert(made_at(command, events, i, j));
                if source.task_after(events) == Ok::<Task, RunErrorView>(Task::Read) {
                    assert(found_at(command, events, i, j, n));
                }
            },
            Ok(Task::Read) => {
                let (i, j, k) = choose|i: int, j: int, k: int| #[trigger]
                    found_at(command, rest, i, j, k);
                assert(found_at(command, events, i, j, k));
            },
            Err(_) => {},
        }
    }
}

/// An artifact that lay there before is never read: where a profile that is to
/// be made is read, the artifact was removed, after that the command succeeded,
/// and after that the artifact was there.
pub proof fn law_a_stale_artifact_is_never_read(
    command: CommandView,
    artifact: Seq<char>,
    events: Seq<Event>,
)
    requires
        (SourceView::Generated { command, artifact }).task_after(events) == Ok::<
            Task,
            RunErrorView,
        >(Task::Read),
    ensures
        exists|i: int, j: int, k: int| #[trigger] found_at(command, events, i, j, k),
{
    lemma_tasks_in_turn(command, artifact, events);
}

/// A profile that was given is only read: whatever happens, nothing is removed
/// and nothing is run.
pub proof fn law_a_given_profile_is_only_read(path: Seq<char>, events: Seq<Event>)
    ensures
        SourceView::Existing(path).task_after(events) == Ok::<Task, RunErrorView>(Task::Read),
    decreases events.len(),
{
    if events.len() > 0 {
        law_a_given_profile_is_only_read(path, events.drop_last());
    }
}

/// A profile that is given wins over any command: nothing is run.
pub proof fn law_a_given_profile_wins(path: Seq<char>, test_command: Option<Seq<char>>)
    ensures
        source_of(Some(path), test_command) == SourceView::Existing(path),
{
}

/// A blank command counts as none.
pub proof fn law_a_blank_command_counts_as_none(spelled: Seq<char>)
    requires
        text::words(spelled).len() == 0,
    ensures
        source_of(None, Some(spelled)) == source_of(None, None),
{
}

/// A command has as many parts as its text has words, whatever the output path
/// holds: a path with spaces stays within one argument.
pub proof fn law_an_output_path_is_never_split(spelled: Seq<char>, lcov_path: Seq<char>)
    ensures
        match CommandView::parse(spelled, lcov_path) {
            Some(command) => 1 + command.args.len() == text::words(spelled).len(),
            None => text::words(spelled).len() == 0,
        },
{
}

/// A run went well exactly if the command ran to its end and reported success. Any
/// other outcome is told with the command, and a failure with its status and with
/// what was written to the error stream.
pub proof fn law_only_success_is_success(command: CommandView, outcome: Outcome)
    ensures
        run_error(command, outcome) is None <==> (outcome matches Outcome::Finished {
            success,
            ..
        } && success),
        outcome is NotFound ==> run_error(command, outcome) == Some(
            RunErrorView::NotFound { command: command.rendered() },
        ),
        outcome is NotStarted ==> run_error(command, outcome) == Some(
            RunErrorView::Spawn { command: command.rendered() },
        ),
        outcome matches Outcome::Finished { success, status, stderr } ==> (!success ==> run_error(
            command,
            outcome,
        ) == Some(
            RunErrorView::Failed {
                command: command.rendered(),
                status: status@,
                stderr: text::trimmed_end(stderr@),
            },
        )),
{
}

/// The way to a profile that is to be made: the artifact is removed, then the command
/// is run, then the artifact is looked for, then it is read. A failure of the command
/// ends it, and so does an artifact that is not there.
pub proof fn law_the_way_to_a_profile(
    command: CommandView,
    artifact: Seq<char>,
    outcome: Outcome,
    exists: bool,
)
    ensures
        ({
            let source = SourceView::Generated { command, artifact };
            let none = Seq::<Event>::empty();
            let cleared = none.push(Event::Cleared);
            let ran = cleared.push(Event::Ran(outcome));
            let looked = ran.push(Event::Looked { exists });
            &&& source.task_after(none) == Ok::<Task, RunErrorView>(Task::Clear)
            &&& source.task_after(cleared) == Ok::<Task, RunErrorView>(Task::Execute)
            &&& match run_error(command, outcome) {
                Some(error) => source.task_after(ran) == Err::<Task, RunErrorView>(error)
                    && source.task_after(looked) == Err::<Task, RunErrorView>(error),
                None => source.task_after(ran) == Ok::<Task, RunErrorView>(Task::Look) && (if exists {
                    source.task_after(looked) == Ok::<Task, RunErrorView>(Task::Read)
                } else {
                    source.task_after(looked) == Err::<Task, RunErrorView>(
                        RunErrorView::NoArtifact { command: command.rendered(), artifact },
                    )
                }),
            }
        }),
{
    let none = Seq::<Event>::empty();
    let cleared = none.push(Event::Cleared);
    let ran = cleared.push(Event::Ran(outcome));
    let looked = ran.push(Event::Looked { exists });
    assert(cleared.drop_last() == none);
    assert(ran.drop_last() == cleared);
    assert(looked.drop_last() == ran);
    let source = SourceView::Generated { command, artifact };
    assert(source.task_after(none) == Ok::<Task, RunErrorView>(Task::Clear));
    assert(source.task_after(cleared) == source.next_task(Task::Clear, Event::Cleared));
    assert(source.task_after(ran) == source.next_task(Task::Execute, Event::Ran(outcome)));
}

/// A command is spelled word by word: the first word is the program, and each further
/// one an argument, with the output path for the token wherever it stands.
pub proof fn law_a_command_is_spelled_word_by_word(
    spelled: Seq<char>,
    blank: char,
    word: Seq<char>,
    path: Seq<char>,
)
    requires
        text::is_white(blank),
        word.len() > 0,
        forall|i: int| 0 <= i < word.len() ==> !text::is_white(#[trigger] word[i]),
    ensures
        ({
            let part = text::replaced(word, seq!['{', 'l', 'c', 'o', 'v', '}'], path);
            match CommandView::parse(spelled, path) {
                None => CommandView::parse(spelled.push(blank) + word, path) == Some(
                    CommandView { program: part, args: Seq::empty() },
                ),
                Some(command) => CommandView::parse(spelled.push(blank) + word, path) == Some(
                    CommandView { program: command.program, args: command.args.push(part) },
                ),
            }
        }),
{
    reveal_strlit("{lcov}");
    assert(LCOV_PLACEHOLDER@ == seq!['{', 'l', 'c', 'o', 'v', '}']);
    let fill = |word: Seq<char>| text::replaced(word, LCOV_PLACEHOLDER@, path);
    let known = text::words(spelled);
    text::law_words_stand_between_white_space(spelled, blank, word);
    text::law_words_stand_between_white_space(word, blank, word);
    let all = text::words(spelled.push(blank) + word);
    assert(all == known + seq![word]);
    assert(all.map_values(fill) == known.map_values(fill).push(fill(word)));
    if known.len() == 0 {
        assert(all.map_values(fill).skip(1) == Seq::<Seq<char>>::empty());
    } else {
        assert(all.map_values(fill).skip(1) == known.map_values(fill).skip(1).push(fill(word)));
    }
}

/// Where no profile is given, the artifact is made by a command that is told where to
/// leave it: the one that is given if it has a word, and else the default, whose last
/// argument is the artifact.
pub proof fn law_a_command_makes_the_artifact(spelled: Option<Seq<char>>)
    ensures
        source_of(None, spelled) is Generated,
        source_of(None, spelled)->artifact == DEFAULT_LCOV_PATH@,
        ({
            let source = source_of(None, spelled);
            match spelled {
                Some(text) if CommandView::parse(text, source->artifact) is Some => source->command
                    == CommandView::parse(text, source->artifact)->Some_0,
                _ => source->command.args.last() == source->artifact && source->command.program
                    == "cargo"@,
            }
        }),
{
}

/// What is said before a run: that a command is ignored where a profile is given, and
/// that a command must write the artifact itself where the token does not stand in
/// it. Nothing else is said, and without a command nothing at all.
pub proof fn law_what_is_said_of_a_command(
    path: Option<Seq<char>>,
    a: Seq<char>,
    b: Seq<char>,
    spelled: Seq<char>,
)
    ensures
        advice_of(path, None) == Seq::<DiagnosticView>::empty(),
        path is Some ==> advice_of(path, Some(spelled)) == seq![
            DiagnosticView::config(KindView::IgnoredTestCommand),
        ],
        advice_of(None, Some(a + seq!['{', 'l', 'c', 'o', 'v', '}'] + b)) == Seq::<
            DiagnosticView,
        >::empty(),
        ({
            let token = seq!['{', 'l', 'c', 'o', 'v', '}'];
            (forall|x: Seq<char>, y: Seq<char>| #[trigger] (x + token + y) != spelled)
                ==> advice_of(None, Some(spelled)) == seq![
                DiagnosticView::config(
                    KindView::TestCommandWithoutLcovToken { token, artifact: DEFAULT_LCOV_PATH@ },
                ),
            ]
        }),
{
    reveal_strlit("{lcov}");
    let token = seq!['{', 'l', 'c', 'o', 'v', '}'];
    assert(LCOV_PLACEHOLDER@ == token);
    text::law_what_stands_in_a_text_occurs(a, token, b);
    text::law_what_stands_in_a_text_occurs(spelled, token, b);
}

/// A command is shown with a space in front of every argument.
pub proof fn law_a_command_is_shown_in_order(command: CommandView, arg: Seq<char>)
    ensures
        command.args.len() == 0 ==> command.rendered() == command.program,
        (CommandView { program: command.program, args: command.args.push(arg) }).rendered()
            == command.rendered().push(' ') + arg,
{
    reveal_strlit(" ");
    assert(" "@ == seq![' ']);
    let parts = seq![command.program] + command.args;
    let more = seq![command.program] + command.args.push(arg);
    assert(more.drop_last() == parts);
    assert(more.last() == arg);
    assert(command.rendered() + " "@ + arg == command.rendered().push(' ') + arg);
}

/// The words of an error name the command, and with it what it left unsaid: its status
/// and its error stream, or the artifact that is missing.
pub proof fn law_an_error_names_its_command(error: RunErrorView)
    ensures
        match error {
            RunErrorView::NotFound { command } => text::occurs(error.message(), command),
            RunErrorView::Spawn { command } => text::occurs(error.message(), command),
            RunErrorView::Failed { command, status, stderr } => text::occurs(
                error.message(),
                command,
            ) && text::occurs(error.message(), status) && text::occurs(error.message(), stderr),
            RunErrorView::NoArtifact { command, artifact } => text::occurs(error.message(), command)
                && text::occurs(error.message(), artifact),
        },
{
    let whole = error.message();
    match error {
        RunErrorView::NotFound { command } => {
            let (a, b) = ("coverage command `"@, "` could not be found; "@ + HINT@);
            assert(whole == a + command + b);
            text::law_what_stands_in_a_text_occurs(a, command, b);
        },
        RunErrorView::Spawn { command } => {
            let (a, b) = ("failed to run coverage command `"@, "`; "@ + HINT@);
            assert(whole == a + command + b);
            text::law_what_stands_in_a_text_occurs(a, command, b);
        },
        RunErrorView::Failed { command, status, stderr } => {
            let a = "coverage command `"@;
            let b = "` failed ("@;
            let c = ")\n"@;
            let d = "\nif coverage tooling is unavailable, "@ + HINT@;
            assert(whole == a + command + (b + status + c + stderr + d));
            text::law_what_stands_in_a_text_occurs(a, command, b + status + c + stderr + d);
            assert(whole == (a + command + b) + status + (c + stderr + d));
            text::law_what_stands_in_a_text_occurs(a + command + b, status, c + stderr + d);
            assert(whole == (a + command + b + status + c) + stderr + d);
            text::law_what_stands_in_a_text_occurs(a + command + b + status + c, stderr, d);
        },
        RunErrorView::NoArtifact { command, artifact } => {
            let a = "coverage command `"@;
            let b = "` succeeded but produced no LCOV file at "@;
            let c = "; have it write LCOV there (the `"@ + LCOV_PLACEHOLDER@
                + "` token expands to that path), or pass an existing profile with --lcov-path"@;
            assert(whole == a + command + (b + artifact + c));
            text::law_what_stands_in_a_text_occurs(a, command, b + artifact + c);
            assert(whole == (a + command + b) + artifact + c);
            text::law_what_stands_in_a_text_occurs(a + command + b, artifact, c);
        },
    }
}

} // verus!
