//! Where coverage comes from.

use crap4rust::runner::{
    require_artifact, run_with, CoverageCommand, CoverageRunError, CoverageSource, Event,
    Outcome, Task, DEFAULT_LCOV_PATH, LCOV_PLACEHOLDER,
};

fn output(code: u32, stderr: &str) -> Outcome {
    Outcome::Finished {
        success: code == 0,
        status: format!("exit status: {code}"),
        stderr: stderr.to_string(),
    }
}

fn generated(source: &CoverageSource) -> (&CoverageCommand, &str) {
    match source {
        CoverageSource::Generated { command, artifact } => (command, artifact.path()),
        CoverageSource::Existing(path) => panic!("{path} is no artifact"),
    }
}

fn lcov() -> &'static str {
    "target/crap4rust/coverage.lcov"
}

#[test]
fn default_command_writes_lcov_to_the_artifact_path() {
    let command = CoverageCommand::cargo_llvm_cov(lcov());
    assert_eq!(
        command.to_string(),
        format!("cargo llvm-cov --lcov --output-path {}", lcov())
    );
}

#[test]
fn test_command_substitutes_the_lcov_placeholder() {
    let command =
        CoverageCommand::parse("my-tool --out {lcov} --lcov", lcov()).expect("non-blank spec");
    assert_eq!(
        command,
        CoverageCommand {
            program: "my-tool".to_string(),
            args: vec![
                "--out".to_string(),
                lcov().to_string(),
                "--lcov".to_string(),
            ],
        }
    );
}

#[test]
fn test_command_without_a_placeholder_is_run_verbatim() {
    let command = CoverageCommand::parse("  my-tool   --lcov  ", lcov()).expect("non-blank");
    assert_eq!(command.to_string(), "my-tool --lcov");
}

#[test]
fn blank_test_command_has_no_program() {
    assert_eq!(CoverageCommand::parse("   ", lcov()), None);
}

#[test]
fn test_command_substitutes_a_placeholder_embedded_in_a_token() {
    // `--out={lcov}` is a very common CLI shape: the token is part of a
    // larger argument rather than an argument of its own.
    let command = CoverageCommand::parse("my-tool --out={lcov}", lcov()).expect("non-blank");
    assert_eq!(
        command,
        CoverageCommand {
            program: "my-tool".to_string(),
            args: vec![format!("--out={}", lcov())],
        }
    );
}

#[test]
fn an_lcov_path_containing_spaces_stays_a_single_argument() {
    // Locks the split-then-substitute order: substituting first would split
    // this path across three arguments and silently corrupt the argv.
    let spaced = "target/my cov dir/coverage.lcov";
    let command = CoverageCommand::parse("my-tool --out {lcov}", spaced).expect("non-blank");
    assert_eq!(
        command,
        CoverageCommand {
            program: "my-tool".to_string(),
            args: vec![
                "--out".to_string(),
                "target/my cov dir/coverage.lcov".to_string(),
            ],
        }
    );
}

#[test]
fn lcov_path_short_circuits_the_coverage_runner_and_says_so() {
    // The bring-your-own-LCOV seam: nothing to execute, even when a
    // test command is also supplied — which is advised, not failed, so a CI
    // wrapper that always passes `--test-command` keeps working.
    let (source, advisories) =
        CoverageSource::resolve(Some("mine.lcov".to_string()), Some("my-tool"));
    assert_eq!(source, CoverageSource::Existing("mine.lcov".to_string()));
    assert_eq!(advisories.len(), 1, "{advisories:?}");
    assert!(
        advisories[0].to_string().contains("--test-command ignored"),
        "{advisories:?}"
    );
}

#[test]
fn an_lcov_path_alone_is_silent() {
    let (_, advisories) = CoverageSource::resolve(Some("mine.lcov".to_string()), None);
    assert!(advisories.is_empty(), "{advisories:?}");
}

#[test]
fn zero_config_resolves_cargo_llvm_cov_into_the_default_artifact_path() {
    let (source, advisories) = CoverageSource::resolve(None, None);
    let (command, artifact) = generated(&source);
    assert_eq!(command, &CoverageCommand::cargo_llvm_cov(DEFAULT_LCOV_PATH));
    assert_eq!(artifact, DEFAULT_LCOV_PATH);
    assert!(advisories.is_empty(), "{advisories:?}");
}

#[test]
fn test_command_replaces_the_default_coverage_command() {
    let (source, advisories) = CoverageSource::resolve(None, Some("my-tool --out {lcov}"));
    let (command, artifact) = generated(&source);
    assert_eq!(
        command,
        &CoverageCommand::parse("my-tool --out {lcov}", DEFAULT_LCOV_PATH).expect("non-blank")
    );
    assert_eq!(artifact, DEFAULT_LCOV_PATH);
    assert!(advisories.is_empty(), "{advisories:?}");
}

#[test]
fn a_test_command_without_the_lcov_token_is_flagged_before_spawning() {
    // Resolution happens before anything is run, so a five-minute test
    // command is told up front that it must write LCOV itself.
    let (_, advisories) = CoverageSource::resolve(None, Some("my-tool --lcov"));
    assert_eq!(advisories.len(), 1, "{advisories:?}");
    assert!(advisories[0].to_string().contains(LCOV_PLACEHOLDER), "{advisories:?}");
    assert!(advisories[0].to_string().contains(DEFAULT_LCOV_PATH), "{advisories:?}");
}

#[test]
fn a_successful_command_is_not_an_error() {
    let command = CoverageCommand::cargo_llvm_cov(lcov());
    assert!(run_with(&command, &output(0, "noise")).is_ok());
}

#[test]
fn a_failing_command_reports_its_command_status_and_stderr() {
    let command = CoverageCommand::cargo_llvm_cov(lcov());
    let err = run_with(&command, &output(101, "error: no such command: `llvm-cov`"))
    .expect_err("non-zero exit is an operational error");

    let message = err.to_string();
    assert!(message.contains("cargo llvm-cov --lcov"), "{message}");
    assert!(message.contains("no such command"), "{message}");
    assert!(message.contains("--lcov-path"), "{message}");
    // The child's exit status is named, whatever its platform rendering.
    assert!(message.contains("101"), "{message}");
}

#[test]
fn a_missing_program_names_the_lcov_path_escape_hatch() {
    let command = CoverageCommand::cargo_llvm_cov(lcov());
    let err = run_with(&command, &Outcome::NotFound)
    .expect_err("a missing program is an operational error");

    let message = err.to_string();
    // Path-agnostic: the program may be a bare name or an explicit path.
    assert!(message.contains("could not be found"), "{message}");
    assert!(message.contains("--lcov-path"), "{message}");
}

#[test]
fn other_spawn_failures_are_reported_as_spawn_errors() {
    let command = CoverageCommand::cargo_llvm_cov(lcov());
    let err = run_with(&command, &Outcome::NotStarted)
    .expect_err("a failed spawn is an operational error");
    assert!(matches!(err, CoverageRunError::Spawn { .. }), "{err:?}");
}

#[test]
fn a_missing_artifact_is_an_error_that_names_the_command() {
    let (source, _) = CoverageSource::resolve(None, Some("my-tool --lcov"));
    match &source {
        CoverageSource::Generated { command, artifact } => {
            assert!(require_artifact(command, artifact, true).is_ok());
            let err = require_artifact(command, artifact, false).unwrap_err();
            assert!(matches!(err, CoverageRunError::NoArtifact { .. }));
            let message = err.to_string();
            assert!(message.contains("my-tool --lcov"), "{message}");
            assert!(message.contains(DEFAULT_LCOV_PATH), "{message}");
        }
        CoverageSource::Existing(_) => panic!("nothing was given"),
    }
}

#[test]
fn a_blank_command_counts_as_none() {
    let (source, advisories) = CoverageSource::resolve(None, Some("   "));
    assert_eq!(source, CoverageSource::resolve(None, None).0);
    // It was given all the same, and has no token.
    assert_eq!(advisories.len(), 1, "{advisories:?}");
    assert_eq!(
        advisories[0].to_string(),
        "warning: --test-command has no {lcov} token; it must itself write LCOV to \
         target/crap4rust/coverage.lcov"
    );
}

#[test]
fn the_profile_is_the_given_one_or_the_artifact() {
    let (source, _) = CoverageSource::resolve(Some("mine.lcov".to_string()), None);
    assert_eq!(source.lcov_path(), "mine.lcov");
    let (source, _) = CoverageSource::resolve(None, None);
    assert_eq!(source.lcov_path(), DEFAULT_LCOV_PATH);
}

#[test]
fn the_end_of_the_error_stream_is_trimmed() {
    let command = CoverageCommand::cargo_llvm_cov(lcov());
    let trimmed = run_with(&command, &output(3, "boom")).unwrap_err();
    let ragged = run_with(&command, &output(3, "boom \n\n")).unwrap_err();
    assert_eq!(trimmed.to_string(), ragged.to_string());
    assert!(ragged.to_string().contains("(exit status: 3)\nboom\n"), "{ragged:?}");
}

#[test]
fn an_artifact_is_removed_made_and_found_before_it_is_read() {
    let (source, _) = CoverageSource::resolve(None, None);
    let mut task = source.first_task();
    let mut tasks = vec![task];
    for event in [
        Event::Cleared,
        Event::Ran(output(0, "")),
        Event::Looked { exists: true },
    ] {
        task = source.next_task(task, &event).expect("nothing fails");
        tasks.push(task);
    }
    assert_eq!(tasks, vec![Task::Clear, Task::Execute, Task::Look, Task::Read]);
}

#[test]
fn a_failed_run_or_a_missing_artifact_ends_it() {
    let (source, _) = CoverageSource::resolve(None, None);
    assert!(matches!(
        source.next_task(Task::Execute, &Event::Ran(output(1, "boom"))),
        Err(CoverageRunError::Failed { .. })
    ));
    assert!(matches!(
        source.next_task(Task::Execute, &Event::Ran(Outcome::NotFound)),
        Err(CoverageRunError::NotFound { .. })
    ));
    assert!(matches!(
        source.next_task(Task::Look, &Event::Looked { exists: false }),
        Err(CoverageRunError::NoArtifact { .. })
    ));
    // An artifact that is seen too early is not read.
    assert_eq!(
        source.next_task(Task::Clear, &Event::Looked { exists: true }),
        Ok(Task::Clear)
    );
}

#[test]
fn a_given_profile_is_read_at_once() {
    let (source, _) = CoverageSource::resolve(Some("mine.lcov".to_string()), Some("my-tool"));
    assert_eq!(source.first_task(), Task::Read);
    assert_eq!(source.next_task(Task::Read, &Event::Cleared), Ok(Task::Read));
}
