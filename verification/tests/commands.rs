use dix::command::{
    run_snapshot_command, should_style, Command, OutputFormat, RunAction, RunError, RunEvent,
    RunState,
};
use dix::snapshot_file::{SnapshotError, SnapshotFile, SnapshotPath};

fn p(version: &str) -> String {
    format!("/nix/store/00000000000000000000000000000000-hello-{version}")
}

fn file(version: &str, size: i64) -> SnapshotFile {
    SnapshotFile {
        schema_version: 1,
        root: p(version),
        closure: vec![SnapshotPath { path: p(version), nar_size: size }],
        selected: vec![p(version)],
    }
}

#[test]
fn snapshot_to_a_file() {
    let command = Command::Snapshot { path: "result".to_string(), file: Some("out.json".to_string()) };
    let (state, action) = run_snapshot_command(&command, OutputFormat::Human, RunState::Start, RunEvent::Begin);
    assert!(matches!(state, RunState::Capturing));
    match action {
        RunAction::QueryStore { path } => assert_eq!(path, "result"),
        other => panic!("{other:?}"),
    }
    let event = RunEvent::Captured {
        root: p("1.0"),
        closure: vec![SnapshotPath { path: p("1.0"), nar_size: 100 }],
        selected: vec![],
    };
    let (state, action) = run_snapshot_command(&command, OutputFormat::Human, state, event);
    assert!(matches!(state, RunState::Writing));
    match action {
        RunAction::WriteFile { file, snapshot } => {
            assert_eq!(file, "out.json");
            assert_eq!(snapshot.root, p("1.0"));
            assert_eq!(snapshot.closure.len(), 1);
        },
        other => panic!("{other:?}"),
    }
    let (state, action) = run_snapshot_command(&command, OutputFormat::Human, state, RunEvent::Completed);
    assert!(matches!(state, RunState::Finished));
    assert!(matches!(action, RunAction::Finish { result: Ok(()) }));
}

#[test]
fn snapshot_to_stdout_and_invalid_capture() {
    let command = Command::Snapshot { path: "result".to_string(), file: None };
    let event = RunEvent::Captured {
        root: p("1.0"),
        closure: vec![SnapshotPath { path: p("1.0"), nar_size: 1 }],
        selected: vec![p("1.0")],
    };
    let (_, action) = run_snapshot_command(&command, OutputFormat::Json, RunState::Capturing, event);
    assert!(matches!(action, RunAction::WriteStdout { .. }));
    let event = RunEvent::Captured { root: p("1.0"), closure: vec![], selected: vec![] };
    let (state, action) = run_snapshot_command(&command, OutputFormat::Json, RunState::Capturing, event);
    assert!(matches!(state, RunState::Finished));
    match action {
        RunAction::Reject { snapshot: file, error } => {
            assert_eq!(error, SnapshotError::RootMissing);
            assert_eq!(file.root, p("1.0"));
            assert!(file.closure.is_empty());
        },
        other => panic!("{other:?}"),
    }
}

#[test]
fn diff_snapshots_reads_validates_and_reports() {
    let command = Command::DiffSnapshots {
        old_snapshot: "old.json".to_string(),
        new_snapshot: "new.json".to_string(),
    };
    let (state, action) = run_snapshot_command(&command, OutputFormat::Json, RunState::Start, RunEvent::Begin);
    match action {
        RunAction::ReadSnapshot { path } => assert_eq!(path, "old.json"),
        other => panic!("{other:?}"),
    }
    let (state, action) =
        run_snapshot_command(&command, OutputFormat::Json, state, RunEvent::Read { file: file("1.0", 100) });
    match action {
        RunAction::ReadSnapshot { path } => assert_eq!(path, "new.json"),
        other => panic!("{other:?}"),
    }
    let (state, action) =
        run_snapshot_command(&command, OutputFormat::Json, state, RunEvent::Read { file: file("2.0", 200) });
    assert!(matches!(state, RunState::Reporting));
    match action {
        RunAction::Report { format, old_root, new_root, old, new } => {
            assert_eq!(format, OutputFormat::Json);
            assert_eq!(old_root, p("1.0"));
            assert_eq!(new_root, p("2.0"));
            assert_eq!(old.closure[0].nar_size(), 100);
            assert_eq!(new.closure[0].nar_size(), 200);
            assert_eq!(new.selected[0].as_str(), p("2.0"));
        },
        other => panic!("{other:?}"),
    }
    let (state, action) = run_snapshot_command(&command, OutputFormat::Json, state, RunEvent::Completed);
    assert!(matches!(state, RunState::Finished));
    assert!(matches!(action, RunAction::Finish { result: Ok(()) }));
}

#[test]
fn diff_snapshots_stops_on_an_invalid_file() {
    let command = Command::DiffSnapshots {
        old_snapshot: "old.json".to_string(),
        new_snapshot: "new.json".to_string(),
    };
    let mut bad = file("1.0", 100);
    bad.schema_version = 2;
    let (state, action) =
        run_snapshot_command(&command, OutputFormat::Human, RunState::ReadingOld, RunEvent::Read { file: bad });
    assert!(matches!(state, RunState::Finished));
    match action {
        RunAction::Reject { snapshot: file, error } => {
            assert_eq!(error, SnapshotError::UnsupportedSchemaVersion { version: 2 });
            assert_eq!(file.schema_version, 2);
        },
        other => panic!("{other:?}"),
    }
    let mut bad = file("2.0", -1);
    bad.root = p("2.0");
    let (_, action) = run_snapshot_command(
        &command,
        OutputFormat::Human,
        RunState::ReadingNew { old: file("1.0", 100) },
        RunEvent::Read { file: bad },
    );
    match action {
        RunAction::Reject { snapshot: file, error } => {
            assert_eq!(error, SnapshotError::NegativeNarSize { index: 0 });
            assert_eq!(file.closure[0].nar_size, -1);
        },
        other => panic!("{other:?}"),
    }
}

#[test]
fn events_out_of_turn_are_rejected() {
    let diff = Command::DiffSnapshots { old_snapshot: "a".to_string(), new_snapshot: "b".to_string() };
    let (state, action) = run_snapshot_command(&diff, OutputFormat::Human, RunState::Start, RunEvent::Completed);
    assert!(matches!(state, RunState::Finished));
    assert!(matches!(action, RunAction::Finish { result: Err(RunError::UnexpectedEvent) }));
    // A diff never queries the store, even when handed a capture.
    let event = RunEvent::Captured { root: p("1.0"), closure: vec![], selected: vec![] };
    let (_, action) = run_snapshot_command(&diff, OutputFormat::Human, RunState::Capturing, event);
    assert!(matches!(action, RunAction::Finish { result: Err(RunError::UnexpectedEvent) }));
}

#[test]
fn style_follows_the_clicolors_conventions() {
    assert!(!should_style(Some("1"), None, Some("1"), true));
    assert!(should_style(Some(""), None, None, true));
    assert!(!should_style(None, Some("0"), Some("1"), true));
    assert!(should_style(None, Some("1"), Some("1"), false));
    assert!(!should_style(None, None, Some("0"), false));
    assert!(should_style(None, None, None, true));
    assert!(!should_style(None, None, None, false));
    assert!(should_style(None, None, Some(""), false));
}
