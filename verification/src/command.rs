//! The decisions of the snapshot commands, as a step function: the caller
//! performs each returned action (querying the store, reading or writing a
//! file, printing a report) and hands back what came of it.
use vstd::prelude::*;
use crate::export::{capture_ok, exported_from, lemma_export_consistency};
use crate::snapshot_file::{
    entries_view, infos_view, is_consistent, lemma_check_is_consistency, snapshot_check, store_paths_view, texts_view,
    SnapshotError, SnapshotFile, SnapshotModel, SnapshotPath, StoreSnapshot,
};

verus! {

/// A snapshot subcommand.
#[derive(Debug, Clone)]
pub enum Command {
    /// Export a versioned snapshot of a built output, atomically to `file`
    /// when one is given and to standard output otherwise.
    Snapshot { path: String, file: Option<String> },
    /// Compare two snapshot files without Nix or the store paths they record.
    DiffSnapshots { old_snapshot: String, new_snapshot: String },
}

/// The output format of a comparison.
#[derive(Debug, Clone, Copy, PartialEq, Eq, Structural)]
pub enum OutputFormat {
    /// The default format highlighting version changes.
    Human,
    /// JSON for machine parsing.
    Json,
}

/// Where a command run stands.
#[derive(Debug)]
pub enum RunState {
    /// Nothing has been done yet.
    Start,
    /// Waiting for the store query of the output to export.
    Capturing,
    /// Waiting for the exported snapshot to be written.
    Writing,
    /// Waiting for the old snapshot file to be read.
    ReadingOld,
    /// Waiting for the new snapshot file to be read; the old one is valid.
    ReadingNew { old: SnapshotFile },
    /// Waiting for the comparison report to be printed.
    Reporting,
    /// The run is over.
    Finished,
}

/// What came of the last action.
#[derive(Debug)]
pub enum RunEvent {
    /// The run begins.
    Begin,
    /// The store was queried: the resolved root, its closure and its
    /// selected paths.
    Captured { root: String, closure: Vec<SnapshotPath>, selected: Vec<String> },
    /// A snapshot file was read and parsed.
    Read { file: SnapshotFile },
    /// The requested write or report was done.
    Completed,
}

/// Why a run stopped without success, other than a rejected snapshot.
#[derive(Debug, Clone, Copy, PartialEq, Eq, Structural)]
pub enum RunError {
    /// The event does not answer the action that was asked for.
    UnexpectedEvent,
}

/// What the caller is to do next.
#[derive(Debug)]
pub enum RunAction {
    /// Query the store for the closure of the output at `path`.
    QueryStore { path: String },
    /// Write `snapshot` atomically to `file`.
    WriteFile { file: String, snapshot: SnapshotFile },
    /// Write `snapshot` to standard output.
    WriteStdout { snapshot: SnapshotFile },
    /// Read and parse the snapshot file at `path`.
    ReadSnapshot { path: String },
    /// Print the comparison of two validated snapshots.
    Report {
        format: OutputFormat,
        old_root: String,
        new_root: String,
        old: StoreSnapshot,
        new: StoreSnapshot,
    },
    /// Stop: `snapshot` is rejected with `error`.
    Reject { snapshot: SnapshotFile, error: SnapshotError },
    /// Stop with this result.
    Finish { result: Result<(), RunError> },
}

/// `s` holds exactly the content of the snapshot file `f`.
pub open spec fn holds_content(s: StoreSnapshot, f: SnapshotModel) -> bool {
    &&& s.wf()
    &&& infos_view(s.closure@) == f.closure
    &&& store_paths_view(s.selected@) == f.selected
}

/// The action stops the run rejecting `f` with the verdict `check`.
pub open spec fn rejects(a: RunAction, f: SnapshotModel, check: Result<(), SnapshotError>) -> bool {
    a matches RunAction::Reject { snapshot, error } && snapshot@ == f && check == Err::<(), SnapshotError>(error)
}

/// The action stops the run with `result`.
pub open spec fn finishes(a: RunAction, result: Result<(), RunError>) -> bool {
    a matches RunAction::Finish { result: res } && res == result
}

/// Advances a snapshot command by one step.
///
/// `Snapshot`: query the store; export what was captured, rejecting the
/// export when it is not consistent; write it to the file when one is
/// given, else to standard output; finish.
/// `DiffSnapshots`: read the old file and validate it; read the new file
/// and validate it; report their contents in the chosen format; finish.
/// An event that does not answer the pending action finishes the run with
/// `UnexpectedEvent`.
pub fn run_snapshot_command(command: &Command, output: OutputFormat, state: RunState, event: RunEvent) -> (r: (
    RunState,
    RunAction,
))
    ensures
        // Comparing snapshots never consults the store, and exporting never reads or reports.
        command is DiffSnapshots ==> !(r.1 is QueryStore) && !(r.1 is WriteFile) && !(r.1 is WriteStdout),
        command is Snapshot ==> !(r.1 is ReadSnapshot) && !(r.1 is Report),
        match (command, state, event) {
            (Command::Snapshot { path, .. }, RunState::Start, RunEvent::Begin) => {
                &&& r.0 is Capturing
                &&& r.1 matches RunAction::QueryStore { path: p } && p@ == path@
            },
            (Command::DiffSnapshots { old_snapshot, .. }, RunState::Start, RunEvent::Begin) => {
                &&& r.0 is ReadingOld
                &&& r.1 matches RunAction::ReadSnapshot { path: p } && p@ == old_snapshot@
            },
            (
                Command::Snapshot { file, .. },
                RunState::Capturing,
                RunEvent::Captured { root, closure, selected },
            ) => {
                let (rv, cv, sv) = (root@, entries_view(closure@), texts_view(selected@));
                if capture_ok(rv, cv, sv) {
                    &&& r.0 is Writing
                    &&& match file {
                        Some(target) => r.1 matches RunAction::WriteFile { file: t, snapshot }
                            && t@ == target@ && exported_from(snapshot@, rv, cv, sv) && is_consistent(
                            snapshot@,
                        ),
                        None => r.1 matches RunAction::WriteStdout { snapshot } && exported_from(
                            snapshot@,
                            rv,
                            cv,
                            sv,
                        ) && is_consistent(snapshot@),
                    }
                } else {
                    &&& r.0 is Finished
                    &&& r.1 matches RunAction::Reject { snapshot: rejected, error } && exported_from(
                        rejected@,
                        rv,
                        cv,
                        sv,
                    ) && snapshot_check(rejected@) == Err::<(), SnapshotError>(error)
                }
            },
            (Command::Snapshot { .. }, RunState::Writing, RunEvent::Completed) => {
                r.0 is Finished && finishes(r.1, Ok(()))
            },
            (
                Command::DiffSnapshots { new_snapshot, .. },
                RunState::ReadingOld,
                RunEvent::Read { file },
            ) => match snapshot_check(file@) {
                Ok(_) => {
                    &&& r.0 matches RunState::ReadingNew { old } && old@ == file@
                    &&& r.1 matches RunAction::ReadSnapshot { path: p } && p@ == new_snapshot@
                },
                Err(e) => r.0 is Finished && rejects(r.1, file@, snapshot_check(file@)),
            },
            (
                Command::DiffSnapshots { .. },
                RunState::ReadingNew { old },
                RunEvent::Read { file },
            ) => match (snapshot_check(file@), snapshot_check(old@)) {
                (Err(_), _) => r.0 is Finished && rejects(r.1, file@, snapshot_check(file@)),
                (Ok(_), Err(_)) => r.0 is Finished && rejects(r.1, old@, snapshot_check(old@)),
                (Ok(_), Ok(_)) => {
                    &&& r.0 is Reporting
                    &&& r.1 matches RunAction::Report { format, old_root, new_root, old: os, new: ns }
                        && format == output && old_root@ == old@.root && new_root@ == file@.root
                        && holds_content(os, old@) && holds_content(ns, file@)
                },
            },
            (Command::DiffSnapshots { .. }, RunState::Reporting, RunEvent::Completed) => {
                r.0 is Finished && finishes(r.1, Ok(()))
            },
            _ => r.0 is Finished && finishes(r.1, Err(RunError::UnexpectedEvent)),
        },
{
    match (command, state, event) {
        (Command::Snapshot { path, .. }, RunState::Start, RunEvent::Begin) => {
            (RunState::Capturing, RunAction::QueryStore { path: path.clone() })
        },
        (Command::DiffSnapshots { old_snapshot, .. }, RunState::Start, RunEvent::Begin) => {
            (RunState::ReadingOld, RunAction::ReadSnapshot { path: old_snapshot.clone() })
        },
        (
            Command::Snapshot { file, .. },
            RunState::Capturing,
            RunEvent::Captured { root, closure, selected },
        ) => {
            let ghost (rv, cv, sv) = (root@, entries_view(closure@), texts_view(selected@));
            let snapshot = SnapshotFile::export(root, closure, selected);
            proof {
                lemma_export_consistency(snapshot@, rv, cv, sv);
                lemma_check_is_consistency(snapshot@);
            }
            match snapshot.to_snapshot() {
                Ok(_) => {
                    let action = match file {
                        Some(target) => RunAction::WriteFile { file: target.clone(), snapshot },
                        None => RunAction::WriteStdout { snapshot },
                    };
                    (RunState::Writing, action)
                },
                Err(error) => (RunState::Finished, RunAction::Reject { snapshot, error }),
            }
        },
        (Command::Snapshot { .. }, RunState::Writing, RunEvent::Completed) => {
            (RunState::Finished, RunAction::Finish { result: Ok(()) })
        },
        (Command::DiffSnapshots { new_snapshot, .. }, RunState::ReadingOld, RunEvent::Read { file }) => {
            match file.to_snapshot() {
                Ok(_) => (
                    RunState::ReadingNew { old: file },
                    RunAction::ReadSnapshot { path: new_snapshot.clone() },
                ),
                Err(error) => (RunState::Finished, RunAction::Reject { snapshot: file, error }),
            }
        },
        (Command::DiffSnapshots { .. }, RunState::ReadingNew { old }, RunEvent::Read { file }) => {
            let new = match file.to_snapshot() {
                Ok(s) => s,
                Err(error) => {
                    return (RunState::Finished, RunAction::Reject { snapshot: file, error });
                },
            };
            let old_content = match old.to_snapshot() {
                Ok(s) => s,
                Err(error) => {
                    return (RunState::Finished, RunAction::Reject { snapshot: old, error });
                },
            };
            (
                RunState::Reporting,
                RunAction::Report {
                    format: output,
                    old_root: old.root,
                    new_root: file.root,
                    old: old_content,
                    new,
                },
            )
        },
        (Command::DiffSnapshots { .. }, RunState::Reporting, RunEvent::Completed) => {
            (RunState::Finished, RunAction::Finish { result: Ok(()) })
        },
        _ => (RunState::Finished, RunAction::Finish { result: Err(RunError::UnexpectedEvent) }),
    }
}

/// The text `0`.
pub open spec fn zero_text() -> Seq<char> {
    seq!['0']
}

/// Whether output is styled: not when `NO_COLOR` is set and non-empty; not
/// when `CLICOLOR` is `0`; always when `CLICOLOR_FORCE` is set and not `0`;
/// otherwise exactly when standard output is a terminal.
pub open spec fn style_wanted(
    no_color: Option<Seq<char>>,
    clicolor: Option<Seq<char>>,
    clicolor_force: Option<Seq<char>>,
    is_terminal: bool,
) -> bool {
    if no_color matches Some(v) && v.len() > 0 {
        false
    } else if clicolor matches Some(v) && v == zero_text() {
        false
    } else if clicolor_force matches Some(v) && v != zero_text() {
        true
    } else {
        is_terminal
    }
}

/// The view of an optional text.
pub open spec fn opt_text(o: Option<&str>) -> Option<Seq<char>> {
    match o {
        Some(v) => Some(v@),
        None => None,
    }
}

fn is_zero(v: &str) -> (r: bool)
    ensures
        r == (v@ == zero_text()),
{
    let n = v.unicode_len();
    if n != 1 {
        return false;
    }
    let c = v.get_char(0);
    proof {
        if c == '0' {
            assert(v@ =~= zero_text());
        }
    }
    c == '0'
}

/// Decides whether to style output from the `NO_COLOR`, `CLICOLOR` and
/// `CLICOLOR_FORCE` settings and whether standard output is a terminal
/// (https://bixense.com/clicolors/).
pub fn should_style(
    no_color: Option<&str>,
    clicolor: Option<&str>,
    clicolor_force: Option<&str>,
    is_terminal: bool,
) -> (r: bool)
    ensures
        r == style_wanted(opt_text(no_color), opt_text(clicolor), opt_text(clicolor_force), is_terminal),
{
    if let Some(v) = no_color {
        if v.unicode_len() > 0 {
            return false;
        }
    }
    if let Some(v) = clicolor {
        if is_zero(v) {
            return false;
        }
    }
    if let Some(v) = clicolor_force {
        if !is_zero(v) {
            return true;
        }
    }
    is_terminal
}

/// The colour rules, each stated on the settings: a non-empty `NO_COLOR`
/// turns styling off; otherwise `CLICOLOR=0` turns it off; otherwise a
/// `CLICOLOR_FORCE` other than `0` turns it on; otherwise styling follows
/// the terminal, and a `CLICOLOR` other than `0` alone never turns it on.
pub proof fn lemma_style_rules(
    no_color: Option<Seq<char>>,
    clicolor: Option<Seq<char>>,
    clicolor_force: Option<Seq<char>>,
    is_terminal: bool,
)
    ensures
        (no_color matches Some(v) && v.len() > 0) ==> !style_wanted(
            no_color,
            clicolor,
            clicolor_force,
            is_terminal,
        ),
        !(no_color matches Some(v) && v.len() > 0) && clicolor == Some(seq!['0']) ==> !style_wanted(
            no_color,
            clicolor,
            clicolor_force,
            is_terminal,
        ),
        !(no_color matches Some(v) && v.len() > 0) && clicolor != Some(seq!['0'])
            && (clicolor_force matches Some(v) && v != seq!['0']) ==> style_wanted(
            no_color,
            clicolor,
            clicolor_force,
            is_terminal,
        ),
        !(no_color matches Some(v) && v.len() > 0) && !(clicolor_force matches Some(v) && v != seq![
            '0',
        ]) ==> style_wanted(no_color, clicolor, clicolor_force, is_terminal) == (is_terminal
            && clicolor != Some(seq!['0'])),
        !is_terminal && !(clicolor_force matches Some(v) && v != seq!['0']) ==> !style_wanted(
            no_color,
            clicolor,
            clicolor_force,
            is_terminal,
        ),
{
}

} // verus!
