//! The decisions of the command-line tool: when a watched change reloads the
//! server, what the garbage-collection command reports, and how the backup
//! command's progress bar follows the progress of the backup.

use vstd::prelude::*;

verus! {

/// What happened under the watched directory.
#[derive(PartialEq, Eq, Structural, Clone, Copy, Debug)]
pub enum FileEventKind {
    Any,
    Access,
    Create,
    Modify,
    Remove,
    Other,
}

/// Whether a change under the watched directory reloads the served classes:
/// only the creation or the modification of a file does.
pub fn should_reload(kind: FileEventKind) -> (r: bool)
    ensures
        r == (kind == FileEventKind::Create || kind == FileEventKind::Modify),
{
    match kind {
        FileEventKind::Any => false,
        FileEventKind::Access => false,
        FileEventKind::Create => true,
        FileEventKind::Modify => true,
        FileEventKind::Remove => false,
        FileEventKind::Other => false,
    }
}

/// The size of the database file before and after a collection, in whole
/// mebibytes, and the difference.
pub struct GcSizeReport {
    pub megabytes_before: u64,
    pub megabytes_after: u64,
    pub megabytes_saved: u64,
}

/// Whole mebibytes in a number of bytes, rounded down.
pub open spec fn whole_megabytes(bytes: u64) -> int {
    bytes as int / 1024 / 1024
}

/// What the garbage-collection command reports of the file sizes in bytes
/// before and after the collection and compaction.
pub fn gc_size_report(bytes_before: u64, bytes_after: u64) -> (r: GcSizeReport)
    requires
        whole_megabytes(bytes_after) <= whole_megabytes(bytes_before),
    ensures
        r.megabytes_before == whole_megabytes(bytes_before),
        r.megabytes_after == whole_megabytes(bytes_after),
        r.megabytes_saved == whole_megabytes(bytes_before) - whole_megabytes(bytes_after),
{
    let megabytes_before = bytes_before / 1024 / 1024;
    let megabytes_after = bytes_after / 1024 / 1024;
    GcSizeReport {
        megabytes_before,
        megabytes_after,
        megabytes_saved: megabytes_before - megabytes_after,
    }
}

/// The progress bar of the backup command: none yet, or one for the named
/// table.
pub enum ProgressBarState {
    NoBar,
    Named(String),
}

/// How far the backup of one table has come.
pub struct TableProgress {
    pub current: u64,
    pub total: u64,
}

/// What the backup command does with its progress bar on a progress report.
pub enum ProgressAction {
    /// Nothing.
    Nothing,
    /// Start a bar of `total` steps for the table `name`.
    Start { name: String, total: u64 },
    /// Finish the current bar and start one of `total` steps for the table
    /// `name`.
    FinishAndStart { name: String, total: u64 },
    /// Move the current bar to `position`, and finish it if `finish`.
    Advance { position: u64, finish: bool },
}

/// The name of the table that the bar belongs to, if there is a bar.
pub open spec fn bar_table(state: ProgressBarState) -> Option<Seq<char>> {
    match state {
        ProgressBarState::NoBar => None,
        ProgressBarState::Named(name) => Some(name@),
    }
}

/// The next state of the progress bar and what to do with it, on a progress
/// report whose last table is `last_table`, if there is one.
///
/// A report on a new table starts a bar for it, finishing the previous bar; a
/// report on the table of the current bar moves it, and finishes it when the
/// table is done.
pub fn backup_progress_step(state: ProgressBarState, last_table: Option<(String, TableProgress)>) -> (r: (
    ProgressBarState,
    ProgressAction,
))
    ensures
        match last_table {
            None => bar_table(r.0) == bar_table(state) && r.1 is Nothing,
            Some((name, progress)) => bar_table(r.0) == Some(name@) && match bar_table(state) {
                None => r.1 matches ProgressAction::Start { name: n, total } && n@ == name@ && total
                    == progress.total,
                Some(current) => if current == name@ {
                    r.1 matches ProgressAction::Advance { position, finish } && position
                        == progress.current && finish == (progress.current == progress.total)
                } else {
                    r.1 matches ProgressAction::FinishAndStart { name: n, total } && n@ == name@
                        && total == progress.total
                },
            },
        },
{
    match last_table {
        None => (state, ProgressAction::Nothing),
        Some((name, progress)) => match state {
            ProgressBarState::NoBar => (
                ProgressBarState::Named(name.clone()),
                ProgressAction::Start { name, total: progress.total },
            ),
            ProgressBarState::Named(current) => {
                if current == name {
                    (
                        ProgressBarState::Named(current),
                        ProgressAction::Advance {
                            position: progress.current,
                            finish: progress.current == progress.total,
                        },
                    )
                } else {
                    (
                        ProgressBarState::Named(name.clone()),
                        ProgressAction::FinishAndStart { name, total: progress.total },
                    )
                }
            },
        },
    }
}

} // verus!
