use cloudstate::cli::{
    backup_progress_step, gc_size_report, should_reload, FileEventKind, ProgressAction,
    ProgressBarState, TableProgress,
};
use cloudstate::execution::script_sources;

#[test]
fn only_creation_and_modification_reload() {
    assert!(should_reload(FileEventKind::Create));
    assert!(should_reload(FileEventKind::Modify));
    assert!(!should_reload(FileEventKind::Any));
    assert!(!should_reload(FileEventKind::Access));
    assert!(!should_reload(FileEventKind::Remove));
    assert!(!should_reload(FileEventKind::Other));
}

#[test]
fn gc_report_in_whole_megabytes() {
    let r = gc_size_report(5 * 1024 * 1024 + 12, 2 * 1024 * 1024 - 1);
    assert_eq!((r.megabytes_before, r.megabytes_after, r.megabytes_saved), (5, 1, 4));
    let r = gc_size_report(1000, 10);
    assert_eq!((r.megabytes_before, r.megabytes_after, r.megabytes_saved), (0, 0, 0));
}

fn progress(name: &str, current: u64, total: u64) -> Option<(String, TableProgress)> {
    Some((name.to_string(), TableProgress { current, total }))
}

fn bar(s: &ProgressBarState) -> Option<String> {
    match s {
        ProgressBarState::NoBar => None,
        ProgressBarState::Named(n) => Some(n.clone()),
    }
}

#[test]
fn backup_progress_bar_follows_tables() {
    let (state, action) = backup_progress_step(ProgressBarState::NoBar, None);
    assert_eq!(bar(&state), None);
    assert!(matches!(action, ProgressAction::Nothing));

    let (state, action) = backup_progress_step(state, progress("objects", 0, 10));
    assert_eq!(bar(&state), Some("objects".to_string()));
    assert!(matches!(action, ProgressAction::Start { ref name, total: 10 } if name == "objects"));

    let (state, action) = backup_progress_step(state, progress("objects", 4, 10));
    assert!(matches!(action, ProgressAction::Advance { position: 4, finish: false }));

    let (state, action) = backup_progress_step(state, progress("objects", 10, 10));
    assert!(matches!(action, ProgressAction::Advance { position: 10, finish: true }));

    let (state, action) = backup_progress_step(state, progress("maps", 0, 3));
    assert_eq!(bar(&state), Some("maps".to_string()));
    assert!(matches!(action, ProgressAction::FinishAndStart { ref name, total: 3 } if name == "maps"));
}

#[test]
fn script_file_split_on_end_markers() {
    assert_eq!(
        script_sources("a();\n// END_FILE\nb();\n// END_FILE\n"),
        vec!["a();\n".to_string(), "\nb();\n".to_string(), "\n".to_string()]
    );
    assert_eq!(script_sources("only();"), vec!["only();".to_string()]);
    assert_eq!(script_sources(""), vec!["".to_string()]);
}
