use nuked::age::AgeThreshold;
use nuked::scanner::{DependencyFolder, DependencyKind, ScanSummary};
use nuked::time::{TimeSpan, Timestamp};
use nuked::tui::{App, Command, Key, Mode, TrashOutcome};

fn folder(path: &str, size: u64, days: u64) -> DependencyFolder {
    DependencyFolder {
        path: path.to_string(),
        project_path: path.rsplit_once('/').unwrap().0.to_string(),
        kind: DependencyKind::Node,
        size_bytes: size,
        project_modified: Timestamp { secs: 0, nanos: 0 },
        age: TimeSpan { secs: days * 86_400, nanos: 0 },
    }
}

fn app(filter: &str) -> App {
    let scan = ScanSummary {
        roots: vec!["/w".to_string()],
        folders: vec![
            folder("/w/old/node_modules", 100, 60),
            folder("/w/new/node_modules", 10, 2),
            folder("/w/ancient/node_modules", 1, 500),
        ],
    };
    App::new(scan, AgeThreshold::days(30), filter.to_string())
}

fn selected(app: &App) -> Vec<String> {
    let mut v = app.selected.clone();
    v.sort();
    v
}

#[test]
fn a_session_starts_with_old_folders_selected() {
    let a = app("");
    assert_eq!(a.mode, Mode::Browse);
    assert_eq!(a.cursor, 0);
    assert_eq!(selected(&a), vec!["/w/ancient/node_modules".to_string(), "/w/old/node_modules".to_string()]);
    assert_eq!(a.selected_bytes(), 101);
    assert_eq!(a.message, "space: select  /: search  enter: review  1-4: age preset  q: quit");
}

#[test]
fn the_cursor_stays_on_listed_rows() {
    let mut a = app("");
    assert!(matches!(a.handle_key(Key::Up), Command::Continue));
    assert_eq!(a.cursor, 0);
    a.handle_key(Key::Down);
    a.handle_key(Key::Char('j'));
    a.handle_key(Key::Down);
    assert_eq!(a.cursor, 2);
    a.handle_key(Key::Char('k'));
    assert_eq!(a.cursor, 1);
    a.move_cursor(-10);
    assert_eq!(a.cursor, 0);
    a.move_cursor(10);
    assert_eq!(a.cursor, 2);
}

#[test]
fn space_toggles_any_folder_and_twice_restores() {
    let mut a = app("");
    a.handle_key(Key::Down);
    assert_eq!(a.current_folder().unwrap().path, "/w/new/node_modules");
    a.handle_key(Key::Char(' '));
    assert_eq!(a.selected.len(), 3);
    assert!(a.selection_has_newer());
    a.handle_key(Key::Char(' '));
    assert_eq!(selected(&a), vec!["/w/ancient/node_modules".to_string(), "/w/old/node_modules".to_string()]);
}

#[test]
fn presets_and_bulk_keys_reselect() {
    let mut a = app("");
    a.handle_key(Key::Char('n'));
    assert!(a.selected.is_empty());
    a.handle_key(Key::Char('A'));
    assert_eq!(a.selected.len(), 3);
    a.handle_key(Key::Char('4'));
    assert_eq!(a.threshold.as_days(), 365);
    assert_eq!(a.selected, vec!["/w/ancient/node_modules".to_string()]);
    a.handle_key(Key::Char('1'));
    assert_eq!(a.selected.len(), 2);
    a.handle_key(Key::Char('a'));
    assert_eq!(a.selected.len(), 2);
}

#[test]
fn searching_edits_the_filter_and_lists_matches() {
    let mut a = app("");
    a.handle_key(Key::Down);
    a.handle_key(Key::Down);
    a.handle_key(Key::Char('/'));
    assert_eq!(a.mode, Mode::Search);
    for c in "ancient".chars() {
        a.handle_key(Key::Char(c));
    }
    assert_eq!(a.filter, "ancient");
    assert_eq!(a.visible_indices(), vec![2]);
    assert_eq!(a.cursor, 0);
    a.handle_key(Key::Backspace);
    assert_eq!(a.filter, "ancien");
    a.handle_key(Key::Enter);
    assert_eq!(a.mode, Mode::Browse);
    a.handle_key(Key::Char('a'));
    assert_eq!(a.selected, vec!["/w/ancient/node_modules".to_string()]);
}

#[test]
fn trash_is_asked_for_only_from_review() {
    let mut a = app("");
    a.handle_key(Key::Enter);
    assert_eq!(a.mode, Mode::Review);
    assert_eq!(a.message, "enter: move selected folders to trash  esc: back  q: quit");
    match a.handle_key(Key::Enter) {
        Command::Trash(paths) => assert_eq!(paths, a.selected),
        _ => panic!("expected a trash command"),
    }
    a.handle_key(Key::Esc);
    assert_eq!(a.mode, Mode::Browse);
    a.handle_key(Key::Char('n'));
    a.handle_key(Key::Enter);
    assert!(matches!(a.handle_key(Key::Enter), Command::Continue));
    assert_eq!(a.message, "nothing selected");
    assert!(matches!(a.handle_key(Key::Char('q')), Command::Quit));
}

#[test]
fn review_warns_about_newer_selections() {
    let mut a = app("");
    a.handle_key(Key::Char('A'));
    a.handle_key(Key::Enter);
    assert_eq!(
        a.message,
        "selection includes newer folders  enter: move selected folders to trash  esc: back  q: quit"
    );
}

#[test]
fn finishing_reports_what_moved() {
    let mut a = app("");
    a.finish_trash(&[
        TrashOutcome { path: "/w/old/node_modules".to_string(), error: None },
        TrashOutcome { path: "/w/ancient/node_modules".to_string(), error: None },
    ]);
    assert_eq!(a.mode, Mode::Done);
    assert_eq!(
        a.message,
        "moved 2 folder(s) to trash; restore from the OS trash if needed. press any key to exit"
    );
    assert!(matches!(a.handle_key(Key::Other), Command::Quit));

    let mut b = app("");
    b.finish_trash(&[
        TrashOutcome { path: "/x".to_string(), error: None },
        TrashOutcome { path: "/y".to_string(), error: Some("denied".to_string()) },
        TrashOutcome { path: "/z".to_string(), error: Some("gone".to_string()) },
    ]);
    assert_eq!(b.message, "moved 1; 2 failed. first error: /y: denied. press any key to exit");
}

#[test]
fn an_empty_listing_keeps_the_cursor_at_the_top() {
    let mut a = app("zzzz");
    assert_eq!(a.visible_indices().len(), 0);
    assert!(a.current_folder().is_none());
    a.handle_key(Key::Down);
    assert_eq!(a.cursor, 0);
    a.handle_key(Key::Char(' '));
    assert_eq!(a.selected.len(), 2);
}
