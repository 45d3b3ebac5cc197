use disk_tree::scanner::{DirEntry, Flag, ScanResult};
use disk_tree::trash::TrashError;
use disk_tree::ui::{scanning_text, App, AppState, Key, KeyAction};

fn make_file(name: &str, path: &str) -> DirEntry {
    DirEntry {
        name: name.to_string(),
        path: path.to_string(),
        size: 100,
        is_dir: false,
        flag: None,
        children: vec![],
    }
}

fn make_dir(name: &str, path: &str, children: Vec<DirEntry>) -> DirEntry {
    DirEntry {
        name: name.to_string(),
        path: path.to_string(),
        size: children.iter().map(|c| c.size).sum(),
        is_dir: true,
        flag: None,
        children,
    }
}

fn make_test_tree() -> DirEntry {
    make_dir(
        "root",
        "/root",
        vec![
            make_dir("sub", "/root/sub", vec![make_file("leaf", "/root/sub/leaf")]),
            make_file("file", "/root/file"),
        ],
    )
}

#[test]
fn test_initial_selection() {
    let app = App::new(make_test_tree(), 0);
    assert_eq!(app.selected, Some(0));
}

#[test]
fn test_enter_pushes_nav_stack() {
    let mut app = App::new(make_test_tree(), 0);
    app.selected = Some(0); // select "sub"
    app.enter();
    assert_eq!(app.nav_stack, vec![0]);
    assert_eq!(app.current_children().len(), 1); // "leaf"
}

#[test]
fn test_enter_on_file_does_not_push() {
    let mut app = App::new(make_test_tree(), 0);
    app.selected = Some(1); // select "file"
    app.enter();
    assert!(app.nav_stack.is_empty());
}

#[test]
fn test_go_back_pops_nav_stack() {
    let mut app = App::new(make_test_tree(), 0);
    app.selected = Some(0);
    app.enter();
    app.go_back();
    assert!(app.nav_stack.is_empty());
    assert_eq!(app.selected, Some(0));
}

#[test]
fn test_go_back_at_root_is_noop() {
    let mut app = App::new(make_test_tree(), 0);
    app.go_back();
    assert!(app.nav_stack.is_empty());
}

#[test]
fn test_jump_to_root_clears_stack() {
    let mut app = App::new(make_test_tree(), 0);
    app.selected = Some(0);
    app.enter();
    app.jump_to_root();
    assert!(app.nav_stack.is_empty());
    assert_eq!(app.selected, Some(0));
}

#[test]
fn test_next_wraps_at_end() {
    let mut app = App::new(make_test_tree(), 0);
    app.selected = Some(0);
    app.next();
    assert_eq!(app.selected, Some(1));
    app.next(); // at end — should stay
    assert_eq!(app.selected, Some(1));
}

#[test]
fn test_previous_stops_at_zero() {
    let mut app = App::new(make_test_tree(), 0);
    app.selected = Some(0);
    app.previous();
    assert_eq!(app.selected, Some(0));
}

#[test]
fn new_on_empty_root_selects_nothing() {
    let app = App::new(make_dir("e", "/e", vec![]), 3);
    assert_eq!(app.selected, None);
    assert_eq!(app.skipped_count, 3);
}

#[test]
fn new_scanning_names_the_placeholder() {
    let app = App::new_scanning("/Users/test/Downloads");
    assert_eq!(app.root.name, "Downloads");
    assert_eq!(app.root.path, "/Users/test/Downloads");
    assert!(matches!(app.state, AppState::Scanning { tick: 0 }));
    let root = App::new_scanning("/");
    assert_eq!(root.root.name, "/");
}

#[test]
fn current_path_and_size_follow_navigation() {
    let mut app = App::new(make_test_tree(), 0);
    assert_eq!(app.current_path(), "/root");
    assert_eq!(app.current_dir_size(), 200);
    app.enter();
    assert_eq!(app.current_path(), "/root/sub");
    assert_eq!(app.current_dir_size(), 100);
    app.nav_stack = vec![5];
    assert_eq!(app.current_path(), "/root");
    assert_eq!(app.current_dir_size(), 0);
    assert!(app.current_children().is_empty());
}

#[test]
fn entering_an_empty_directory_selects_nothing() {
    let tree = make_dir("root", "/root", vec![make_dir("empty", "/root/empty", vec![])]);
    let mut app = App::new(tree, 0);
    app.enter();
    assert_eq!(app.nav_stack, vec![0]);
    assert_eq!(app.selected, None);
    app.go_back();
    assert_eq!(app.selected, Some(0));
}

#[test]
fn selected_entry_out_of_range_is_none() {
    let mut app = App::new(make_test_tree(), 0);
    assert_eq!(app.selected_entry().unwrap().name, "sub");
    app.selected = Some(9);
    assert!(app.selected_entry().is_none());
    app.selected = None;
    assert!(app.selected_entry().is_none());
}

#[test]
fn trash_confirmation_flow() {
    let mut app = App::new(make_test_tree(), 0);
    app.selected = Some(1);
    app.initiate_trash();
    assert!(app.confirm_trash);
    assert_eq!(app.status_message.as_deref(), Some("Move 'file' to Trash? [y/n]"));
    let target = app.begin_trash();
    assert_eq!(target.as_deref(), Some("/root/file"));
    assert!(!app.confirm_trash);
    app.finish_trash("/root/file", Ok(()));
    assert_eq!(app.root.children.len(), 1);
    assert_eq!(app.root.size, 100);
    assert_eq!(app.selected, Some(0));
    assert_eq!(app.status_message, None);
}

#[test]
fn trash_failure_is_reported() {
    let mut app = App::new(make_test_tree(), 0);
    app.finish_trash("/root/file", Err(TrashError::OperationFailed("boom".to_string())));
    assert_eq!(app.status_message.as_deref(), Some("Trash failed: OperationFailed(\"boom\")"));
    assert_eq!(app.root.children.len(), 2);
}

#[test]
fn begin_trash_without_confirmation_does_nothing() {
    let mut app = App::new(make_test_tree(), 0);
    assert!(app.begin_trash().is_none());
    app.confirm_trash = true;
    app.status_message = Some("x".to_string());
    app.selected = None;
    assert!(app.begin_trash().is_none());
    assert_eq!(app.status_message, None);
    assert!(!app.confirm_trash);
}

#[test]
fn cancel_trash_clears_prompt() {
    let mut app = App::new(make_test_tree(), 0);
    app.initiate_trash();
    app.cancel_trash();
    assert!(!app.confirm_trash);
    assert_eq!(app.status_message, None);
}

#[test]
fn keys_drive_the_app() {
    let mut app = App::new(make_test_tree(), 0);
    assert!(matches!(app.handle_key(Key::Down), KeyAction::Continue));
    assert_eq!(app.selected, Some(1));
    app.handle_key(Key::Up);
    assert_eq!(app.selected, Some(0));
    app.handle_key(Key::Enter);
    assert_eq!(app.nav_stack, vec![0]);
    app.handle_key(Key::Backspace);
    assert!(app.nav_stack.is_empty());
    app.handle_key(Key::Right);
    app.handle_key(Key::Esc);
    assert!(app.nav_stack.is_empty());
    app.handle_key(Key::Char('d'));
    assert!(app.confirm_trash);
    match app.handle_key(Key::Char('y')) {
        KeyAction::MoveToTrash(p) => assert_eq!(p, "/root/sub"),
        _ => panic!("expected a move"),
    }
    app.handle_key(Key::Char('d'));
    assert!(matches!(app.handle_key(Key::Char('n')), KeyAction::Continue));
    assert!(!app.confirm_trash);
    assert!(matches!(app.handle_key(Key::Char('q')), KeyAction::Quit));
}

#[test]
fn scanning_ignores_keys_but_quit() {
    let mut app = App::new_scanning("/x");
    assert!(matches!(app.handle_key(Key::Down), KeyAction::Continue));
    assert!(matches!(app.handle_key(Key::Char('q')), KeyAction::Quit));
    app.tick();
    assert!(matches!(app.state, AppState::Scanning { tick: 1 }));
    assert_eq!(scanning_text(1), "  / Scanning...");
    assert_eq!(scanning_text(7), "  \\ Scanning...");
}

#[test]
fn scan_result_is_installed_with_flags() {
    let mut app = App::new_scanning("/Users/test");
    let root = make_dir(
        "test",
        "/Users/test",
        vec![make_dir("Caches", "/Users/test/Library/Caches/x", vec![])],
    );
    app.apply_scan_result(ScanResult { root, skipped_count: 2 }, "/Users/test", None);
    assert!(matches!(app.state, AppState::Ready));
    assert_eq!(app.skipped_count, 2);
    assert_eq!(app.selected, Some(0));
    assert_eq!(app.root.children[0].flag, Some(Flag::Cache));
}

#[test]
fn header_shows_path() {
    let app = App::new(make_test_tree(), 0);
    let header = app.header_text();
    assert!(header.starts_with(" disk-tree  /root    Total: "));
}

#[test]
fn header_shows_the_size_of_the_current_directory() {
    let mut app = App::new(make_test_tree(), 0);
    assert_eq!(app.header_text(), " disk-tree  /root    Total: 200 B");
    app.enter();
    assert_eq!(app.header_text(), " disk-tree  /root/sub    Total: 100 B");
}
