use disk_tree::highlight::{apply_flags, resolve_brew_cache};
use disk_tree::scanner::{DirEntry, Flag};

fn make_dir(path: &str) -> DirEntry {
    DirEntry {
        name: path.rsplit('/').next().unwrap().to_string(),
        path: path.to_string(),
        size: 0,
        is_dir: true,
        flag: None,
        children: vec![],
    }
}

#[test]
fn test_cache_flag_applied_to_child() {
    let home = "/Users/test";
    let entry = make_dir("/Users/test/Library/Caches/com.apple.Safari");
    let flagged = apply_flags(entry, home, None);
    assert_eq!(flagged.flag, Some(Flag::Cache));
}

#[test]
fn test_cache_dir_itself_not_flagged() {
    let home = "/Users/test";
    let entry = make_dir("/Users/test/Library/Caches");
    let flagged = apply_flags(entry, home, None);
    assert_eq!(flagged.flag, None);
}

#[test]
fn test_no_flag_for_unrelated_dir() {
    let home = "/Users/test";
    let entry = make_dir("/Users/test/Documents");
    let flagged = apply_flags(entry, home, None);
    assert_eq!(flagged.flag, None);
}

#[test]
fn test_flags_applied_recursively() {
    let home = "/Users/test";
    let parent = DirEntry {
        name: "Library".to_string(),
        path: "/Users/test/Library".to_string(),
        size: 0,
        is_dir: true,
        flag: None,
        children: vec![make_dir("/Users/test/Library/Caches/Safari")],
    };
    let flagged = apply_flags(parent, home, None);
    assert_eq!(flagged.flag, None);
    assert_eq!(flagged.children[0].flag, Some(Flag::Cache));
}

#[test]
fn test_brew_cache_fallback_path() {
    let home = "/Users/test";
    let result = resolve_brew_cache(home, None);
    assert!(result.is_some());
}

#[test]
fn brew_cache_fallback_is_under_home() {
    let result = resolve_brew_cache("/Users/test", None);
    assert_eq!(result, Some("/Users/test/.cache/homebrew".to_string()));
}

#[test]
fn brew_cache_output_is_trimmed() {
    let result = resolve_brew_cache("/Users/test", Some("  /opt/brew/cache\n".to_string()));
    assert_eq!(result, Some("/opt/brew/cache".to_string()));
}

#[test]
fn brew_cache_entries_are_flagged_brew() {
    let entry = make_dir("/opt/brew/cache/downloads");
    let flagged = apply_flags(entry, "/Users/test", Some("/opt/brew/cache\n".to_string()));
    assert_eq!(flagged.flag, Some(Flag::Brew));
    let itself = apply_flags(make_dir("/opt/brew/cache"), "/Users/test", Some("/opt/brew/cache".to_string()));
    assert_eq!(itself.flag, None);
}

#[test]
fn cache_wins_over_brew() {
    let entry = make_dir("/Users/test/Library/Caches/Homebrew/x");
    let flagged = apply_flags(entry, "/Users/test", Some("/Users/test/Library/Caches/Homebrew".to_string()));
    assert_eq!(flagged.flag, Some(Flag::Cache));
}

#[test]
fn flags_keep_the_rest_of_the_tree() {
    let parent = DirEntry {
        name: "Caches".to_string(),
        path: "/Users/test/Library/Caches".to_string(),
        size: 42,
        is_dir: true,
        flag: Some(Flag::Brew),
        children: vec![make_dir("/Users/test/Library/Caches/a"), make_dir("/Users/test/Documents")],
    };
    let flagged = apply_flags(parent, "/Users/test", None);
    assert_eq!(flagged.flag, None);
    assert_eq!(flagged.size, 42);
    assert_eq!(flagged.name, "Caches");
    assert_eq!(flagged.children.len(), 2);
    assert_eq!(flagged.children[0].flag, Some(Flag::Cache));
    assert_eq!(flagged.children[1].flag, None);
    assert_eq!(flagged.children[1].path, "/Users/test/Documents");
}
