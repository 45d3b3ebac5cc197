use disk_tree::fold::build_tree;
use disk_tree::scanner::RawEntry;

fn raw(path: &str, is_dir: bool, size: u64) -> RawEntry {
    RawEntry { path: path.to_string(), is_dir, size }
}

#[test]
fn fold_attaches_children_walked_before_their_parent() {
    let entries = vec![
        raw("/r/d/x", false, 5),
        raw("/r/d", true, 0),
        raw("/r", true, 1),
        raw("/r/y", false, 7),
    ];
    let root = build_tree("/r", entries);
    assert_eq!(root.size, 13);
    assert_eq!(root.children.len(), 2);
    assert_eq!(root.children[0].name, "d");
    assert_eq!(root.children[0].size, 5);
    assert_eq!(root.children[0].children[0].name, "x");
    assert_eq!(root.children[1].name, "y");
}

#[test]
fn fold_keeps_walk_order_among_siblings() {
    let entries = vec![
        raw("/r", true, 0),
        raw("/r/b", false, 1),
        raw("/r/a", false, 2),
        raw("/r/c", false, 3),
    ];
    let root = build_tree("/r", entries);
    let names: Vec<&str> = root.children.iter().map(|c| c.name.as_str()).collect();
    assert_eq!(names, vec!["b", "a", "c"]);
}

#[test]
fn fold_uses_last_entry_of_a_repeated_path_once() {
    let entries = vec![
        raw("/r", true, 0),
        raw("/r/f", false, 4),
        raw("/r/f", false, 9),
    ];
    let root = build_tree("/r", entries);
    assert_eq!(root.children.len(), 1);
    assert_eq!(root.children[0].size, 9);
    assert_eq!(root.size, 9);
}

#[test]
fn fold_drops_entries_whose_parent_was_not_walked() {
    let entries = vec![
        raw("/r", true, 0),
        raw("/r/gone/orphan", false, 100),
        raw("/r/kept", false, 2),
    ];
    let root = build_tree("/r", entries);
    assert_eq!(root.children.len(), 1);
    assert_eq!(root.children[0].name, "kept");
    assert_eq!(root.size, 2);
}

#[test]
fn fold_treats_trailing_slash_as_same_path() {
    let entries = vec![raw("/r/", true, 0), raw("/r/a", false, 3)];
    let root = build_tree("/r", entries);
    assert_eq!(root.path, "/r/");
    assert_eq!(root.size, 3);
}

#[test]
fn fold_of_a_root_whose_parent_was_walked_gives_the_stand_in() {
    let entries = vec![raw("/", true, 0), raw("/r", true, 0), raw("/r/a", false, 3)];
    let root = build_tree("/r", entries);
    assert_eq!(root.name, "r");
    assert_eq!(root.size, 0);
    assert!(root.children.is_empty());
}

#[test]
fn fold_of_nothing_gives_the_stand_in() {
    let root = build_tree("/r/s", Vec::new());
    assert_eq!(root.name, "s");
    assert_eq!(root.path, "/r/s");
    assert!(root.is_dir);
    assert_eq!(root.size, 0);
}

#[test]
fn fold_treats_doubled_and_dotted_separators_as_the_same_path() {
    let entries = vec![raw("//r", true, 0), raw("/r/./a", false, 3), raw("./s", true, 0), raw("s/b", false, 4)];
    let root = build_tree("/r", entries);
    assert_eq!(root.size, 3);
    assert_eq!(root.children.len(), 1);
    let rel = build_tree("s", vec![raw("./s", true, 0), raw("s/b", false, 4)]);
    assert_eq!(rel.size, 0);
    assert!(rel.children.is_empty());
}
