use std::path::PathBuf;
use disk_tree::scanner::DirEntry;
use disk_tree::trash::{
    error_debug, first_free, pick_trash_path, remove_entry, rename_failure, trash_candidate, trash_destination,
    unique_trash_path, TrashError,
};

fn make_file(name: &str, path: &str, size: u64) -> DirEntry {
    DirEntry {
        name: name.to_string(),
        path: path.to_string(),
        size,
        is_dir: false,
        flag: None,
        children: vec![],
    }
}

fn make_dir(name: &str, path: &str, children: Vec<DirEntry>) -> DirEntry {
    let size = children.iter().map(|c| c.size).sum();
    DirEntry {
        name: name.to_string(),
        path: path.to_string(),
        size,
        is_dir: true,
        flag: None,
        children,
    }
}

#[test]
fn test_remove_entry_removes_child() {
    let root = make_dir(
        "root",
        "/root",
        vec![make_file("a", "/root/a", 200), make_file("b", "/root/b", 100)],
    );
    let updated = remove_entry(root, "/root/a");
    assert_eq!(updated.children.len(), 1);
    assert_eq!(updated.children[0].name, "b");
}

#[test]
fn test_remove_entry_recalculates_size() {
    let root = make_dir(
        "root",
        "/root",
        vec![make_file("a", "/root/a", 200), make_file("b", "/root/b", 100)],
    );
    let updated = remove_entry(root, "/root/a");
    assert_eq!(updated.size, 100);
}

#[test]
fn test_remove_entry_nested() {
    let root = make_dir(
        "root",
        "/root",
        vec![make_dir(
            "sub",
            "/root/sub",
            vec![make_file("x", "/root/sub/x", 50), make_file("y", "/root/sub/y", 30)],
        )],
    );
    let updated = remove_entry(root, "/root/sub/x");
    assert_eq!(updated.children[0].size, 30);
    assert_eq!(updated.size, 30);
}

#[test]
fn test_remove_nonexistent_is_noop() {
    let root = make_dir("root", "/root", vec![make_file("a", "/root/a", 100)]);
    let updated = remove_entry(root, "/root/z");
    assert_eq!(updated.children.len(), 1);
    assert_eq!(updated.size, 100);
}

#[test]
fn remove_matches_paths_by_components() {
    let root = make_dir("root", "/root", vec![make_file("a", "/root/a", 100), make_file("b", "/root/b", 5)]);
    let updated = remove_entry(root, "/root//a/");
    assert_eq!(updated.children.len(), 1);
    assert_eq!(updated.size, 5);
}

#[test]
fn test_unique_trash_path_no_conflict() {
    let dir = PathBuf::from("/nonexistent/trash");
    let dest = unique_trash_path(&dir.to_string_lossy(), "file.txt");
    assert_eq!(dest.map(PathBuf::from), Some(dir.join("file.txt")));
}

#[test]
fn trash_candidates_number_before_the_extension() {
    assert_eq!(trash_candidate("/t", "file.txt", 1), "/t/file.txt");
    assert_eq!(trash_candidate("/t", "file.txt", 2), "/t/file 2.txt");
    assert_eq!(trash_candidate("/t", "archive.tar.gz", 13), "/t/archive.tar 13.gz");
    assert_eq!(trash_candidate("/t", ".hidden", 3), "/t/.hidden 3");
    assert_eq!(trash_candidate("/t", "noext", 10), "/t/noext 10");
}

#[test]
fn trash_destination_errors() {
    match trash_destination("/a/b.txt", None) {
        Err(TrashError::OperationFailed(m)) => assert_eq!(m, "cannot find home directory"),
        _ => panic!("expected an error"),
    }
    match trash_destination("/", Some("/home/u".to_string())) {
        Err(TrashError::OperationFailed(m)) => assert_eq!(m, "path has no filename"),
        _ => panic!("expected an error"),
    }
}

#[test]
fn trash_destination_in_home_trash() {
    let dest = trash_destination("/data/report.pdf", Some("/nonexistent-home".to_string())).unwrap();
    assert_eq!(dest, "/nonexistent-home/.Trash/report.pdf");
}

#[test]
fn rename_failure_messages() {
    match rename_failure(Some(18), "Invalid cross-device link".to_string()) {
        TrashError::OperationFailed(m) => {
            assert_eq!(m, "cannot trash: file is on a different volume than home")
        },
    }
    match rename_failure(Some(2), "No such file".to_string()) {
        TrashError::OperationFailed(m) => assert_eq!(m, "No such file"),
    }
    match rename_failure(None, "other".to_string()) {
        TrashError::OperationFailed(m) => assert_eq!(m, "other"),
    }
}

#[test]
fn first_free_finds_the_first_untaken_answer() {
    assert_eq!(first_free(&vec![false]), Some(0));
    assert_eq!(first_free(&vec![true, true, false, false]), Some(2));
    assert_eq!(first_free(&vec![true, true]), None);
    assert_eq!(first_free(&vec![]), None);
}

#[test]
fn pick_trash_path_takes_the_first_free_candidate() {
    assert_eq!(pick_trash_path("/t", "file.txt", &vec![false]), Some("/t/file.txt".to_string()));
    assert_eq!(pick_trash_path("/t", "a.tar.gz", &vec![true, false]), Some("/t/a.tar 2.gz".to_string()));
    assert_eq!(pick_trash_path("/t", "Makefile", &vec![true, true, false]), Some("/t/Makefile 3".to_string()));
    assert_eq!(pick_trash_path("/t", "Makefile", &vec![true, true]), None);
}

#[test]
fn removing_one_nested_entry_lowers_the_root_by_its_size() {
    let root = make_dir(
        "root",
        "/root",
        vec![
            make_dir("sub", "/root/sub", vec![make_file("x", "/root/sub/x", 30), make_file("y", "/root/sub/y", 20)]),
            make_file("z", "/root/z", 7),
        ],
    );
    assert_eq!(root.size, 57);
    let updated = remove_entry(root, "/root/sub/x");
    assert_eq!(updated.size, 57 - 30);
    assert_eq!(updated.children[0].size, 20);
}

#[test]
fn trash_candidates_of_hidden_and_dotted_names() {
    assert_eq!(trash_candidate("/t", ".bashrc", 2), "/t/.bashrc 2");
    assert_eq!(trash_candidate("/t", "a.tar.gz", 3), "/t/a.tar 3.gz");
    assert_eq!(trash_candidate("/t", "Makefile", 2), "/t/Makefile 2");
}

#[test]
fn error_debug_matches_the_derived_debug() {
    for m in ["boom", "say \"hi\"", "a\\b", "line\nbreak", ""] {
        let e = TrashError::OperationFailed(m.to_string());
        assert_eq!(error_debug(&e), format!("{:?}", e));
    }
    assert_eq!(error_debug(&TrashError::OperationFailed("x".to_string())), "OperationFailed(\"x\")");
}

#[test]
fn trash_destination_lies_in_the_trash_of_home() {
    let d = trash_destination("/Volumes/x/report.pdf", Some("/nonexistent/home/".to_string()));
    assert_eq!(d.ok(), Some("/nonexistent/home/.Trash/report.pdf".to_string()));
    let d = trash_destination("/Volumes/x/report.pdf", Some("/nonexistent/home".to_string()));
    assert_eq!(d.ok(), Some("/nonexistent/home/.Trash/report.pdf".to_string()));
}
