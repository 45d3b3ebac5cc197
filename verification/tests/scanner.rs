use disk_tree::scanner::{build_scan, sort_children_by_size, DirEntry, FileMeta, WalkRecord};

fn make_file(name: &str, path: &str, size: u64) -> DirEntry {
    DirEntry {
        name: name.to_string(),
        path: path.to_string(),
        size,
        is_dir: false,
        flag: None,
        children: vec![],
    }
}

fn make_dir(name: &str, path: &str, size: u64, children: Vec<DirEntry>) -> DirEntry {
    DirEntry {
        name: name.to_string(),
        path: path.to_string(),
        size,
        is_dir: true,
        flag: None,
        children,
    }
}

#[test]
fn test_sort_children_by_size_descending() {
    let mut root = make_dir(
        "root",
        "/root",
        300,
        vec![
            make_file("small", "/root/small", 50),
            make_file("large", "/root/large", 200),
            make_file("medium", "/root/medium", 50),
        ],
    );
    sort_children_by_size(&mut root);
    assert_eq!(root.children[0].name, "large");
    assert_eq!(root.children[0].size, 200);
}

#[test]
fn test_sort_children_recursively() {
    let mut root = make_dir(
        "root",
        "/root",
        300,
        vec![make_dir(
            "sub",
            "/root/sub",
            150,
            vec![
                make_file("a", "/root/sub/a", 30),
                make_file("b", "/root/sub/b", 120),
            ],
        )],
    );
    sort_children_by_size(&mut root);
    assert_eq!(root.children[0].children[0].name, "b");
}

#[test]
fn test_sort_empty_children() {
    let mut entry = make_file("file", "/file", 100);
    sort_children_by_size(&mut entry);
    assert!(entry.children.is_empty());
}

#[test]
fn sort_keeps_equal_sizes_in_order() {
    let mut root = make_dir(
        "root",
        "/root",
        300,
        vec![
            make_file("first", "/root/first", 50),
            make_file("big", "/root/big", 200),
            make_file("second", "/root/second", 50),
        ],
    );
    sort_children_by_size(&mut root);
    let names: Vec<&str> = root.children.iter().map(|c| c.name.as_str()).collect();
    assert_eq!(names, vec!["big", "first", "second"]);
}

fn found(path: &str, is_dir: bool, meta: Option<FileMeta>) -> WalkRecord {
    WalkRecord::Found { path: path.to_string(), is_dir, is_symlink: false, meta }
}

fn file_meta(ino: u64, blocks: u64) -> Option<FileMeta> {
    Some(FileMeta { dev: 1, ino, blocks })
}

#[test]
fn scan_of_empty_walk_is_an_empty_root() {
    let result = build_scan("/tmp/empty", &vec![found("/tmp/empty", true, None)]).unwrap();
    assert_eq!(result.root.size, 0);
    assert!(result.root.children.is_empty());
    assert_eq!(result.skipped_count, 0);
    assert_eq!(result.root.name, "empty");
}

#[test]
fn scan_accumulates_sizes_and_sorts() {
    let records = vec![
        found("/t", true, None),
        found("/t/a.txt", false, file_meta(1, 16)),
        found("/t/sub", true, None),
        found("/t/sub/b.txt", false, file_meta(2, 32)),
    ];
    let result = build_scan("/t", &records).unwrap();
    assert_eq!(result.root.size, 48 * 512);
    assert_eq!(result.root.children.len(), 2);
    assert_eq!(result.root.children[0].name, "sub");
    assert_eq!(result.root.children[0].size, 32 * 512);
    assert_eq!(result.root.children[1].name, "a.txt");
    assert_eq!(result.root.children[0].children[0].path, "/t/sub/b.txt");
}

#[test]
fn scan_counts_hardlinks_once() {
    let records = vec![
        found("/t", true, None),
        found("/t/original.txt", false, file_meta(7, 16)),
        found("/t/hardlink.txt", false, file_meta(7, 16)),
    ];
    let result = build_scan("/t", &records).unwrap();
    let single = result.root.children.iter().find(|e| e.name == "original.txt").unwrap().size;
    assert_eq!(result.root.size, single);
    assert_eq!(single, 16 * 512);
}

#[test]
fn scan_counts_skipped_records() {
    let records = vec![
        found("/t", true, None),
        WalkRecord::Unreadable,
        found("/t/no_meta", false, None),
        WalkRecord::Found { path: "/t/link".to_string(), is_dir: false, is_symlink: true, meta: None },
    ];
    let result = build_scan("/t", &records).unwrap();
    assert_eq!(result.skipped_count, 2);
    assert_eq!(result.root.size, 0);
    assert_eq!(result.root.children.len(), 2);
}

#[test]
fn scan_with_trailing_slash_root() {
    let records = vec![
        found("/t/", true, None),
        found("/t/a", false, file_meta(3, 2)),
    ];
    let result = build_scan("/t/", &records).unwrap();
    assert_eq!(result.root.size, 1024);
    assert_eq!(result.root.children.len(), 1);
}

#[test]
fn scan_without_root_record_gives_stand_in() {
    let result = build_scan("/nowhere/x", &vec![WalkRecord::Unreadable]).unwrap();
    assert_eq!(result.root.name, "x");
    assert_eq!(result.root.path, "/nowhere/x");
    assert!(result.root.is_dir);
    assert_eq!(result.root.size, 0);
    assert_eq!(result.skipped_count, 1);
}

#[test]
fn scan_refuses_overflowing_sizes() {
    let records = vec![
        found("/t", true, None),
        found("/t/a", false, file_meta(1, u64::MAX / 512)),
        found("/t/b", false, file_meta(2, u64::MAX / 512)),
    ];
    assert!(build_scan("/t", &records).is_none());
}

// The walks below are those of small directory trees: the records that the directory walk
// reports for them, with the allocated blocks of a filesystem with 4 KiB blocks.

#[test]
fn test_scan_empty_directory() {
    let result = build_scan("/tmp/t0", &vec![found("/tmp/t0", true, None)]).unwrap();
    assert_eq!(result.root.size, 0);
    assert!(result.root.children.is_empty());
    assert_eq!(result.skipped_count, 0);
}

#[test]
fn test_scan_nonzero_file_sizes() {
    let records = vec![
        found("/tmp/t1", true, None),
        found("/tmp/t1/a.txt", false, file_meta(11, 16)),
        found("/tmp/t1/sub", true, None),
        found("/tmp/t1/sub/b.txt", false, file_meta(12, 32)),
    ];
    let result = build_scan("/tmp/t1", &records).unwrap();
    assert!(result.root.size > 0);
    assert_eq!(result.root.children.len(), 2);
    assert_eq!(result.root.children[0].name, "sub");
    assert!(result.root.children[0].size > result.root.children[1].size);
}

#[test]
fn test_scan_size_accumulation() {
    let records = vec![
        found("/tmp/t2", true, None),
        found("/tmp/t2/a", true, None),
        found("/tmp/t2/a/b", true, None),
        found("/tmp/t2/a/b/file.txt", false, file_meta(21, 16)),
    ];
    let result = build_scan("/tmp/t2", &records).unwrap();
    let a = &result.root.children[0];
    assert_eq!(a.name, "a");
    assert_eq!(result.root.size, a.size);
    assert!(a.size > 0);
}

#[test]
fn test_scan_sort_order() {
    let records = vec![
        found("/tmp/t3", true, None),
        found("/tmp/t3/large.txt", false, file_meta(31, 200)),
        found("/tmp/t3/small.txt", false, file_meta(32, 24)),
        found("/tmp/t3/medium.txt", false, file_meta(33, 104)),
    ];
    let result = build_scan("/tmp/t3", &records).unwrap();
    let names: Vec<&str> = result.root.children.iter().map(|e| e.name.as_str()).collect();
    assert_eq!(names[0], "large.txt");
    assert_eq!(names[1], "medium.txt");
    assert_eq!(names[2], "small.txt");
}

#[test]
fn test_scan_hardlinks_counted_once() {
    let records = vec![
        found("/tmp/t4", true, None),
        found("/tmp/t4/original.txt", false, file_meta(41, 16)),
        found("/tmp/t4/hardlink.txt", false, file_meta(41, 16)),
    ];
    let result = build_scan("/tmp/t4", &records).unwrap();
    let total = result.root.size;
    let single_size = result
        .root
        .children
        .iter()
        .find(|e| e.name == "original.txt")
        .map(|e| e.size)
        .unwrap();
    assert_eq!(total, single_size, "hardlink must not be double-counted");
}

#[test]
fn scan_gives_every_directory_the_sum_of_its_children() {
    let records = vec![
        found("/s", true, None),
        found("/s/d", true, None),
        found("/s/d/x", false, file_meta(51, 8)),
        found("/s/d/e", true, None),
        found("/s/d/e/y", false, file_meta(52, 4)),
        found("/s/z", false, file_meta(53, 1)),
    ];
    let result = build_scan("/s", &records).unwrap();
    check_directory_sizes(&result.root);
    assert_eq!(result.root.size, 13 * 512);
}

fn check_directory_sizes(e: &DirEntry) {
    if e.is_dir {
        assert_eq!(e.size, e.children.iter().map(|c| c.size).sum::<u64>());
    }
    for c in &e.children {
        check_directory_sizes(c);
    }
}

#[test]
fn sorting_twice_changes_nothing() {
    let mut root = make_dir(
        "root",
        "/root",
        300,
        vec![
            make_file("a", "/root/a", 50),
            make_dir("d", "/root/d", 200, vec![make_file("x", "/root/d/x", 20), make_file("y", "/root/d/y", 180)]),
            make_file("b", "/root/b", 50),
        ],
    );
    sort_children_by_size(&mut root);
    let once: Vec<String> = root.children.iter().map(|c| c.name.clone()).collect();
    let once_inner: Vec<String> = root.children[0].children.iter().map(|c| c.name.clone()).collect();
    sort_children_by_size(&mut root);
    let twice: Vec<String> = root.children.iter().map(|c| c.name.clone()).collect();
    let twice_inner: Vec<String> = root.children[0].children.iter().map(|c| c.name.clone()).collect();
    assert_eq!(once, vec!["d", "a", "b"]);
    assert_eq!(once, twice);
    assert_eq!(once_inner, vec!["y", "x"]);
    assert_eq!(once_inner, twice_inner);
}
