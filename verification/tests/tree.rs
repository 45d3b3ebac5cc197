use disk_tree::scanner::{DirEntry, Flag};
use disk_tree::ui::statusbar::{build_status_bar, SegmentColor};
use disk_tree::ui::tree::{build_list_items, display_width, truncate_to_cols};

fn make_entry(name: &str, size: u64, is_dir: bool, flag: Option<Flag>) -> DirEntry {
    DirEntry {
        name: name.to_string(),
        path: format!("/{name}"),
        size,
        is_dir,
        flag,
        children: vec![],
    }
}

#[test]
fn test_build_items_count() {
    let entries = vec![make_entry("a", 100, true, None), make_entry("b", 50, false, None)];
    let items = build_list_items(&entries, 150, 120);
    assert_eq!(items.len(), 2);
}

#[test]
fn test_cache_badge_present() {
    let entries = vec![make_entry("Caches", 100, true, Some(Flag::Cache))];
    let items = build_list_items(&entries, 100, 120);
    assert_eq!(items.len(), 1);
}

#[test]
fn test_brew_badge_present() {
    let entries = vec![make_entry("homebrew", 100, true, Some(Flag::Brew))];
    let items = build_list_items(&entries, 100, 120);
    assert_eq!(items.len(), 1);
}

#[test]
fn test_empty_entries() {
    let items = build_list_items(&[], 0, 120);
    assert!(items.is_empty());
}

#[test]
fn test_bars_start_at_same_column() {
    let entries = vec![
        make_entry("short", 80, true, None),
        make_entry("a-much-longer-name", 20, false, Some(Flag::Cache)),
    ];
    let items = build_list_items(&entries, 100, 120);
    assert_eq!(items.len(), 2);
}

#[test]
fn test_unicode_cjk_alignment() {
    let entries = vec![make_entry("文件夹", 80, true, None), make_entry("ab", 20, false, None)];
    let items = build_list_items(&entries, 100, 80);
    assert_eq!(items.len(), 2);
}

#[test]
fn test_truncate_to_cols_ascii() {
    let s = truncate_to_cols("hello world", 7);
    assert_eq!(display_width(&s), 7);
    assert!(s.ends_with('…'));
}

#[test]
fn test_truncate_to_cols_cjk() {
    let s = truncate_to_cols("你好世界", 5);
    assert_eq!(display_width(&s), 5);
    assert!(s.ends_with('…'));
}

#[test]
fn test_truncate_to_cols_fits() {
    let s = truncate_to_cols("hi", 10);
    assert_eq!(s, "hi");
}

#[test]
fn test_vietnamese_display_width_is_single_col() {
    let name = "Đơn xin đi công tác";
    assert_eq!(display_width(name), 19);
}

#[test]
fn test_vietnamese_alignment_with_ascii() {
    let entries = vec![
        make_entry("Đơn xin đi công tác", 80, true, None),
        make_entry("ab", 20, false, None),
    ];
    let items = build_list_items(&entries, 100, 80);
    assert_eq!(items.len(), 2);
}

#[test]
fn test_truncate_to_cols_vietnamese() {
    let s = truncate_to_cols("Đơn xin đi công tác", 10);
    assert_eq!(display_width(&s), 10);
    assert!(s.ends_with('…'));
}

#[test]
fn test_vietnamese_fits_within_budget() {
    let s = truncate_to_cols("công tác", 20);
    assert_eq!(s, "công tác");
}

#[test]
fn truncate_to_zero_columns_is_empty() {
    assert_eq!(truncate_to_cols("hello", 0), "");
    assert_eq!(truncate_to_cols("hello world", 1), "…");
    assert_eq!(truncate_to_cols("hello world", 4), "hel…");
}

#[test]
fn rows_line_up_bars() {
    let entries = vec![
        make_entry("short", 80, true, None),
        make_entry("a-much-longer-name", 20, false, Some(Flag::Cache)),
    ];
    let items = build_list_items(&entries, 100, 120);
    let widths: Vec<usize> = items
        .iter()
        .map(|r| display_width(&r.prefix) + display_width(&r.name) + display_width(&r.badge) + r.padding.len())
        .collect();
    assert_eq!(widths[0], widths[1]);
    assert_eq!(items[0].prefix, "> ");
    assert_eq!(items[1].prefix, "  ");
    assert_eq!(items[1].badge, " [CACHE]");
    assert_eq!(items[0].padding.len(), 2 + 18 + 8 - 5);
    assert_eq!(items[1].padding, "  ");
    assert_eq!(items[0].size_text.chars().count(), 10);
}

#[test]
fn rows_truncate_long_names_to_the_terminal() {
    let entries = vec![make_entry("abcdefghijklmnopqrstuvwxyz", 1, false, Some(Flag::Brew))];
    let items = build_list_items(&entries, 1, 40);
    // 40 - 22 = 18 label columns: prefix 2, badge 7, name 9 (8 characters and the ellipsis)
    assert_eq!(items[0].name, "abcdefgh…");
    assert_eq!(items[0].badge, " [BREW]");
    assert_eq!(items[0].padding, "  ");
}

#[test]
fn status_bar_segments() {
    let confirm = build_status_bar(0, Some("Move 'x' to Trash? [y/n]"), true);
    assert_eq!(confirm.len(), 1);
    assert_eq!(confirm[0].text, "Move 'x' to Trash? [y/n]");
    assert_eq!(confirm[0].color, SegmentColor::Yellow);
    let plain = build_status_bar(0, None, false);
    assert_eq!(plain.len(), 6);
    assert_eq!(plain[0].text, "↑↓ Navigate  ");
    assert_eq!(plain[5].text, "q Quit");
    let full = build_status_bar(12, Some("oops"), false);
    assert_eq!(full.len(), 8);
    assert_eq!(full[6].text, "  | 12 skipped");
    assert_eq!(full[6].color, SegmentColor::Yellow);
    assert_eq!(full[7].text, "  | oops");
    assert_eq!(full[7].color, SegmentColor::Red);
}

#[test]
fn size_column_is_right_aligned_bytes() {
    let entries = vec![make_entry("f", 100, false, None), make_entry("g", 2048, false, None)];
    let items = build_list_items(&entries, 2148, 120);
    assert_eq!(items[0].size_text, "     100 B");
    assert_eq!(items[1].size_text, "   2.0 KiB");
}
