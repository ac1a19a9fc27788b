use download_cleaner::memory::Memory;
use download_cleaner::panel_app::{compact_name, move_label, suggestion_name, wrapped_line_count, PanelApp};
use download_cleaner::panel_state::{
    folder_moves_status, next_sort, plan_suggested_moves, relative_time, row_for_entry, sort_header,
    suggested_moves_status, trash_status, PanelState, RowItem, SortBy, SortColumn,
};
use download_cleaner::types::AppConfig;

fn config() -> AppConfig {
    AppConfig {
        downloads_dir: "/d".to_string(),
        memory_path: "/m.json".to_string(),
        complete_delay_ms: 500,
        batch_window_ms: 1500,
        scan_existing: false,
    }
}

fn row(name: &str, domain: &str, suggestion: Option<&str>, size_bytes: u64, modified_ms: u128) -> RowItem {
    RowItem {
        path: format!("/d/{name}"),
        name: name.to_string(),
        domain: domain.to_string(),
        suggestion: suggestion.map(|s| s.to_string()),
        size_bytes,
        modified_ms,
    }
}

fn rows() -> Vec<RowItem> {
    vec![
        row("a.zip", "github.com", Some("/Users/yy/Code"), 100, 3000),
        row("b.pdf", "arxiv.org", None, 300, 1000),
        row("c.png", "github.com", Some("/Users/yy/Pictures"), 200, 2000),
    ]
}

fn shown_names(s: &PanelState) -> Vec<String> {
    s.visible.iter().map(|i| s.items[*i].name.clone()).collect()
}

fn selected_sorted(v: &[String]) -> Vec<String> {
    let mut v = v.to_vec();
    v.sort();
    v
}

#[test]
fn panel_starts_newest_first() {
    let s = PanelState::new(config(), rows(), Some(true));
    assert_eq!(shown_names(&s), vec!["a.zip", "c.png", "b.pdf"]);
    assert_eq!(s.focus_path.as_deref(), Some("/d/a.zip"));
    assert_eq!(s.anchor_path, None);
    assert_eq!(s.status, "已加载");
    assert_eq!(s.counter_text(), "已选 0 / 3");
    assert_eq!(s.monitoring_text(), "监控：运行中");
    assert_eq!(s.suggestion_text(), "建议目录：Code");
    assert_eq!(s.selected_path_text(), "路径：/d/a.zip");
}

#[test]
fn panel_texts_without_rows() {
    let s = PanelState::new(config(), vec![], None);
    assert_eq!(s.focus_path, None);
    assert_eq!(s.monitoring_text(), "监控：未知");
    assert_eq!(s.suggestion_text(), "建议目录：-");
    assert_eq!(s.selected_path_text(), "路径：-");
    let mut t = PanelState::new(config(), vec![row("b.pdf", "arxiv.org", None, 1, 1)], Some(false));
    assert_eq!(t.monitoring_text(), "监控：已停止");
    assert_eq!(t.suggestion_text(), "建议目录：暂无");
    t.row_click(5, false);
    assert!(t.selected.is_empty());
}

#[test]
fn click_and_shift_click() {
    let mut s = PanelState::new(config(), rows(), Some(true));
    s.row_click(1, false);
    assert_eq!(s.selected, vec!["/d/c.png".to_string()]);
    assert_eq!(s.anchor_path.as_deref(), Some("/d/c.png"));
    assert_eq!(s.focus_path.as_deref(), Some("/d/c.png"));
    assert_eq!(s.suggestion_text(), "建议目录：Pictures");
    s.row_click(2, true);
    assert_eq!(selected_sorted(&s.selected), vec!["/d/b.pdf", "/d/c.png"]);
    assert_eq!(s.anchor_path.as_deref(), Some("/d/c.png"));
    assert_eq!(s.focus_path.as_deref(), Some("/d/b.pdf"));
    assert_eq!(s.counter_text(), "已选 2 / 3");
    let picked: Vec<String> = s.selected_items_in_order().iter().map(|r| r.name.clone()).collect();
    assert_eq!(picked, vec!["c.png", "b.pdf"]);
    assert_eq!(s.anchor_visible_index(), Some(1));
}

#[test]
fn shift_click_without_anchor_toggles() {
    let mut s = PanelState::new(config(), rows(), None);
    s.row_click(2, true);
    assert_eq!(s.selected, vec!["/d/b.pdf".to_string()]);
    assert_eq!(s.anchor_path.as_deref(), Some("/d/b.pdf"));
}

#[test]
fn shift_click_selects_upwards_too() {
    let mut s = PanelState::new(config(), rows(), None);
    s.row_click(2, false);
    s.row_click(0, true);
    assert_eq!(selected_sorted(&s.selected), vec!["/d/a.zip", "/d/b.pdf", "/d/c.png"]);
}

#[test]
fn toggling_twice_restores_the_selection() {
    let mut s = PanelState::new(config(), rows(), None);
    s.row_click(0, false);
    let before = selected_sorted(&s.selected);
    s.toggle_row(1);
    assert_eq!(selected_sorted(&s.selected), vec!["/d/a.zip", "/d/c.png"]);
    s.toggle_row(1);
    assert_eq!(selected_sorted(&s.selected), before);
    s.toggle_row(0);
    s.toggle_row(0);
    assert_eq!(selected_sorted(&s.selected), before);
}

#[test]
fn select_all_selects_every_shown_row() {
    let mut s = PanelState::new(config(), rows(), None);
    s.set_search("git".to_string());
    assert_eq!(shown_names(&s), vec!["a.zip", "c.png"]);
    s.select_all_visible();
    assert_eq!(selected_sorted(&s.selected), vec!["/d/a.zip", "/d/c.png"]);
    assert_eq!(s.anchor_path.as_deref(), Some("/d/a.zip"));
    assert_eq!(s.counter_text(), "已选 2 / 2");
    s.clear_selection();
    assert!(s.selected.is_empty());
    assert_eq!(s.anchor_path, None);
    assert_eq!(s.focus_path, None);
}

#[test]
fn search_trims_and_ignores_case() {
    let mut s = PanelState::new(config(), rows(), None);
    s.set_search("  ARXIV ".to_string());
    assert_eq!(shown_names(&s), vec!["b.pdf"]);
    assert_eq!(s.focus_path.as_deref(), Some("/d/b.pdf"));
    s.set_search("nothing".to_string());
    assert!(s.visible.is_empty());
    assert_eq!(s.focus_path, None);
    s.set_search(String::new());
    assert_eq!(s.visible.len(), 3);
}

#[test]
fn sorting_by_columns() {
    let mut s = PanelState::new(config(), rows(), None);
    s.sort_by_column(SortColumn::Name);
    assert_eq!(s.sort_by, SortBy::NameAsc);
    assert_eq!(shown_names(&s), vec!["a.zip", "b.pdf", "c.png"]);
    s.sort_by_column(SortColumn::Name);
    assert_eq!(s.sort_by, SortBy::NameDesc);
    assert_eq!(shown_names(&s), vec!["c.png", "b.pdf", "a.zip"]);
    s.sort_by_column(SortColumn::Size);
    assert_eq!(shown_names(&s), vec!["a.zip", "c.png", "b.pdf"]);
    s.sort_by_column(SortColumn::Domain);
    assert_eq!(shown_names(&s), vec!["b.pdf", "a.zip", "c.png"]);
    s.sort_by_column(SortColumn::Time);
    assert_eq!(s.sort_by, SortBy::TimeDesc);
    s.sort_by_column(SortColumn::Time);
    assert_eq!(s.sort_by, SortBy::TimeAsc);
    assert_eq!(shown_names(&s), vec!["b.pdf", "c.png", "a.zip"]);
    assert_eq!(next_sort(SortBy::TimeAsc, SortColumn::Time), SortBy::TimeDesc);
    assert_eq!(next_sort(SortBy::SizeAsc, SortColumn::Size), SortBy::SizeDesc);
}

#[test]
fn headers_show_the_sort() {
    assert_eq!(sort_header("名称", SortBy::NameAsc, SortBy::NameAsc, SortBy::NameDesc), "名称 ↑");
    assert_eq!(sort_header("名称", SortBy::NameDesc, SortBy::NameAsc, SortBy::NameDesc), "名称 ↓");
    assert_eq!(sort_header("时间", SortBy::NameDesc, SortBy::TimeAsc, SortBy::TimeDesc), "时间");
}

#[test]
fn reload_keeps_listed_selection() {
    let mut s = PanelState::new(config(), rows(), None);
    s.row_click(1, false);
    s.row_click(0, false);
    assert_eq!(s.anchor_path.as_deref(), Some("/d/a.zip"));
    let fewer = vec![row("b.pdf", "arxiv.org", None, 300, 1000), row("c.png", "github.com", None, 200, 2000)];
    s.reload(fewer, Some("/d/b.pdf".to_string()));
    assert_eq!(s.selected, vec!["/d/c.png".to_string()]);
    assert_eq!(s.anchor_path, None);
    assert_eq!(shown_names(&s), vec!["c.png", "b.pdf"]);
    assert_eq!(s.focus_path.as_deref(), Some("/d/b.pdf"));
}

#[test]
fn relative_times() {
    assert_eq!(relative_time(50_000, 80_000), "30 秒前");
    assert_eq!(relative_time(50_000, 200_000), "2 分钟前");
    assert_eq!(relative_time(0, 7_200_000), "2 小时前");
    assert_eq!(relative_time(0, 259_200_000), "3 天前");
    assert_eq!(relative_time(10, 0), "0 秒前");
}

#[test]
fn rows_for_directory_entries() {
    let mut memory = Memory::new();
    memory.set_count("github.com", "/Users/yy/Code", 3);
    let r = row_for_entry("/d/a.zip", true, 10, 20, Some("github.com".to_string()), &memory, "/d").unwrap();
    assert_eq!(r.name, "a.zip");
    assert_eq!(r.suggestion.as_deref(), Some("/Users/yy/Code"));
    let u = row_for_entry("/d/b.zip", true, 10, 20, None, &memory, "/d").unwrap();
    assert_eq!(u.domain, "未知来源");
    assert_eq!(u.suggestion, None);
    assert!(row_for_entry("/d/.hidden", true, 1, 1, None, &memory, "/d").is_none());
    assert!(row_for_entry("/d/folder", false, 1, 1, None, &memory, "/d").is_none());
}

#[test]
fn suggested_moves_skip_rows_without_suggestion() {
    let (moves, skipped) = plan_suggested_moves(&rows());
    assert_eq!(skipped, 1);
    assert_eq!(moves.len(), 2);
    assert_eq!(moves[0].path, "/d/a.zip");
    assert_eq!(moves[0].domain, "github.com");
    assert_eq!(moves[0].target, "/Users/yy/Code");
    assert_eq!(moves[1].target, "/Users/yy/Pictures");
}

#[test]
fn bulk_status_texts() {
    assert_eq!(suggested_moves_status(2, 1), "批量移动完成：成功 2，无建议跳过 1");
    assert_eq!(folder_moves_status(3), "批量移动完成：3 个文件");
    assert_eq!(trash_status(0), "批量删除完成：0 个文件已进废纸篓");
}

fn table_names(app: &PanelApp) -> Vec<String> {
    app.items.iter().map(|i| i.name.clone()).collect()
}

#[test]
fn table_starts_sorted_by_name() {
    let app = PanelApp::new(config(), rows());
    assert_eq!(table_names(&app), vec!["a.zip", "b.pdf", "c.png"]);
    assert_eq!(app.sort_by, SortBy::NameAsc);
    assert_eq!(app.filtered_indices(), vec![0, 1, 2]);
}

#[test]
fn table_search_spans_name_and_source() {
    let mut app = PanelApp::new(config(), rows());
    app.search = "  ARX ".to_string();
    assert_eq!(app.filtered_indices(), vec![1]);
    app.search = "zip git".to_string();
    assert_eq!(app.filtered_indices(), vec![0]);
    app.search = "pdf git".to_string();
    assert_eq!(app.filtered_indices(), Vec::<usize>::new());
}

#[test]
fn table_row_selection() {
    let mut app = PanelApp::new(config(), rows());
    let shown = app.filtered_indices();
    app.apply_row_selection(&shown, 0, false);
    assert_eq!(app.selected, vec!["/d/a.zip".to_string()]);
    assert_eq!(app.anchor_idx, Some(0));
    app.apply_row_selection(&shown, 2, true);
    assert_eq!(selected_sorted(&app.selected), vec!["/d/a.zip", "/d/b.pdf", "/d/c.png"]);
    assert_eq!(app.anchor_idx, Some(0));
    app.apply_row_selection(&shown, 1, false);
    assert_eq!(selected_sorted(&app.selected), vec!["/d/a.zip", "/d/c.png"]);
    assert_eq!(app.anchor_idx, Some(1));
    app.apply_row_selection(&shown, 9, false);
    assert_eq!(app.anchor_idx, Some(1));
    let checked: Vec<String> = app.checked_items().iter().map(|r| r.name.clone()).collect();
    assert_eq!(checked, vec!["a.zip", "c.png"]);
}

#[test]
fn table_shift_click_without_anchor_checks() {
    let mut app = PanelApp::new(config(), rows());
    let shown = app.filtered_indices();
    app.apply_row_selection(&shown, 1, true);
    app.apply_row_selection(&shown, 1, true);
    assert_eq!(app.selected, vec!["/d/b.pdf".to_string()]);
    assert_eq!(app.anchor_idx, Some(1));
}

#[test]
fn table_check_boxes_and_select_all() {
    let mut app = PanelApp::new(config(), rows());
    let shown = app.filtered_indices();
    app.set_row_checked(&shown, 2, true);
    assert_eq!(app.selected, vec!["/d/c.png".to_string()]);
    assert_eq!(app.anchor_idx, Some(2));
    app.set_row_checked(&shown, 2, false);
    assert!(app.selected.is_empty());
    app.search = "github".to_string();
    app.select_all_filtered();
    assert_eq!(selected_sorted(&app.selected), vec!["/d/a.zip", "/d/c.png"]);
    app.clear_selection();
    assert!(app.selected.is_empty());
    assert_eq!(app.anchor_idx, Some(2));
}

#[test]
fn table_sort_toggles() {
    let mut app = PanelApp::new(config(), rows());
    app.toggle_sort(SortBy::SizeAsc, SortBy::SizeDesc);
    assert_eq!(app.sort_by, SortBy::SizeAsc);
    assert_eq!(table_names(&app), vec!["a.zip", "c.png", "b.pdf"]);
    assert_eq!(app.sort_label("大小", SortBy::SizeAsc, SortBy::SizeDesc), "大小 ↑");
    app.toggle_sort(SortBy::SizeAsc, SortBy::SizeDesc);
    assert_eq!(table_names(&app), vec!["b.pdf", "c.png", "a.zip"]);
    app.toggle_sort(SortBy::TimeAsc, SortBy::TimeDesc);
    assert_eq!(app.sort_by, SortBy::TimeAsc);
    assert_eq!(table_names(&app), vec!["b.pdf", "c.png", "a.zip"]);
    assert_eq!(app.sort_label("名称", SortBy::NameAsc, SortBy::NameDesc), "名称");
}

#[test]
fn table_sort_is_stable() {
    let items = vec![
        row("x", "same.org", None, 1, 1),
        row("y", "same.org", None, 1, 1),
        row("w", "a.org", None, 1, 1),
    ];
    let mut app = PanelApp::new(config(), items);
    app.toggle_sort(SortBy::DomainAsc, SortBy::DomainDesc);
    assert_eq!(table_names(&app), vec!["w", "x", "y"]);
    app.toggle_sort(SortBy::DomainAsc, SortBy::DomainDesc);
    assert_eq!(table_names(&app), vec!["x", "y", "w"]);
}

#[test]
fn table_reload_keeps_listed_checks() {
    let mut app = PanelApp::new(config(), rows());
    let shown = app.filtered_indices();
    app.apply_row_selection(&shown, 0, false);
    app.apply_row_selection(&shown, 1, false);
    app.reload(vec![row("b.pdf", "arxiv.org", None, 300, 1000)]);
    assert_eq!(app.selected, vec!["/d/b.pdf".to_string()]);
    assert_eq!(table_names(&app), vec!["b.pdf"]);
}

#[test]
fn compact_names() {
    assert_eq!(compact_name("abcdefghij"), "abcdefgh...");
    assert_eq!(compact_name("abcdefgh"), "abcdefgh");
    assert_eq!(compact_name("文档资料整理归档备份区"), "文档资料整理归档...");
}

#[test]
fn suggestion_names_and_move_labels() {
    let with = row("a.zip", "g", Some("/Users/yy/Documents-Archive"), 1, 1);
    assert_eq!(suggestion_name(&with), Some("Document...".to_string()));
    assert_eq!(move_label(&with), "移到Document...");
    let root = row("a.zip", "g", Some("/"), 1, 1);
    assert_eq!(suggestion_name(&root), None);
    assert_eq!(move_label(&root), "移到建议");
    let none = row("a.zip", "g", None, 1, 1);
    assert_eq!(move_label(&none), "移到建议");
}

#[test]
fn table_relative_times() {
    assert_eq!(download_cleaner::panel_app::relative_time(50_000, 80_000), "刚刚");
    assert_eq!(download_cleaner::panel_app::relative_time(0, 150_000), "2 分钟前");
    assert_eq!(download_cleaner::panel_app::relative_time(0, 7_200_000), "2 小时前");
    assert_eq!(download_cleaner::panel_app::relative_time(0, 172_800_000), "2 天前");
    assert_eq!(download_cleaner::panel_app::relative_time(9, 0), "刚刚");
}

#[test]
fn wrapped_lines() {
    assert_eq!(wrapped_line_count("", 8), 1);
    assert_eq!(wrapped_line_count("abcdefghij", 8), 2);
    assert_eq!(wrapped_line_count("abcdefgh", 8), 2);
    assert_eq!(wrapped_line_count("中文字", 4), 2);
    assert_eq!(wrapped_line_count("a\nb", 8), 2);
}

#[test]
fn moving_with_nothing_selected_asks_for_a_selection() {
    let mut s = PanelState::new(config(), rows(), None);
    assert!(s.plan_move_to_suggestions().is_none());
    assert_eq!(s.status, "请先选择文件");
    let mut t = PanelState::new(config(), rows(), None);
    assert!(t.selected_for_action().is_none());
    assert_eq!(t.status, "请先选择文件");
}

#[test]
fn moving_the_shown_selection() {
    let mut s = PanelState::new(config(), rows(), None);
    s.row_click(0, false);
    s.row_click(2, false);
    let (moves, skipped) = s.plan_move_to_suggestions().unwrap();
    assert_eq!(skipped, 1);
    assert_eq!(moves.len(), 1);
    assert_eq!(moves[0].target, "/Users/yy/Code");
    assert_eq!(s.status, "已加载");
    let picked: Vec<String> = s.selected_for_action().unwrap().iter().map(|r| r.name.clone()).collect();
    assert_eq!(picked, vec!["a.zip", "b.pdf"]);
    s.set_search("arxiv".to_string());
    let picked: Vec<String> = s.selected_for_action().unwrap().iter().map(|r| r.name.clone()).collect();
    assert_eq!(picked, vec!["b.pdf"]);
}

#[test]
fn table_bulk_actions_need_checked_rows() {
    let mut app = PanelApp::new(config(), rows());
    assert!(app.plan_bulk_move().is_none());
    assert_eq!(app.status, "请先勾选文件");
    app.status = "x".to_string();
    assert!(app.bulk_trash_paths().is_none());
    assert_eq!(app.status, "请先勾选文件");
    let shown = app.filtered_indices();
    app.apply_row_selection(&shown, 2, false);
    app.apply_row_selection(&shown, 1, false);
    let (moves, skipped) = app.plan_bulk_move().unwrap();
    assert_eq!(skipped, 1);
    assert_eq!(moves[0].path, "/d/c.png");
    assert_eq!(app.bulk_trash_paths().unwrap(), vec!["/d/c.png".to_string(), "/d/b.pdf".to_string()]);
    assert_eq!(app.status, "请先勾选文件");
}
