use download_cleaner::launch_agent::{
    gui_domain, install_plan, parse_uid, plist_file_name, plist_needs_write, render_plist, restart_monitoring,
    service_name, stop_monitoring, xml_escape, InstallPlan, MonitorError,
};
use download_cleaner::manager::{
    action_for_label, action_picker_script, build_action_entries, chosen_entry, empty_state_choice,
    empty_state_script, sort_items_by_name, EmptyStateAction, EntryAction, ManageItem,
};
use download_cleaner::text::escape_applescript;
use download_cleaner::types::{BatchChoice, ReadyDownload, UserChoice};
use download_cleaner::ui::{
    choose_batch_folder, choose_folder, clipboard_script, native_panel_action, native_panel_script,
    osascript_result, prompt_batch_user, prompt_user, PanelAction,
};

fn download(name: &str) -> ReadyDownload {
    ReadyDownload {
        path: format!("/d/{name}"),
        file_name: name.to_string(),
        domain: "github.com".to_string(),
        modified_ms: 0,
    }
}

#[test]
fn applescript_escaping() {
    assert_eq!(escape_applescript(r#"say "hi" \ ok"#), r#"say \"hi\" \\ ok"#);
    assert_eq!(escape_applescript("plain"), "plain");
    assert_eq!(escape_applescript(""), "");
}

#[test]
fn single_prompt_with_suggestion() {
    let suggestion = ("/Users/yy/Code".to_string(), 5u64);
    let p = prompt_user("a.zip", "github.com", Some(&suggestion));
    assert_eq!(
        p.script,
        "use scripting additions\nset resultButton to button returned of (display dialog \"来源: github.com。根据你的习惯，建议移至 Code。\" with title \"检测到新下载: a.zip\" buttons {\"放着不管\", \"选择其他...\", \"移动到 Code\"} default button \"移动到 Code\" with icon note)\nreturn resultButton"
    );
    assert!(matches!(p.choice("放着不管"), UserChoice::Ignore));
    assert!(matches!(p.choice("选择其他..."), UserChoice::ChooseOther));
    match p.choice("移动到 Code") {
        UserChoice::MoveTo(t) => assert_eq!(t, "/Users/yy/Code"),
        _ => panic!("expected a move"),
    }
}

#[test]
fn single_prompt_without_suggestion() {
    let p = prompt_user("say \"x\".txt", "未知来源", None);
    assert_eq!(
        p.script,
        "use scripting additions\nset resultButton to button returned of (display dialog \"来源: 未知来源。暂无历史建议，可以选择一个归档目录。\" with title \"检测到新下载: say \\\"x\\\".txt\" buttons {\"放着不管\", \"选择其他...\"} default button \"选择其他...\" with icon note)\nreturn resultButton"
    );
    assert!(matches!(p.choice("放着不管"), UserChoice::Ignore));
    assert!(matches!(p.choice("anything"), UserChoice::ChooseOther));
}

#[test]
fn batch_prompt_with_suggestion() {
    let downloads = vec![download("a"), download("b")];
    let suggestion = ("/Users/yy/Code".to_string(), 2u64);
    let p = prompt_batch_user("github.com", &downloads, Some(&suggestion));
    assert_eq!(
        p.script,
        "use scripting additions\nset resultButton to button returned of (display dialog \"来源: github.com。共 2 个文件：a、b。建议统一移至 Code。\" with title \"检测到同源下载: github.com（2 个）\" buttons {\"放着不管\", \"选择其他...\", \"全部移到 Code\"} default button \"全部移到 Code\" with icon note)\nreturn resultButton"
    );
    assert!(matches!(p.choice("放着不管"), BatchChoice::IgnoreAll));
    assert!(matches!(p.choice("逐个处理"), BatchChoice::OneByOne));
    assert!(matches!(p.choice("选择其他..."), BatchChoice::ChooseOtherAll));
    match p.choice("全部移到 Code") {
        BatchChoice::MoveAllTo(t) => assert_eq!(t, "/Users/yy/Code"),
        _ => panic!("expected a move"),
    }
}

#[test]
fn batch_prompt_names_three_files() {
    let downloads = vec![download("a"), download("b"), download("c"), download("d")];
    let p = prompt_batch_user("github.com", &downloads, None);
    assert_eq!(
        p.script,
        "use scripting additions\nset resultButton to button returned of (display dialog \"来源: github.com。共 4 个文件：a、b、c 等。当前没有历史建议。\" with title \"检测到同源下载: github.com（4 个）\" buttons {\"放着不管\", \"逐个处理\", \"选择其他...\"} default button \"选择其他...\" with icon note)\nreturn resultButton"
    );
    assert!(matches!(p.choice("全部移到 x"), BatchChoice::ChooseOtherAll));
}

#[test]
fn folder_pickers() {
    let p = choose_folder("a.zip");
    assert_eq!(
        p.script,
        "use scripting additions\nset selectedPath to POSIX path of (choose folder with prompt \"选择「a.zip」的归档目录\")\nreturn selectedPath"
    );
    assert_eq!(p.folder("  /Users/yy/Code/\n"), "/Users/yy/Code/");
    let b = choose_batch_folder("github.com", 3);
    assert_eq!(
        b.script,
        "use scripting additions\nset selectedPath to POSIX path of (choose folder with prompt \"为 github.com 的 3 个文件选择目标目录\")\nreturn selectedPath"
    );
}

#[test]
fn summary_panel_answers() {
    assert!(native_panel_script().contains("复制摘要"));
    assert_eq!(native_panel_action("打开记忆库文件"), PanelAction::OpenMemoryFile);
    assert_eq!(native_panel_action("复制摘要"), PanelAction::CopySummary);
    assert_eq!(native_panel_action("退出"), PanelAction::Exit);
    assert_eq!(clipboard_script("a\"b"), "use scripting additions\nset the clipboard to \"a\\\"b\"");
}

#[test]
fn osascript_outcomes() {
    assert_eq!(osascript_result(true, "  复制摘要\n", ""), Ok("复制摘要".to_string()));
    assert_eq!(osascript_result(false, "", " execution error\n"), Err("osascript 失败: execution error".to_string()));
}

#[test]
fn launch_agent_names() {
    assert_eq!(service_name(501), "gui/501/com.yy.download-cleaner");
    assert_eq!(gui_domain(501), "gui/501");
    assert_eq!(plist_file_name(), "com.yy.download-cleaner.plist");
    assert_eq!(parse_uid("501\n"), Some(501));
    assert_eq!(parse_uid("abc"), None);
    assert_eq!(parse_uid("4294967296"), None);
}

#[test]
fn xml_escaping() {
    assert_eq!(xml_escape("a<b>&\"'"), "a&lt;b&gt;&amp;&quot;&apos;");
    let plist = render_plist("/Apps/D&C");
    assert!(plist.starts_with("<?xml version=\"1.0\" encoding=\"UTF-8\"?>\n"));
    assert!(plist.contains("<string>/Apps/D&amp;C</string>"));
    assert!(plist.contains("<string>com.yy.download-cleaner</string>"));
}

#[test]
fn install_plans() {
    assert_eq!(install_plan(true, true, true), InstallPlan::Reload);
    assert_eq!(install_plan(true, false, true), InstallPlan::Nothing);
    assert_eq!(install_plan(false, true, false), InstallPlan::Start);
    assert_eq!(install_plan(false, false, true), InstallPlan::Nothing);
    assert!(plist_needs_write(None, "x"));
    assert!(plist_needs_write(Some("y"), "x"));
    assert!(!plist_needs_write(Some("x"), "x"));
}

#[test]
fn monitoring_outcomes() {
    assert_eq!(stop_monitoring(true), Err(MonitorError::StillRunning));
    assert_eq!(stop_monitoring(false), Ok(()));
    assert_eq!(restart_monitoring(false), Err(MonitorError::NotStarted));
    assert_eq!(restart_monitoring(true), Ok(()));
    assert_eq!(MonitorError::StillRunning.message(), "监控仍在运行");
    assert_eq!(MonitorError::NotStarted.message(), "监控未成功启动");
}

fn item(name: &str, suggestion: Option<&str>) -> ManageItem {
    ManageItem {
        path: format!("/d/{name}"),
        file_name: name.to_string(),
        domain: "github.com".to_string(),
        suggestion: suggestion.map(|s| s.to_string()),
    }
}

#[test]
fn manager_entries() {
    let items = vec![item("a.zip", Some("/Users/yy/Code")), item("b.pdf", None)];
    let (labels, actions) = build_action_entries(&items);
    assert_eq!(labels.len(), 10);
    assert_eq!(labels[0], "[白] a.zip · github.com · Code ｜移动到建议目录");
    assert_eq!(labels[1], "[白] a.zip · github.com · Code ｜选择其他目录...");
    assert_eq!(labels[4], "[白] a.zip · github.com · Code ｜在访达中显示");
    assert_eq!(labels[7], "[灰] b.pdf · github.com · 无建议 ｜放着不管");
    assert_eq!(labels[8], "[灰] b.pdf · github.com · 无建议 ｜删除到废纸篓");
    assert_eq!(actions[0], EntryAction::MoveSuggested(0));
    assert_eq!(actions[6], EntryAction::ChooseOther(1));
    assert_eq!(action_for_label(&labels, &actions, &labels[8]), Some(EntryAction::DeleteTrash(1)));
    assert_eq!(action_for_label(&labels, &actions, "nothing"), None);
}

#[test]
fn manager_picker_answers() {
    assert_eq!(chosen_entry("__CANCEL__"), None);
    assert_eq!(chosen_entry("x"), Some("x".to_string()));
    assert_eq!(empty_state_choice("打开下载文件夹"), EmptyStateAction::OpenDownloads);
    assert_eq!(empty_state_choice("打开记忆库文件"), EmptyStateAction::OpenMemory);
    assert_eq!(empty_state_choice("退出"), EmptyStateAction::Quit);
    assert!(action_picker_script().contains("__CANCEL__"));
    assert!(empty_state_script().contains("打开下载文件夹"));
}

#[test]
fn manager_sorts_by_name_stably() {
    let mut second = item("b", None);
    second.domain = "second".to_string();
    let items = vec![item("c", None), item("b", None), item("a", None), second];
    let sorted = sort_items_by_name(items);
    let names: Vec<(&str, &str)> = sorted.iter().map(|i| (i.file_name.as_str(), i.domain.as_str())).collect();
    assert_eq!(names, vec![("a", "github.com"), ("b", "github.com"), ("b", "second"), ("c", "github.com")]);
}
