use download_cleaner::config::{parse_u64, EnvValues};
use download_cleaner::daemon::{
    compact_pending, compact_processed, drain_due_paths, prepare_step, ready_download, record_outcome, PathOutcome,
    PrepareStep, prepare_ready_download, prune_processed, record_existing_file, retry_later,
    schedule_event_paths, settle, KnownSet, PendingEntry, PendingTable, ProcessedTable, Settle,
    PENDING_MAX_WAIT_MS,
};
use download_cleaner::file_ops::{
    destination_candidate, has_temp_ending, is_cross_device_error, move_target, should_ignore_path,
};
use download_cleaner::memory::{memory_summary, top_destination, Memory};
use download_cleaner::metadata::{
    collect_plist_strings, extract_source_domain, first_domain_in_text, source_domain_of_plist, strip_www, MetadataError,
    PlistNode,
};
use download_cleaner::pathing::{expand_home, file_name, is_inside_dir, join_path, same_path};
use download_cleaner::queues::{
    batch_domain, compact_domain_queues, batch_key, enqueue_ready_downloads, next_timeout, process_due_queues, DomainQueues,
};
use download_cleaner::types::{AppConfig, FileSignature, ReadyDownload};

fn paths(v: &[&str]) -> Vec<String> {
    v.iter().map(|s| s.to_string()).collect()
}

fn download(path: &str, name: &str, domain: &str, modified_ms: u128) -> ReadyDownload {
    ReadyDownload {
        path: path.to_string(),
        file_name: name.to_string(),
        domain: domain.to_string(),
        modified_ms,
    }
}

fn signature(path: &str, size: u64, modified_ms: u128) -> FileSignature {
    FileSignature { path: path.to_string(), size, modified_ms }
}

fn env(home: &str) -> EnvValues {
    EnvValues {
        home: home.to_string(),
        downloads_dir: None,
        memory_path: None,
        complete_delay_ms: None,
        batch_window_ms: None,
        scan_existing: None,
    }
}

#[test]
fn config_defaults_come_from_home() {
    let c = AppConfig::from_env(&env("/Users/yy"));
    assert_eq!(c.downloads_dir, "/Users/yy/Downloads");
    assert_eq!(c.memory_path, "/Users/yy/.config/smart_dl_memory.json");
    assert_eq!(c.complete_delay_ms, 500);
    assert_eq!(c.batch_window_ms, 5000);
    assert!(!c.scan_existing);
}

#[test]
fn config_reads_the_given_values() {
    let mut e = env("/Users/yy");
    e.downloads_dir = Some("~/Dl".to_string());
    e.memory_path = Some("/tmp/m.json".to_string());
    e.complete_delay_ms = Some("2000".to_string());
    e.batch_window_ms = Some("2500".to_string());
    e.scan_existing = Some("1".to_string());
    let c = AppConfig::from_env(&e);
    assert_eq!(c.downloads_dir, "/Users/yy/Dl");
    assert_eq!(c.memory_path, "/tmp/m.json");
    assert_eq!(c.complete_delay_ms, 2000);
    assert_eq!(c.batch_window_ms, 2500);
    assert!(c.scan_existing);
}

#[test]
fn config_falls_back_on_bad_numbers() {
    let mut e = env("/h");
    e.complete_delay_ms = Some("abc".to_string());
    e.batch_window_ms = Some("-3".to_string());
    e.scan_existing = Some("true".to_string());
    let c = AppConfig::from_env(&e);
    assert_eq!(c.complete_delay_ms, 500);
    assert_eq!(c.batch_window_ms, 5000);
    assert!(!c.scan_existing);
}

#[test]
fn parse_u64_follows_from_str() {
    assert_eq!(parse_u64("42"), Some(42));
    assert_eq!(parse_u64("+7"), Some(7));
    assert_eq!(parse_u64("18446744073709551615"), Some(u64::MAX));
    assert_eq!(parse_u64("18446744073709551616"), None);
    assert_eq!(parse_u64(""), None);
    assert_eq!(parse_u64("+"), None);
    assert_eq!(parse_u64(" 1"), None);
}

#[test]
fn ignored_paths() {
    assert!(should_ignore_path("/d/.DS_Store"));
    assert!(should_ignore_path("/d/movie.mkv.part"));
    assert!(should_ignore_path("/d/setup.CRDOWNLOAD"));
    assert!(should_ignore_path("/d/a.Download"));
    assert!(should_ignore_path("/d/x.tmp"));
    assert!(should_ignore_path("/d/y.opdownload"));
    assert!(should_ignore_path("/"));
    assert!(should_ignore_path("/d/.."));
    assert!(!should_ignore_path("/d/report.pdf"));
    assert!(!should_ignore_path("/d/partial.zip"));
}

#[test]
fn temp_endings_of_lowercased_names() {
    assert!(has_temp_ending("x.part"));
    assert!(has_temp_ending(".tmp"));
    assert!(!has_temp_ending("x.PART"));
    assert!(!has_temp_ending("x.zip"));
}

#[test]
fn path_helpers() {
    assert_eq!(file_name("/d/a.zip"), "a.zip");
    assert_eq!(file_name("/"), "/");
    assert!(same_path("/d/x/", "/d//x"));
    assert!(!same_path("/d/x", "/d/y"));
    assert!(is_inside_dir("/d/a.zip", "/d"));
    assert!(!is_inside_dir("/d/sub/a.zip", "/d"));
    assert_eq!(join_path("/t", "a"), "/t/a");
    assert_eq!(expand_home("~", "/h"), "/h");
    assert_eq!(expand_home("~/x", "/h"), "/h/x");
    assert_eq!(expand_home("/abs", "/h"), "/abs");
}

#[test]
fn destination_names() {
    assert_eq!(destination_candidate("/t", "a.tar.gz", 0), "/t/a.tar.gz");
    assert_eq!(destination_candidate("/t", "a.tar.gz", 1), "/t/a.tar 2.gz");
    assert_eq!(destination_candidate("/t", "README", 2), "/t/README 3");
    assert_eq!(destination_candidate("/t", ".bashrc", 1), "/t/.bashrc 2");
}

#[test]
fn cross_device_error_code() {
    assert!(is_cross_device_error(Some(18)));
    assert!(!is_cross_device_error(Some(2)));
    assert!(!is_cross_device_error(None));
}

#[test]
fn move_target_leaves_downloads_alone() {
    assert_eq!(move_target("~/Docs", "/Users/yy", "/Users/yy/Downloads"), Some("/Users/yy/Docs".to_string()));
    assert_eq!(move_target("~/Downloads/", "/Users/yy", "/Users/yy/Downloads"), None);
    assert_eq!(move_target("/Users/yy/Downloads", "/Users/yy", "/Users/yy/Downloads"), None);
}

#[test]
fn record_choice_counts_up() {
    let mut m = Memory::new();
    assert!(m.is_empty());
    m.record_choice("github.com", "/Users/yy/Code");
    m.record_choice("github.com", "/Users/yy/Code");
    m.record_choice("github.com", "/Users/yy/Downloads");
    assert_eq!(m.count("github.com", "/Users/yy/Code"), Some(2));
    assert_eq!(m.count("github.com", "/Users/yy/Downloads"), Some(1));
    assert_eq!(m.count("github.com", "/elsewhere"), None);
    assert_eq!(m.count("other.org", "/Users/yy/Code"), None);
    assert_eq!(m.len(), 1);
}

#[test]
fn record_choice_leaves_other_counts() {
    let mut m = Memory::new();
    m.set_count("a.com", "/x", 4);
    m.set_count("b.com", "/y", 9);
    m.record_choice("a.com", "/z");
    assert_eq!(m.count("a.com", "/x"), Some(4));
    assert_eq!(m.count("b.com", "/y"), Some(9));
    assert_eq!(m.count("a.com", "/z"), Some(1));
}

#[test]
fn top_destination_skips_downloads() {
    let mut m = Memory::new();
    m.set_count("github.com", "/Users/yy/Code", 5);
    m.set_count("github.com", "/Users/yy/Downloads", 9);
    let top = top_destination(&m, "github.com", "/Users/yy/Downloads");
    assert_eq!(top, Some(("/Users/yy/Code".to_string(), 5)));
    assert_eq!(top_destination(&m, "nowhere.org", "/Users/yy/Downloads"), None);
}

#[test]
fn top_destination_takes_last_of_equal_counts() {
    let mut m = Memory::new();
    m.set_count("a.com", "/x/B", 3);
    m.set_count("a.com", "/x/A", 3);
    m.set_count("a.com", "/x/C", 1);
    assert_eq!(top_destination(&m, "a.com", "/d"), Some(("/x/B".to_string(), 3)));
}

#[test]
fn top_destination_none_when_only_downloads() {
    let mut m = Memory::new();
    m.set_count("a.com", "/d/", 3);
    assert_eq!(top_destination(&m, "a.com", "/d"), None);
}

#[test]
fn summary_of_empty_memory() {
    assert_eq!(memory_summary(&Memory::new()), "记忆库为空。先处理几次下载后，这里会出现常用归档目录。");
}

#[test]
fn summary_lines_per_domain() {
    let mut m = Memory::new();
    m.set_count("github.com", "/Users/yy/Code", 5);
    m.set_count("github.com", "/Users/yy/Downloads", 1);
    m.set_count("arxiv.org", "/", 2);
    assert_eq!(memory_summary(&m), "域名条目: 2\narxiv.org -> 目标目录 (2)\ngithub.com -> Code (5)");
}

#[test]
fn summary_cuts_after_eight_domains() {
    let mut m = Memory::new();
    for i in 0..9 {
        m.set_count(&format!("d{i}.com"), "/t/x", i as u64);
    }
    let s = memory_summary(&m);
    let lines: Vec<&str> = s.split('\n').collect();
    assert_eq!(lines.len(), 10);
    assert_eq!(lines[0], "域名条目: 9");
    assert_eq!(lines[1], "d0.com -> x (0)");
    assert_eq!(lines[8], "d7.com -> x (7)");
    assert_eq!(lines[9], "...");
}

#[test]
fn domain_in_text() {
    assert_eq!(first_domain_in_text("see (https://www.rust-lang.org/tools)."), Some("rust-lang.org".to_string()));
    assert_eq!(first_domain_in_text("ftp://x.org http://EXAMPLE.com/a"), Some("example.com".to_string()));
    assert_eq!(first_domain_in_text("[https://a.b/c];"), Some("a.b".to_string()));
    assert_eq!(first_domain_in_text("no urls here"), None);
    assert_eq!(first_domain_in_text("https://"), None);
}

const WHERE_FROMS: &str = r#"<?xml version="1.0" encoding="UTF-8"?>
<!DOCTYPE plist PUBLIC "-//Apple//DTD PLIST 1.0//EN" "http://www.apple.com/DTDs/PropertyList-1.0.dtd">
<plist version="1.0">
<array>
  <string>https://www.Example.com/files/report.pdf</string>
  <string>https://google.com/</string>
</array>
</plist>
"#;

#[test]
fn source_domain_from_where_froms() {
    let r = extract_source_domain(Some(WHERE_FROMS.as_bytes()));
    assert_eq!(r, Ok("example.com".to_string()));
}

#[test]
fn source_domain_without_attribute() {
    assert_eq!(extract_source_domain(None), Ok("未知来源".to_string()));
}

#[test]
fn source_domain_without_urls() {
    let doc = r#"<?xml version="1.0" encoding="UTF-8"?>
<plist version="1.0"><array><string>hello</string></array></plist>"#;
    assert_eq!(extract_source_domain(Some(doc.as_bytes())), Ok("未知来源".to_string()));
}

#[test]
fn source_domain_of_bad_attribute() {
    assert_eq!(extract_source_domain(Some(b"not a plist")), Err(MetadataError::InvalidPlist));
}

#[test]
fn scheduling_keeps_first_seen() {
    let mut pending = PendingTable::new();
    schedule_event_paths(&mut pending, &paths(&["/d/a.zip", "/d/sub/b.zip", "/d/.hidden", "/d/c.part", "/e/x.zip"]), "/d", 500, 1000);
    assert_eq!(pending.len(), 1);
    assert_eq!(pending.get("/d/a.zip"), Some(PendingEntry { due_ms: 1500, first_seen_ms: 1000 }));
    schedule_event_paths(&mut pending, &paths(&["/d/a.zip"]), "/d", 500, 1200);
    assert_eq!(pending.get("/d/a.zip"), Some(PendingEntry { due_ms: 1700, first_seen_ms: 1000 }));
    assert_eq!(pending.len(), 1);
}

#[test]
fn drained_paths_come_sorted() {
    let mut pending = PendingTable::new();
    schedule_event_paths(&mut pending, &paths(&["/d/zeta", "/d/alpha", "/d/mid"]), "/d", 100, 0);
    schedule_event_paths(&mut pending, &paths(&["/d/late"]), "/d", 100, 50);
    assert_eq!(drain_due_paths(&mut pending, 99), Vec::<(String, u64)>::new());
    let due = drain_due_paths(&mut pending, 100);
    assert_eq!(due, vec![("/d/alpha".to_string(), 0), ("/d/mid".to_string(), 0), ("/d/zeta".to_string(), 0)]);
    assert_eq!(pending.len(), 1);
    let due = drain_due_paths(&mut pending, 150);
    assert_eq!(due, vec![("/d/late".to_string(), 50)]);
    assert!(pending.is_empty());
}

#[test]
fn settling_waits_twenty_seconds() {
    assert_eq!(settle(true, 0, 0), Settle::Stable);
    assert_eq!(settle(false, 1000, 1000 + PENDING_MAX_WAIT_MS - 1), Settle::RetryLater);
    assert_eq!(settle(false, 1000, 1000 + PENDING_MAX_WAIT_MS), Settle::WaitedTooLong);
    assert_eq!(settle(false, 5000, 10), Settle::RetryLater);
}

#[test]
fn retrying_keeps_first_seen() {
    let mut pending = PendingTable::new();
    retry_later(&mut pending, "/d/a", 100, 2000, 500);
    assert_eq!(pending.get("/d/a"), Some(PendingEntry { due_ms: 2500, first_seen_ms: 100 }));
}

#[test]
fn a_file_state_is_offered_once() {
    let known = KnownSet::new();
    let mut processed = ProcessedTable::new();
    let sig = signature("/d/a.zip", 10, 5);
    assert!(prepare_ready_download(false, &known, &mut processed, &sig, 100));
    assert!(!prepare_ready_download(false, &known, &mut processed, &sig, 200));
    assert_eq!(processed.len(), 1);
    let changed = signature("/d/a.zip", 11, 5);
    assert!(prepare_ready_download(false, &known, &mut processed, &changed, 300));
    assert_eq!(processed.len(), 2);
}

#[test]
fn files_present_at_start_are_skipped() {
    let mut pending = PendingTable::new();
    let mut known = KnownSet::new();
    record_existing_file(false, 500, &mut pending, &mut known, "/d/old.zip", signature("/d/old.zip", 1, 1), 0);
    assert!(pending.is_empty());
    assert!(known.contains(&signature("/d/old.zip", 1, 1)));
    let mut processed = ProcessedTable::new();
    assert!(!prepare_ready_download(false, &known, &mut processed, &signature("/d/old.zip", 1, 1), 10));
    assert!(prepare_ready_download(true, &known, &mut processed, &signature("/d/old.zip", 1, 1), 10));
}

#[test]
fn files_present_at_start_wait_when_scanned() {
    let mut pending = PendingTable::new();
    let mut known = KnownSet::new();
    record_existing_file(true, 500, &mut pending, &mut known, "/d/old.zip", signature("/d/old.zip", 1, 1), 7);
    assert_eq!(pending.get("/d/old.zip"), Some(PendingEntry { due_ms: 507, first_seen_ms: 7 }));
    assert!(!known.contains(&signature("/d/old.zip", 1, 1)));
}

#[test]
fn pruning_forgets_entries_older_than_an_hour() {
    let known = KnownSet::new();
    let mut processed = ProcessedTable::new();
    prepare_ready_download(false, &known, &mut processed, &signature("/d/a", 1, 1), 0);
    prepare_ready_download(false, &known, &mut processed, &signature("/d/b", 1, 1), 1000);
    prune_processed(&mut processed, 3_600_000);
    assert_eq!(processed.len(), 2);
    prune_processed(&mut processed, 3_600_001);
    assert_eq!(processed.len(), 1);
    assert!(!processed.contains(&signature("/d/a", 1, 1)));
    assert!(processed.contains(&signature("/d/b", 1, 1)));
}

#[test]
fn batch_keys() {
    assert_eq!(batch_key(&download("/d/a", "a", "github.com", 0)), "github.com");
    assert_eq!(batch_key(&download("/d/a", "a", "未知来源", 0)), "unknown:/d/a");
    assert_eq!(batch_domain(&vec![download("/d/a", "a", "x.org", 0)]), "x.org");
    assert_eq!(batch_domain(&vec![]), "未知来源");
}

#[test]
fn downloads_from_one_source_are_batched() {
    let mut queues = DomainQueues::new();
    enqueue_ready_downloads(
        &mut queues,
        vec![
            download("/d/b.zip", "b.zip", "github.com", 20),
            download("/d/x", "x", "未知来源", 5),
            download("/d/a.zip", "a.zip", "github.com", 10),
        ],
        0,
        1500,
    );
    assert_eq!(queues.len(), 2);
    let pending = PendingTable::new();
    assert_eq!(next_timeout(&pending, &queues, 0), Some(800));
    assert!(process_due_queues(&mut queues, 799).is_empty());
    let due = process_due_queues(&mut queues, 800);
    assert_eq!(due.len(), 1);
    assert_eq!(due[0].len(), 1);
    assert_eq!(due[0][0].path, "/d/x");
    assert_eq!(next_timeout(&pending, &queues, 800), Some(700));
    let due = process_due_queues(&mut queues, 1500);
    assert_eq!(due.len(), 1);
    let names: Vec<&str> = due[0].iter().map(|d| d.file_name.as_str()).collect();
    assert_eq!(names, vec!["a.zip", "b.zip"]);
    assert!(queues.is_empty());
    assert_eq!(next_timeout(&pending, &queues, 1500), None);
}

#[test]
fn a_single_download_waits_the_grace_period() {
    let mut queues = DomainQueues::new();
    enqueue_ready_downloads(&mut queues, vec![download("/d/a", "a", "s.com", 1)], 100, 5000);
    assert!(process_due_queues(&mut queues, 899).is_empty());
    assert_eq!(process_due_queues(&mut queues, 900).len(), 1);
}

#[test]
fn due_groups_come_in_key_order() {
    let mut queues = DomainQueues::new();
    enqueue_ready_downloads(&mut queues, vec![download("/d/1", "1", "zz.com", 1), download("/d/2", "2", "aa.com", 1)], 0, 1000);
    let due = process_due_queues(&mut queues, 5000);
    assert_eq!(due.len(), 2);
    assert_eq!(due[0][0].domain, "aa.com");
    assert_eq!(due[1][0].domain, "zz.com");
}

#[test]
fn next_timeout_takes_the_nearest() {
    let mut pending = PendingTable::new();
    schedule_event_paths(&mut pending, &paths(&["/d/a"]), "/d", 300, 0);
    let queues = DomainQueues::new();
    assert_eq!(next_timeout(&pending, &queues, 100), Some(200));
    assert_eq!(next_timeout(&pending, &queues, 400), Some(0));
}

#[test]
fn www_is_stripped_once() {
    assert_eq!(strip_www("www.example.com"), "example.com");
    assert_eq!(strip_www("www.www.a.org"), "www.a.org");
    assert_eq!(strip_www("wwwx.com"), "wwwx.com");
}

fn text_node(s: &str) -> PlistNode {
    PlistNode::String(s.to_string())
}

#[test]
fn plist_strings_depth_first() {
    let node = PlistNode::Array(vec![
        text_node("one"),
        PlistNode::Dictionary(vec![text_node("two"), PlistNode::Other, PlistNode::Array(vec![text_node("three")])]),
        text_node("four"),
    ]);
    let mut out = vec!["zero".to_string()];
    collect_plist_strings(&node, &mut out);
    assert_eq!(out, vec!["zero", "one", "two", "three", "four"]);
}

#[test]
fn source_of_a_parsed_list() {
    let node = PlistNode::Array(vec![
        text_node("no url"),
        PlistNode::Dictionary(vec![text_node("https://www.files.example.org/x.zip")]),
        text_node("https://later.org/"),
    ]);
    assert_eq!(source_domain_of_plist(&node), "files.example.org");
    assert_eq!(source_domain_of_plist(&PlistNode::Other), "未知来源");
}

#[test]
fn compacting_keeps_contents() {
    let mut pending = PendingTable::new();
    compact_pending(&mut pending);
    assert!(pending.is_empty());
    schedule_event_paths(&mut pending, &paths(&["/d/a"]), "/d", 10, 0);
    compact_pending(&mut pending);
    assert_eq!(pending.get("/d/a"), Some(PendingEntry { due_ms: 10, first_seen_ms: 0 }));

    let known = KnownSet::new();
    let mut processed = ProcessedTable::new();
    compact_processed(&mut processed);
    prepare_ready_download(false, &known, &mut processed, &signature("/d/a", 1, 1), 0);
    compact_processed(&mut processed);
    assert!(processed.contains(&signature("/d/a", 1, 1)));

    let mut queues = DomainQueues::new();
    compact_domain_queues(&mut queues);
    enqueue_ready_downloads(&mut queues, vec![download("/d/a", "a", "s.com", 1)], 0, 100);
    compact_domain_queues(&mut queues);
    assert_eq!(queues.len(), 1);
}

#[test]
fn enqueued_downloads_keep_their_order_per_source() {
    let mut queues = DomainQueues::new();
    enqueue_ready_downloads(&mut queues, vec![download("/d/1", "1", "a.com", 50)], 0, 1000);
    enqueue_ready_downloads(
        &mut queues,
        vec![
            download("/d/2", "2", "b.com", 40),
            download("/d/3", "3", "a.com", 30),
            download("/d/4", "4", "a.com", 20),
        ],
        10,
        1000,
    );
    assert_eq!(queues.len(), 2);
    let due = process_due_queues(&mut queues, 10_000);
    assert_eq!(due.len(), 2);
    let a: Vec<&str> = due[0].iter().map(|d| d.file_name.as_str()).collect();
    assert_eq!(a, vec!["4", "3", "1"]);
    assert_eq!(due[1].len(), 1);
}

#[test]
fn first_decision_on_a_due_path() {
    assert_eq!(prepare_step(true, true, true, true, 0, 0), PrepareStep::Done);
    assert_eq!(prepare_step(false, false, true, true, 0, 0), PrepareStep::Done);
    assert_eq!(prepare_step(false, true, false, false, 0, 0), PrepareStep::Done);
    assert_eq!(prepare_step(false, true, true, true, 0, 0), PrepareStep::ReadSignature);
    assert_eq!(prepare_step(false, true, true, false, 1000, 20_999), PrepareStep::RetryLater);
    assert_eq!(prepare_step(false, true, true, false, 1000, 21_000), PrepareStep::ReadSignature);
}

#[test]
fn ready_downloads_carry_path_name_source_and_time() {
    let sig = signature("/d/report.pdf", 10, 77);
    let d = ready_download("/d/report.pdf", &sig, Some("arxiv.org".to_string()));
    assert_eq!(d.path, "/d/report.pdf");
    assert_eq!(d.file_name, "report.pdf");
    assert_eq!(d.domain, "arxiv.org");
    assert_eq!(d.modified_ms, 77);
    assert_eq!(ready_download("/d/x", &sig, None).domain, "未知来源");
}

#[test]
fn outcomes_of_due_paths() {
    let mut pending = PendingTable::new();
    schedule_event_paths(&mut pending, &paths(&["/d/a", "/d/b", "/d/c"]), "/d", 100, 0);
    let due = drain_due_paths(&mut pending, 100);
    assert_eq!(due.len(), 3);
    let mut ready = Vec::new();
    record_outcome(&mut pending, &mut ready, "/d/a", 0, PathOutcome::RetryLater, 150, 100);
    record_outcome(&mut pending, &mut ready, "/d/b", 0, PathOutcome::Done, 150, 100);
    let d = ready_download("/d/c", &signature("/d/c", 1, 5), None);
    record_outcome(&mut pending, &mut ready, "/d/c", 0, PathOutcome::Ready(d), 150, 100);
    record_outcome(&mut pending, &mut ready, "/d/e", 0, PathOutcome::Failed, 150, 100);
    assert_eq!(pending.len(), 1);
    assert_eq!(pending.get("/d/a"), Some(PendingEntry { due_ms: 250, first_seen_ms: 0 }));
    assert_eq!(ready.len(), 1);
    assert_eq!(ready[0].path, "/d/c");
}
