use vrc_log_viewer::state::level_filter_keeps;
use std::rc::Rc;
use vrc_log_viewer::config::AppConfig;
use vrc_log_viewer::log_entry::LogEntry;
use vrc_log_viewer::message::{LogLevel, Message};
use vrc_log_viewer::state::{Action, VRCLog, ViewMode, ITEMS_PER_PAGE};
use vrc_log_viewer::vrc::parser::LogItem;

fn item(ts: &str, level: &str, raw: &str) -> LogItem {
    LogItem {
        timestamp: ts.to_string(),
        level: level.to_string(),
        log_type: "NO_TYPE".to_string(),
        message: raw.to_string(),
        details: String::new(),
        raw: raw.to_string(),
    }
}

fn shown(v: &VRCLog) -> Vec<usize> {
    v.filtered_logs().iter().map(|e| e.id).collect()
}

#[test]
fn default_config() {
    let c = AppConfig::default();
    assert_eq!((c.file_count, c.initial_logs_per_file, c.max_cached_logs), (2, 5000, 10000));
}

#[test]
fn levels() {
    let names: Vec<String> = LogLevel::all_levels().iter().map(|l| l.to_string()).collect();
    assert_eq!(names, vec!["All", "Info", "Warning", "Error", "Debug"]);
}

#[test]
fn entries_order_newest_first() {
    let a = LogEntry { id: 0, item: Rc::new(item("2024.01.01 00:00:01", "Log", "a")) };
    let b = LogEntry { id: 1, item: Rc::new(item("2024.01.01 00:00:02", "Log", "b")) };
    let c = LogEntry { id: 2, item: Rc::new(item("2024.01.01 00:00:02", "Log", "c")) };
    assert_eq!(b.cmp(&a), std::cmp::Ordering::Less);
    assert_eq!(c.cmp(&b), std::cmp::Ordering::Less);
    assert_eq!(a.cmp(&c), std::cmp::Ordering::Greater);
    assert_eq!(a.cmp(&a.clone()), std::cmp::Ordering::Equal);
    assert!(c.comes_before(&b));
}

#[test]
fn entries_are_equal_by_number() {
    let a = LogEntry { id: 7, item: Rc::new(item("2024.01.01 00:00:01", "Log", "a")) };
    let b = LogEntry { id: 7, item: Rc::new(item("2024.01.01 00:00:09", "Error", "b")) };
    let c = LogEntry { id: 8, item: Rc::new(item("2024.01.01 00:00:01", "Log", "a")) };
    assert!(a == b);
    assert!(a != c);
    assert_eq!(c.partial_cmp(&a), Some(std::cmp::Ordering::Less));
    assert!(c < a);
}

#[test]
fn records_compare_by_timestamp_level_and_message() {
    let a = item("2024.01.01 00:00:01", "Log", "a");
    let mut b = item("2024.01.01 00:00:01", "Log", "a");
    b.details = "more".to_string();
    b.log_type = "Other".to_string();
    assert!(a == b);
    assert!(a != item("2024.01.01 00:00:01", "Warning", "a"));
    assert!(a != item("2024.01.01 00:00:01", "Log", "b"));
    let newer = item("2024.01.01 00:00:02", "Log", "a");
    assert_eq!(newer.cmp(&a), std::cmp::Ordering::Less);
    assert_eq!(a.cmp(&newer), std::cmp::Ordering::Greater);
    assert_eq!(a.cmp(&item("2024.01.01 00:00:01", "Error", "z")), std::cmp::Ordering::Equal);
    assert_eq!(a.partial_cmp(&newer), Some(std::cmp::Ordering::Greater));
}

#[test]
fn new_logs_are_kept_newest_first() {
    let mut v = VRCLog::new(AppConfig::default());
    assert!(matches!(v.update(Message::NewLog(item("2024.01.01 00:00:02", "Log", "second"))), Action::Nothing));
    v.update(Message::NewLog(item("2024.01.01 00:00:01", "Log", "first")));
    v.update(Message::NewLog(item("2024.01.01 00:00:03", "Log", "third")));
    v.update(Message::NewLog(item("2024.01.01 00:00:02", "Log", "again")));
    assert_eq!(shown(&v), vec![2, 3, 0, 1]);
    assert_eq!(v.total_logs(), 4);
}

#[test]
fn cache_is_bounded_by_settings() {
    let mut v = VRCLog::new(AppConfig { file_count: 1, initial_logs_per_file: 10, max_cached_logs: 2 });
    v.update(Message::NewLog(item("2024.01.01 00:00:02", "Log", "b")));
    v.update(Message::NewLog(item("2024.01.01 00:00:03", "Log", "c")));
    v.update(Message::NewLog(item("2024.01.01 00:00:01", "Log", "a")));
    assert_eq!(shown(&v), vec![1, 0]);
    v.update(Message::OpenSettings);
    assert_eq!(v.view_mode, ViewMode::Settings);
    assert_eq!(v.temp_max_cached(), "2");
    v.update(Message::SettingsMaxCachedChanged("1".to_string()));
    let action = v.update(Message::SaveSettings);
    assert!(matches!(action, Action::SaveConfig(c) if c.max_cached_logs == 1 && c.file_count == 1));
    assert_eq!(v.view_mode, ViewMode::Logs);
    assert_eq!(shown(&v), vec![1]);
}

#[test]
fn invalid_settings_keep_values() {
    let mut v = VRCLog::new(AppConfig::default());
    v.update(Message::OpenSettings);
    v.update(Message::SettingsFileCountChanged("abc".to_string()));
    v.update(Message::SettingsInitialLogsChanged("+42".to_string()));
    v.update(Message::SaveSettings);
    assert_eq!(v.config.file_count, 2);
    assert_eq!(v.config.initial_logs_per_file, 42);
    v.update(Message::OpenSettings);
    v.update(Message::SaveSettings);
    assert_eq!(v.config.initial_logs_per_file, 42);
    v.update(Message::OpenSettings);
    v.update(Message::CloseSettings);
    assert_eq!(v.view_mode, ViewMode::Logs);
}

#[test]
fn text_filter_is_case_insensitive() {
    let mut v = VRCLog::new(AppConfig::default());
    v.update(Message::NewLog(item("2024.01.01 00:00:01", "Log", "Hello World")));
    v.update(Message::NewLog(item("2024.01.01 00:00:02", "Log", "goodbye")));
    v.update(Message::FilterTextChanged("WORLD".to_string()));
    assert_eq!(shown(&v), vec![0]);
    v.update(Message::FilterTextChanged(String::new()));
    assert_eq!(shown(&v), vec![1, 0]);
}

#[test]
fn regex_filter_and_error() {
    let mut v = VRCLog::new(AppConfig::default());
    v.update(Message::NewLog(item("2024.01.01 00:00:01", "Log", "user 42 joined")));
    v.update(Message::NewLog(item("2024.01.01 00:00:02", "Log", "user x left")));
    v.update(Message::FilterRegexToggled(true));
    v.update(Message::FilterTextChanged("USER \\d+".to_string()));
    assert_eq!(shown(&v), vec![0]);
    assert!(v.filter_regex_error().is_none());
    v.update(Message::FilterTextChanged("(".to_string()));
    assert!(shown(&v).is_empty());
    let err = v.filter_regex_error().unwrap().to_string();
    assert!(err.starts_with("Invalid regex: "));
    v.update(Message::FilterRegexToggled(false));
    assert!(v.filter_regex_error().is_none());
    assert!(shown(&v).is_empty());
}

#[test]
fn level_filter() {
    let mut v = VRCLog::new(AppConfig::default());
    v.update(Message::NewLog(item("2024.01.01 00:00:01", "Error", "e")));
    v.update(Message::NewLog(item("2024.01.01 00:00:02", "Log", "l")));
    v.update(Message::FilterLevelChanged(Some(LogLevel::Error)));
    assert_eq!(shown(&v), vec![0]);
    v.update(Message::FilterLevelChanged(Some(LogLevel::ALL)));
    assert_eq!(shown(&v), vec![1, 0]);
    v.update(Message::FilterLevelChanged(Some(LogLevel::Info)));
    assert!(shown(&v).is_empty());
    assert_eq!(v.filter_level(), Some(LogLevel::Info));
}

#[test]
fn paging_and_expansion() {
    let mut v = VRCLog::new(AppConfig::default());
    for i in 0..(ITEMS_PER_PAGE + 1) {
        v.update(Message::NewLog(item(&format!("2024.01.01 00:{:02}:{:02}", i / 60, i % 60), "Log", "m")));
    }
    assert_eq!(v.current_page(), 0);
    v.update(Message::PrevPage);
    assert_eq!(v.current_page(), 0);
    v.update(Message::NextPage);
    assert_eq!(v.current_page(), 1);
    v.update(Message::NextPage);
    assert_eq!(v.current_page(), 1);
    v.update(Message::PrevPage);
    assert_eq!(v.current_page(), 0);
    v.update(Message::NextPage);
    v.update(Message::FilterTextChanged("m".to_string()));
    assert_eq!(v.current_page(), 0);
    v.update(Message::ToggleExpand(3));
    assert!(v.expanded_rows().contains(&3));
    v.update(Message::ToggleExpand(3));
    assert!(v.expanded_rows().is_empty());
}

#[test]
fn copy_asks_for_clipboard() {
    let mut v = VRCLog::new(AppConfig::default());
    match v.update(Message::CopyToClipboard("text".to_string())) {
        Action::CopyToClipboard(t) => assert_eq!(t, "text"),
        _ => panic!("expected a clipboard action"),
    }
}

#[test]
fn level_filter_decision() {
    assert!(level_filter_keeps(None, "anything"));
    assert!(level_filter_keeps(Some(LogLevel::ALL), "Log"));
    assert!(level_filter_keeps(Some(LogLevel::Warning), "Warning"));
    assert!(!level_filter_keeps(Some(LogLevel::Warning), "warning"));
}
