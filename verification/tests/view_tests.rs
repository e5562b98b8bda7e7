use vrc_log_viewer::stream::order_files;
use vrc_log_viewer::stream::{file_time, log_file_would_panic, select_log_files};
use vrc_log_viewer::view::{filter_placeholder, max_page, page_info_text, page_range, page_range_would_panic, regex_control_label, regex_tooltip_text};

#[test]
fn pages() {
    assert_eq!(max_page(0, 50), 0);
    assert_eq!(max_page(50, 50), 0);
    assert_eq!(max_page(51, 50), 1);
    assert_eq!(page_range(0, 0, 50), (0, 0));
    assert_eq!(page_range(120, 2, 50), (100, 120));
    assert_eq!(page_range(120, 1, 50), (50, 100));
    assert!(page_range_would_panic(10, 1, 50));
    assert!(!page_range_would_panic(0, 3, 50));
    assert!(page_range_would_panic(0, usize::MAX, 50));
}

#[test]
fn paging_line() {
    assert_eq!(page_info_text(120, 1, 50, 130), "Page 2 of 3   |   Total Logs: 130   |   Filtered: 120");
    assert_eq!(page_info_text(0, 0, 50, 0), "Page 0 of 1   |   Total Logs: 0   |   Filtered: 0");
}

#[test]
fn search_box_texts() {
    assert_eq!(filter_placeholder(true), "Search by regex...");
    assert_eq!(filter_placeholder(false), "Search by message...");
    assert_eq!(regex_control_label(true), "!");
    assert_eq!(regex_control_label(false), ".*");
    assert_eq!(regex_tooltip_text(Some("Invalid regex: x"), true), "Invalid regex: x");
    assert_eq!(regex_tooltip_text(None, true), "Regex search enabled");
    assert_eq!(regex_tooltip_text(None, false), "Regex search disabled");
}

#[test]
fn log_file_names() {
    assert!(file_time("output_log_2026-03-13_04-41-07.txt").is_some());
    assert!(file_time("output_log_2026-13-13_04-41-07.txt").is_none());
    assert!(file_time("output_log_.txt").is_none());
    assert!(file_time("other_2026-03-13_04-41-07.txt").is_none());
    assert!(file_time("output_log_2026-03-13_04-41-07.log").is_none());
    assert!(log_file_would_panic("output_log_2026-03-13_04-41-0é.txt"));
    assert!(!log_file_would_panic("output_log_2026-03-13_04-41-07.txt"));
}

#[test]
fn recent_files_newest_first() {
    let names: Vec<String> = [
        "output_log_2026-03-10_10-00-00.txt",
        "output_log_2026-03-13_04-41-07.txt",
        "readme.txt",
        "output_log_2026-03-12_09-00-00.txt",
        "output_log_2026-03-13_04-41-07.txt",
    ]
    .iter()
    .map(|s| s.to_string())
    .collect();
    let now = file_time("output_log_2026-03-13_12-00-00.txt").unwrap();
    assert_eq!(select_log_files(&names, now.0, now.1), vec![1, 4, 3]);
}

#[test]
fn ordering_files_by_time() {
    let times = vec![Some((100_000, 0)), None, Some((300_000, 0)), Some((300_000, 0)), Some((100_000, 0))];
    assert_eq!(order_files(&times, 200_000, 0), vec![2, 3, 0, 4]);
    assert_eq!(order_files(&times, 300_000 + 172_800, 0), vec![2, 3]);
    assert_eq!(order_files(&times, 300_000 + 172_800, 1), Vec::<usize>::new());
}
