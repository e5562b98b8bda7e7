use vrc_log_viewer::vrc::parser::{
    line_would_panic, parse_line_to_log, parse_lines, strip_unity_tags, is_known_tag, LogParser,
    TailReader, MAX_TAIL_LOGS,
};

#[test]
fn strip_removes_known_tags() {
    assert_eq!(strip_unity_tags("<color=red>Hello</color> <b>World</b>"), "Hello World");
}

#[test]
fn strip_keeps_unknown_tags_and_stray_brackets() {
    assert_eq!(strip_unity_tags("<unknown>x</unknown>"), "<unknown>x</unknown>");
    assert_eq!(strip_unity_tags("a < b > c"), "a < b > c");
    assert_eq!(strip_unity_tags("x<y"), "x<y");
    assert_eq!(strip_unity_tags("<<b>b>"), "<b>");
}

#[test]
fn strip_is_case_insensitive_and_ignores_slashes_and_values() {
    assert_eq!(strip_unity_tags("<B>bold</B>"), "bold");
    assert_eq!(strip_unity_tags("<COLOR=#fff>t</COLOR>"), "t");
    assert_eq!(strip_unity_tags("<///i>k"), "k");
    assert_eq!(strip_unity_tags("<line-height=50%>x"), "x");
}

#[test]
fn strip_text_without_tags_is_unchanged() {
    let s = "plain text, no tags at all: äöü";
    assert_eq!(strip_unity_tags(s), s);
}

#[test]
fn known_tags_are_lowercase_names() {
    assert!(is_known_tag("color"));
    assert!(is_known_tag("nobr"));
    assert!(!is_known_tag("COLOR"));
    assert!(!is_known_tag("colour"));
}

#[test]
fn parse_line_with_type() {
    let line = "2024.01.02 03:04:05 Log        -  [Behaviour] OnPlayerJoined Bob";
    let item = parse_line_to_log(line).unwrap();
    assert_eq!(item.timestamp, "2024.01.02 03:04:05");
    assert_eq!(item.level, "Log");
    assert_eq!(item.log_type, "Behaviour");
    assert_eq!(item.message, "OnPlayerJoined Bob");
    assert_eq!(item.details, "");
    assert_eq!(item.raw, line);
}

#[test]
fn parse_line_type_without_rich_text() {
    let item = parse_line_to_log("2024.01.02 03:04:05 Log  -  [<color=red>Net</color>] hi").unwrap();
    assert_eq!(item.log_type, "Net");
    assert_eq!(item.message, "hi");
}

#[test]
fn parse_line_type_cut_before_bracket_without_space() {
    // The type is cut one byte before the `]` counted in the untrimmed message.
    let item = parse_line_to_log("2024.01.02 03:04:05 Log - [Abc] rest").unwrap();
    assert_eq!(item.log_type, "Ab");
    assert_eq!(item.message, "rest");
    let item = parse_line_to_log("2024.01.02 03:04:05 Log - [<color=red>Net</color>] hi").unwrap();
    assert_eq!(item.log_type, "Net</color");
}

#[test]
fn parse_line_without_type() {
    let item = parse_line_to_log("2024.01.02 03:04:05 Warning    -  Something happened   ").unwrap();
    assert_eq!(item.level, "Warning");
    assert_eq!(item.log_type, "NO_TYPE");
    assert_eq!(item.message, " Something happened");
}

#[test]
fn parse_line_unclosed_bracket() {
    let item = parse_line_to_log("2024.01.02 03:04:05 Error - [abc def").unwrap();
    assert_eq!(item.log_type, "NO_TYPE");
    assert_eq!(item.message, "[abc def");
}

#[test]
fn parse_line_rejects_other_lines() {
    assert!(parse_line_to_log("hello").is_none());
    assert!(parse_line_to_log("2024-01-02 03:04:05 Log - x").is_none());
    assert!(parse_line_to_log("2024.01.02T03:04:05 Log - x").is_none());
    assert!(parse_line_to_log("2024.01.02 03:04:05 no separator here").is_none());
}

#[test]
fn panicking_lines_are_detected() {
    assert!(line_would_panic("2024.01.02 03:04:05 Log - []x"));
    assert!(line_would_panic("2024.01.02 03:04:0é Log - x"));
    assert!(!line_would_panic("2024.01.02 03:04:05 Log - [A] x"));
    assert!(!line_would_panic("not a record"));
}

#[test]
fn parse_lines_newest_first_with_continuations() {
    let buf = b"2024.01.01 00:00:01 Log -  [A] first\ncontinued one\ncontinued two\n\n2024.01.01 00:00:02 Error -  [B]\nthe message\nmore\n";
    let logs = parse_lines(buf).unwrap();
    assert_eq!(logs.len(), 2);
    assert_eq!(logs[0].timestamp, "2024.01.01 00:00:02");
    assert_eq!(logs[0].log_type, "B");
    assert_eq!(logs[0].message, "the message");
    assert_eq!(logs[0].details, "\nmore");
    assert_eq!(logs[1].message, "first");
    assert_eq!(logs[1].details, "\ncontinued one\ncontinued two");
    assert_eq!(logs[1].raw, "2024.01.01 00:00:01 Log -  [A] first\ncontinued one\ncontinued two");
}

#[test]
fn parse_lines_drops_leading_continuations() {
    let logs = parse_lines(b"orphan line\n2024.01.01 00:00:01 Log - x").unwrap();
    assert_eq!(logs.len(), 1);
    assert_eq!(logs[0].message, "x");
}

#[test]
fn parse_lines_decodes_invalid_utf8_lossily() {
    let logs = parse_lines(b"2024.01.01 00:00:01 Log - [A] bad \xff bytes").unwrap();
    assert_eq!(logs[0].message, "bad \u{fffd} bytes");
}

#[test]
fn parse_lines_reports_panicking_line() {
    assert!(parse_lines(b"2024.01.01 00:00:01 Log - []x\n").is_none());
}

fn read_tail(content: &[u8]) -> Vec<vrc_log_viewer::vrc::parser::LogItem> {
    let mut parser = LogParser::new();
    assert!(!parser.reads_incrementally());
    let mut reader = TailReader::new(content.len() as u64);
    while let Some((offset, size)) = reader.next_read() {
        let chunk = &content[offset as usize..offset as usize + size];
        assert!(reader.feed(chunk));
    }
    let logs = parser.finish_tail(reader);
    assert_eq!(parser.offset, content.len() as u64);
    assert!(parser.reads_incrementally());
    logs
}

#[test]
fn tail_reading_skips_the_first_line_and_returns_oldest_first() {
    let content = b"2024.01.01 00:00:01 Log - first\n2024.01.01 00:00:02 Log - second\n2024.01.01 00:00:03 Log - third\n";
    let logs = read_tail(content);
    assert_eq!(logs.len(), 2);
    assert_eq!(logs[0].message, "second");
    assert_eq!(logs[1].message, "third");
}

#[test]
fn tail_reading_attaches_continuations_to_the_following_record() {
    let content = b"head\n2024.01.01 00:00:01 Log - [A]\ncont\n2024.01.01 00:00:02 Log - b\n";
    let logs = read_tail(content);
    assert_eq!(logs.len(), 2);
    assert_eq!(logs[0].message, "");
    assert_eq!(logs[1].message, "b");
    assert_eq!(logs[1].details, "\ncont");
}

#[test]
fn tail_reading_spans_pieces() {
    let mut content = Vec::new();
    content.extend_from_slice(b"start\n");
    for i in 0..600 {
        content.extend_from_slice(format!("2024.01.01 00:00:00 Log - [T] message number {:04}\n", i).as_bytes());
    }
    let logs = read_tail(&content);
    assert_eq!(logs.len(), 600);
    assert_eq!(logs[0].message, "message number 0000");
    assert_eq!(logs[599].message, "message number 0599");
}

#[test]
fn tail_reading_stops_at_the_limit() {
    let mut content = Vec::new();
    for i in 0..(MAX_TAIL_LOGS + 10) {
        content.extend_from_slice(format!("2024.01.01 00:00:00 Log - n{}\n", i).as_bytes());
    }
    let logs = read_tail(&content);
    assert_eq!(logs.len(), MAX_TAIL_LOGS);
    assert_eq!(logs[MAX_TAIL_LOGS - 1].message, format!("n{}", MAX_TAIL_LOGS + 9));
}

#[test]
fn tail_feed_refuses_panicking_piece() {
    let content = b"x\n2024.01.01 00:00:01 Log - []x\n";
    let mut reader = TailReader::new(content.len() as u64);
    let (offset, size) = reader.next_read().unwrap();
    assert_eq!((offset, size), (0, content.len()));
    assert!(!reader.feed(content));
    assert_eq!(reader.next_read(), Some((0, content.len())));
}

#[test]
fn incremental_reading_advances_the_offset() {
    let mut parser = LogParser::new();
    parser.advance(10);
    parser.advance(5);
    assert_eq!(parser.offset, 15);
    assert!(parser.reads_incrementally());
}

fn fields(items: &[vrc_log_viewer::vrc::parser::LogItem]) -> Vec<(String, String, String, String)> {
    items
        .iter()
        .map(|i| (i.timestamp.clone(), i.message.clone(), i.details.clone(), i.raw.clone()))
        .collect()
}

#[test]
fn parse_lines_in_two_parts_split_at_a_record() {
    let a: &[u8] = b"orphan\n2024.01.01 00:00:01 Log - [A] one\ncont a\n\n";
    let b: &[u8] = b"2024.01.01 00:00:02 Warning - two\ncont b\n2024.01.01 00:00:03 Log - three";
    let whole = [a, b].concat();
    let mut expected = parse_lines(b).unwrap();
    expected.extend(parse_lines(a).unwrap());
    assert_eq!(fields(&parse_lines(&whole).unwrap()), fields(&expected));
    assert_eq!(fields(&parse_lines(&[b"" as &[u8], b].concat()).unwrap()), fields(&parse_lines(b).unwrap()));
}

fn tail_by_lines(content: &[u8]) -> Vec<(String, String, String, String)> {
    let lines: Vec<String> = content
        .split(|c| *c == b'\n')
        .map(|l| String::from_utf8_lossy(l).into_owned())
        .collect();
    let mut logs: Vec<(String, String, String, String)> = Vec::new();
    for line in lines.iter().skip(1).rev() {
        if logs.len() >= MAX_TAIL_LOGS {
            break;
        }
        if line.is_empty() {
            continue;
        }
        if let Some(item) = parse_line_to_log(line) {
            logs.push((item.timestamp, item.message, item.details, item.raw));
        } else if let Some(last) = logs.last_mut() {
            let l = line.trim_end();
            if last.1.trim().is_empty() {
                last.1 = l.to_string();
            } else {
                last.2 = format!("{}\n{}", last.2, l);
            }
            last.3 = format!("{}\n{}", last.3, l);
        }
    }
    logs.reverse();
    logs
}

#[test]
fn tail_reading_reads_the_whole_file_line_by_line() {
    let mut content = Vec::new();
    content.extend_from_slice(b"2024.01.01 00:00:00 Log - first line is never read\n");
    for i in 0..700 {
        content.extend_from_slice(format!("2024.01.01 00:00:00 Log - [T] number {:04}\n", i).as_bytes());
        if i % 3 == 0 {
            content.extend_from_slice(format!("  continuation of {} with some more text\n\n", i).as_bytes());
        }
    }
    content.extend_from_slice(b"trailing text without a line feed");
    assert!(content.len() > 3 * 8192);
    assert_eq!(fields(&read_tail(&content)), tail_by_lines(&content));
}
