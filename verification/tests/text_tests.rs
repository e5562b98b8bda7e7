use vrc_log_viewer::log_entry::truncate_text;
use vrc_log_viewer::text::{is_blank, parse_usize, str_contains, usize_to_string, decode_lines};
use vrc_log_viewer::vrc::path::{choose_steam_dir, library_paths, lines_of, local_low_dir, replace_str, SteamDir};

#[test]
fn truncate_long_text() {
    assert_eq!(truncate_text("hello world", 5), "hello...");
    assert_eq!(truncate_text("hi", 5), "hi");
    assert_eq!(truncate_text("hello", 5), "hello");
    assert_eq!(truncate_text("äöüß", 2), "äö...");
    assert_eq!(truncate_text("abc", 0), "...");
}

#[test]
fn decimal_roundtrip() {
    for n in [0usize, 7, 10, 99, 12345, usize::MAX] {
        assert_eq!(usize_to_string(n), n.to_string());
        assert_eq!(parse_usize(&usize_to_string(n)), Some(n));
    }
}

#[test]
fn parse_usize_like_std() {
    for s in ["", "+", "+5", "++5", "-0", "007", " 5", "5 ", "18446744073709551615", "18446744073709551616", "12a", "٣"] {
        assert_eq!(parse_usize(s), s.parse::<usize>().ok(), "input {:?}", s);
    }
}

#[test]
fn contains_and_blank() {
    assert!(str_contains("hello world", "o w"));
    assert!(str_contains("abc", ""));
    assert!(!str_contains("abc", "abcd"));
    assert!(is_blank(" \t\u{3000}"));
    assert!(!is_blank(" x "));
}

#[test]
fn split_like_slice_split() {
    let lines = decode_lines(b"a\n\nb\n");
    assert_eq!(lines, vec!["a".to_string(), "".to_string(), "b".to_string(), "".to_string()]);
    assert_eq!(decode_lines(b""), vec!["".to_string()]);
}

#[test]
fn lines_like_str_lines() {
    for s in ["", "a", "a\n", "a\r\nb", "a\n\nb\r", "\r\n", "x\ry\n"] {
        let ours = lines_of(s);
        let theirs: Vec<String> = s.lines().map(|l| l.to_string()).collect();
        assert_eq!(ours, theirs, "input {:?}", s);
    }
}

#[test]
fn replace_like_str_replace() {
    for (s, f, t) in [("LocalLocal", "Local", "LocalLow"), ("aaa", "aa", "b"), ("xyz", "q", "r")] {
        assert_eq!(replace_str(s, f, t), s.replace(f, t));
    }
    assert_eq!(local_low_dir("C:\\Users\\me\\AppData\\Local"), "C:\\Users\\me\\AppData\\LocalLow");
}

#[test]
fn library_folders_paths() {
    let vdf = "\"libraryfolders\"\n{\n\t\"0\"\n\t{\n\t\t\"path\"\t\t\"/home/me/.local/share/Steam\"\n\t\t\"label\"\t\t\"\"\n\t}\n\t\"1\"\n\t{\n\t\t\"path\"\t\t\"/mnt/games/SteamLibrary\"\r\n\t\t\"path\" broken\n\t}\n}\n";
    let paths = library_paths(vdf);
    assert_eq!(paths, vec!["/home/me/.local/share/Steam".to_string(), "/mnt/games/SteamLibrary".to_string()]);
}

#[test]
fn steam_dir_choice() {
    assert_eq!(choose_steam_dir(false, true, true, true), Some(SteamDir::LocalShare));
    assert_eq!(choose_steam_dir(true, true, true, true), Some(SteamDir::DotSteam));
    assert_eq!(choose_steam_dir(false, false, true, true), Some(SteamDir::Flatpak));
    assert_eq!(choose_steam_dir(false, false, true, false), Some(SteamDir::DotSteam));
    assert_eq!(choose_steam_dir(true, true, false, false), None);
    assert_eq!(choose_steam_dir(false, false, false, false), None);
}
