use vstd::prelude::*;
use crate::vrc::parser::LogItem;

verus! {

/// What the user, or the log watcher, asks of the viewer.
#[derive(Debug, Clone)]
pub enum Message {
    NewLog(LogItem),
    FilterTextChanged(String),
    FilterLevelChanged(Option<LogLevel>),
    FilterRegexToggled(bool),
    ToggleExpand(usize),
    CopyToClipboard(String),
    NextPage,
    PrevPage,
    OpenSettings,
    CloseSettings,
    SaveSettings,
    SettingsFileCountChanged(String),
    SettingsInitialLogsChanged(String),
    SettingsMaxCachedChanged(String),
}

/// Severity levels a user can filter by; `ALL` disables the filter.
#[derive(Debug, Clone, Copy, PartialEq, Eq, Structural)]
pub enum LogLevel {
    ALL,
    Info,
    Warning,
    Error,
    Debug,
}

/// The text a level is shown as, and the text a record's level must equal
/// for the level filter to keep it.
pub open spec fn level_name(level: LogLevel) -> Seq<char> {
    match level {
        LogLevel::ALL => seq!['A', 'l', 'l'],
        LogLevel::Info => seq!['I', 'n', 'f', 'o'],
        LogLevel::Warning => seq!['W', 'a', 'r', 'n', 'i', 'n', 'g'],
        LogLevel::Error => seq!['E', 'r', 'r', 'o', 'r'],
        LogLevel::Debug => seq!['D', 'e', 'b', 'u', 'g'],
    }
}

impl LogLevel {
    /// The levels offered to filter by, in the order they are offered.
    pub fn all_levels() -> (r: [LogLevel; 5])
        ensures
            r@ == seq![LogLevel::ALL, LogLevel::Info, LogLevel::Warning, LogLevel::Error, LogLevel::Debug],
    {
        let r = [LogLevel::ALL, LogLevel::Info, LogLevel::Warning, LogLevel::Error, LogLevel::Debug];
        assert(r@ =~= seq![LogLevel::ALL, LogLevel::Info, LogLevel::Warning, LogLevel::Error, LogLevel::Debug]);
        r
    }

    /// The display name of this level.
    pub fn to_string(&self) -> (s: String)
        ensures
            s@ == level_name(*self),
    {
        match self {
            LogLevel::ALL => {
                let s = "All";
                proof { reveal_strlit("All"); }
                s.to_string()
            },
            LogLevel::Info => {
                let s = "Info";
                proof { reveal_strlit("Info"); }
                s.to_string()
            },
            LogLevel::Warning => {
                let s = "Warning";
                proof { reveal_strlit("Warning"); }
                s.to_string()
            },
            LogLevel::Error => {
                let s = "Error";
                proof { reveal_strlit("Error"); }
                s.to_string()
            },
            LogLevel::Debug => {
                let s = "Debug";
                proof { reveal_strlit("Debug"); }
                s.to_string()
            },
        }
    }
}

} // verus!
