use std::collections::HashSet;
use std::rc::Rc;
use vstd::prelude::*;
use crate::config::AppConfig;
use crate::log_entry::{order_before, precedes, law_order_strict_total, text_lt, LogEntry};
use crate::message::{level_name, LogLevel, Message};
use crate::text::{contains, decimal, lowercase, parse_decimal, parse_usize, push_str, str_contains, to_lowercase, usize_to_string};
use crate::vrc::parser::{LogItem, LogRecord};

verus! {

broadcast use vstd::std_specs::hash::group_hash_axioms;

/// Which page the viewer shows.
#[derive(Debug, Clone, Copy, PartialEq, Eq, Structural)]
pub enum ViewMode {
    Logs,
    Settings,
}

/// What the viewer asks its surroundings to do after handling a message.
#[derive(Debug)]
pub enum Action {
    Nothing,
    /// Put this text on the clipboard.
    CopyToClipboard(String),
    /// Store these settings.
    SaveConfig(AppConfig),
}

#[verifier::external_type_specification]
#[verifier::external_body]
pub struct ExRegex(regex::Regex);

/// What building a case-insensitive regular expression from `pattern` with
/// `regex::RegexBuilder` gives: `Ok` when it builds, otherwise the text of
/// the error.
pub uninterp spec fn ci_regex_build(pattern: Seq<char>) -> Result<(), Seq<char>>;

/// Whether the case-insensitive regular expression built from `pattern`
/// matches somewhere in `text` (`regex::Regex::is_match`).
pub uninterp spec fn ci_regex_is_match(pattern: Seq<char>, text: Seq<char>) -> bool;

/// A case-insensitive regular expression, with the pattern it was built from.
pub struct CaseInsensitiveRegex {
    re: regex::Regex,
    pattern: String,
}

impl View for CaseInsensitiveRegex {
    type V = Seq<char>;

    closed spec fn view(&self) -> Seq<char> {
        self.pattern@
    }
}

/// `regex::RegexBuilder::new(pattern).case_insensitive(true).build()`; the
/// error is returned as its text (`Display`). The contract claims that
/// building depends on the pattern alone.
#[verifier::external_body]
fn build_case_insensitive(pattern: &str) -> (r: Result<CaseInsensitiveRegex, String>)
    ensures
        match r {
            Ok(re) => ci_regex_build(pattern@) is Ok && re@ == pattern@,
            Err(e) => ci_regex_build(pattern@) == Err::<(), Seq<char>>(e@),
        },
{
    match regex::RegexBuilder::new(pattern).case_insensitive(true).build() {
        Ok(re) => Ok(CaseInsensitiveRegex { re, pattern: pattern.to_string() }),
        Err(e) => Err(format!("{}", e)),
    }
}

impl CaseInsensitiveRegex {
    /// `regex::Regex::is_match`: whether the expression matches somewhere
    /// in `text`. A value of this type is only made by
    /// `build_case_insensitive`, so `self.re` is the expression built from
    /// `self@`.
    #[verifier::external_body]
    fn is_match(&self, text: &str) -> (b: bool)
        ensures
            b == ci_regex_is_match(self@, text@),
    {
        self.re.is_match(text)
    }
}

/// A cached entry as its number and record.
pub open spec fn entry_view(e: LogEntry) -> (usize, LogRecord) {
    (e.id, e.item@)
}

/// The entries of `s` as numbers and records.
pub open spec fn entries_view(s: Seq<LogEntry>) -> Seq<(usize, LogRecord)> {
    s.map_values(|e: LogEntry| entry_view(e))
}

/// Whether entry `a` comes before entry `b` in the cache.
pub open spec fn view_before(a: (usize, LogRecord), b: (usize, LogRecord)) -> bool {
    order_before(a.1.timestamp, a.0, b.1.timestamp, b.0)
}

/// Whether `s` is in cache order without repeated entries.
pub open spec fn sorted(s: Seq<(usize, LogRecord)>) -> bool {
    forall|i: int, j: int| 0 <= i < j < s.len() ==> view_before(s[i], s[j])
}

/// `s` with `x` put at its place in cache order.
pub open spec fn insert_sorted(s: Seq<(usize, LogRecord)>, x: (usize, LogRecord)) -> Seq<
    (usize, LogRecord),
>
    decreases s.len(),
{
    if s.len() == 0 {
        seq![x]
    } else if view_before(x, s[0]) {
        seq![x] + s
    } else {
        seq![s[0]] + insert_sorted(s.drop_first(), x)
    }
}

/// `s` without its entries past the first `max` (the oldest ones).
pub open spec fn evict(s: Seq<(usize, LogRecord)>, max: usize) -> Seq<(usize, LogRecord)> {
    if s.len() > max {
        s.take(max as int)
    } else {
        s
    }
}

/// Whether the text filter keeps a record: an empty filter keeps all; with
/// regular expressions on, the expression must match the record's full
/// text; otherwise the lowercased filter must occur in the lowercased text.
pub open spec fn text_matches(text: Seq<char>, regex: bool, rec: LogRecord) -> bool {
    if text.len() == 0 {
        true
    } else if regex {
        ci_regex_is_match(text, rec.raw)
    } else {
        contains(lowercase(rec.raw), lowercase(text))
    }
}

/// Whether the level filter keeps a record: no level, or `All`, keeps all;
/// otherwise the record's level must be the level's name.
pub open spec fn level_matches(level: Option<LogLevel>, record_level: Seq<char>) -> bool {
    match level {
        None => true,
        Some(LogLevel::ALL) => true,
        Some(t) => record_level == level_name(t),
    }
}

/// Decides [`level_matches`].
pub fn level_filter_keeps(level: Option<LogLevel>, record_level: &str) -> (b: bool)
    ensures
        b == level_matches(level, record_level@),
{
    match level {
        None => true,
        Some(LogLevel::ALL) => true,
        Some(t) => {
            let name = t.to_string();
            crate::text::chars_eq_str(&crate::text::chars_of(name.as_str()), record_level)
        },
    }
}

/// The entries of `s` that both filters keep, in order.
pub open spec fn matching(
    s: Seq<(usize, LogRecord)>,
    text: Seq<char>,
    level: Option<LogLevel>,
    regex: bool,
) -> Seq<(usize, LogRecord)>
    decreases s.len(),
{
    if s.len() == 0 {
        s
    } else {
        let r = matching(s.drop_last(), text, level, regex);
        if text_matches(text, regex, s.last().1) && level_matches(level, s.last().1.level) {
            r.push(s.last())
        } else {
            r
        }
    }
}

/// The mathematical state of the viewer.
#[verifier::ext_equal]
pub struct ViewerState {
    pub logs: Seq<(usize, LogRecord)>,
    pub next_id: usize,
    pub config: AppConfig,
    pub view_mode: ViewMode,
    pub temp_file_count: Seq<char>,
    pub temp_initial_logs: Seq<char>,
    pub temp_max_cached: Seq<char>,
    pub filter_text: Seq<char>,
    pub filter_level: Option<LogLevel>,
    pub filter_regex_enabled: bool,
    pub current_page: usize,
    pub expanded_rows: Set<usize>,
}

/// Whether the text filter is an invalid regular expression, in which case
/// no entry is shown.
pub open spec fn regex_fails(s: ViewerState) -> bool {
    s.filter_regex_enabled && s.filter_text.len() > 0 && ci_regex_build(s.filter_text) is Err
}

/// The entries shown: the cached entries that the filters keep, in cache
/// order; none while the filter is an invalid regular expression.
pub open spec fn shown(s: ViewerState) -> Seq<(usize, LogRecord)> {
    if regex_fails(s) {
        Seq::empty()
    } else {
        matching(s.logs, s.filter_text, s.filter_level, s.filter_regex_enabled)
    }
}

/// The message shown for an invalid regular expression.
pub open spec fn regex_error_text(s: ViewerState) -> Option<Seq<char>> {
    if regex_fails(s) {
        Some("Invalid regex: "@ + ci_regex_build(s.filter_text)->Err_0)
    } else {
        None
    }
}

/// The number of entries per page.
pub const ITEMS_PER_PAGE: usize = 50;

/// The last page number for `count` shown entries (pages count from 0).
pub open spec fn last_page(count: nat) -> nat {
    if count == 0 {
        0
    } else {
        ((count - 1) as nat) / (ITEMS_PER_PAGE as nat)
    }
}

/// The state after handling `m` in state `s`.
pub open spec fn next_state(s: ViewerState, m: Message) -> ViewerState {
    match m {
        Message::NewLog(item) => ViewerState {
            logs: evict(insert_sorted(s.logs, (s.next_id, item@)), s.config.max_cached_logs),
            next_id: (s.next_id + 1) as usize,
            ..s
        },
        Message::FilterTextChanged(t) => ViewerState { filter_text: t@, current_page: 0, ..s },
        Message::FilterLevelChanged(l) => ViewerState { filter_level: l, current_page: 0, ..s },
        Message::FilterRegexToggled(b) => ViewerState {
            filter_regex_enabled: b,
            current_page: 0,
            ..s
        },
        Message::NextPage => if s.current_page < last_page(shown(s).len()) {
            ViewerState { current_page: (s.current_page + 1) as usize, ..s }
        } else {
            s
        },
        Message::PrevPage => if s.current_page > 0 {
            ViewerState { current_page: (s.current_page - 1) as usize, ..s }
        } else {
            s
        },
        Message::ToggleExpand(id) => ViewerState {
            expanded_rows: if s.expanded_rows.contains(id) {
                s.expanded_rows.remove(id)
            } else {
                s.expanded_rows.insert(id)
            },
            ..s
        },
        Message::CopyToClipboard(_) => s,
        Message::OpenSettings => ViewerState {
            temp_file_count: decimal(s.config.file_count as nat),
            temp_initial_logs: decimal(s.config.initial_logs_per_file as nat),
            temp_max_cached: decimal(s.config.max_cached_logs as nat),
            view_mode: ViewMode::Settings,
            ..s
        },
        Message::CloseSettings => ViewerState { view_mode: ViewMode::Logs, ..s },
        Message::SaveSettings => {
            let config = saved_config(s);
            ViewerState {
                config,
                logs: evict(s.logs, config.max_cached_logs),
                view_mode: ViewMode::Logs,
                ..s
            }
        },
        Message::SettingsFileCountChanged(v) => ViewerState { temp_file_count: v@, ..s },
        Message::SettingsInitialLogsChanged(v) => ViewerState { temp_initial_logs: v@, ..s },
        Message::SettingsMaxCachedChanged(v) => ViewerState { temp_max_cached: v@, ..s },
    }
}

/// The value read from `text`, or `current` when `text` is not a number.
pub open spec fn parsed_or(text: Seq<char>, current: usize) -> usize {
    match parse_decimal(text) {
        Some(v) => v,
        None => current,
    }
}

/// The settings stored by `SaveSettings`: each edited value that reads as
/// a number, the current value otherwise.
pub open spec fn saved_config(s: ViewerState) -> AppConfig {
    AppConfig {
        file_count: parsed_or(s.temp_file_count, s.config.file_count),
        initial_logs_per_file: parsed_or(s.temp_initial_logs, s.config.initial_logs_per_file),
        max_cached_logs: parsed_or(s.temp_max_cached, s.config.max_cached_logs),
    }
}

/// The state of the log viewer: the cached records, the filters, paging and
/// the settings page.
pub struct VRCLog {
    logs: Vec<LogEntry>,
    filtered_logs: Vec<LogEntry>,
    next_id: usize,
    pub config: AppConfig,
    pub view_mode: ViewMode,
    temp_file_count: String,
    temp_initial_logs: String,
    temp_max_cached: String,
    filter_text: String,
    filter_level: Option<LogLevel>,
    filter_regex_enabled: bool,
    filter_regex_error: Option<String>,
    current_page: usize,
    items_per_page: usize,
    expanded_rows: HashSet<usize>,
}

impl View for VRCLog {
    type V = ViewerState;

    closed spec fn view(&self) -> ViewerState {
        ViewerState {
            logs: entries_view(self.logs@),
            next_id: self.next_id,
            config: self.config,
            view_mode: self.view_mode,
            temp_file_count: self.temp_file_count@,
            temp_initial_logs: self.temp_initial_logs@,
            temp_max_cached: self.temp_max_cached@,
            filter_text: self.filter_text@,
            filter_level: self.filter_level,
            filter_regex_enabled: self.filter_regex_enabled,
            current_page: self.current_page,
            expanded_rows: self.expanded_rows@,
        }
    }
}

impl VRCLog {
    /// The internal consistency of the viewer: the cache is in cache order
    /// with numbers below the next one, and the shown entries and the error
    /// message follow from the cache and the filters.
    pub closed spec fn wf(&self) -> bool {
        &&& self.cache_wf()
        &&& entries_view(self.filtered_logs@) == shown(self@)
        &&& match self.filter_regex_error {
            Some(e) => regex_error_text(self@) == Some(e@),
            None => regex_error_text(self@) is None,
        }
    }

    /// The consistency of the cache alone.
    closed spec fn cache_wf(&self) -> bool {
        &&& sorted(entries_view(self.logs@))
        &&& forall|i: int| 0 <= i < self.logs@.len() ==> (#[trigger] self.logs@[i]).id < self.next_id
        &&& self.items_per_page == ITEMS_PER_PAGE
    }

    /// A viewer with the given settings and no records.
    pub fn new(config: AppConfig) -> (r: VRCLog)
        ensures
            r.wf(),
            r@ == (ViewerState {
                logs: Seq::empty(),
                next_id: 0,
                config,
                view_mode: ViewMode::Logs,
                temp_file_count: decimal(config.file_count as nat),
                temp_initial_logs: decimal(config.initial_logs_per_file as nat),
                temp_max_cached: decimal(config.max_cached_logs as nat),
                filter_text: Seq::empty(),
                filter_level: None,
                filter_regex_enabled: false,
                current_page: 0,
                expanded_rows: Set::empty(),
            }),
    {
        let r = VRCLog {
            logs: Vec::new(),
            filtered_logs: Vec::new(),
            next_id: 0,
            temp_file_count: usize_to_string(config.file_count),
            temp_initial_logs: usize_to_string(config.initial_logs_per_file),
            temp_max_cached: usize_to_string(config.max_cached_logs),
            config,
            view_mode: ViewMode::Logs,
            filter_text: String::new(),
            filter_level: None,
            filter_regex_enabled: false,
            filter_regex_error: None,
            current_page: 0,
            items_per_page: ITEMS_PER_PAGE,
            expanded_rows: HashSet::new(),
        };
        assert(entries_view(r.logs@) =~= Seq::empty());
        assert(entries_view(r.filtered_logs@) =~= Seq::empty());
        assert(r@ =~= ViewerState {
            logs: Seq::empty(),
            next_id: 0,
            config,
            view_mode: ViewMode::Logs,
            temp_file_count: decimal(config.file_count as nat),
            temp_initial_logs: decimal(config.initial_logs_per_file as nat),
            temp_max_cached: decimal(config.max_cached_logs as nat),
            filter_text: Seq::empty(),
            filter_level: None,
            filter_regex_enabled: false,
            current_page: 0,
            expanded_rows: Set::empty(),
        });
        r
    }
}


/// Putting `x` after the first `k` entries, which come before it, and before
/// the others, is putting it at its place.
proof fn lemma_insert_sorted(s: Seq<(usize, LogRecord)>, x: (usize, LogRecord), k: int)
    requires
        0 <= k <= s.len(),
        forall|i: int| 0 <= i < k ==> !view_before(x, #[trigger] s[i]),
        k == s.len() || view_before(x, s[k]),
    ensures
        insert_sorted(s, x) == s.take(k).push(x) + s.skip(k),
    decreases k,
{
    if k == 0 {
        if s.len() == 0 {
            assert(s.take(0).push(x) + s.skip(0) =~= seq![x]);
        } else {
            assert(s.take(0).push(x) + s.skip(0) =~= seq![x] + s);
        }
    } else {
        assert(!view_before(x, s[0]));
        assert forall|i: int| 0 <= i < k - 1 implies !view_before(x, #[trigger] s.drop_first()[i]) by {
            assert(s.drop_first()[i] == s[i + 1]);
        }
        lemma_insert_sorted(s.drop_first(), x, k - 1);
        assert(seq![s[0]] + (s.drop_first().take(k - 1).push(x) + s.drop_first().skip(k - 1))
            =~= s.take(k).push(x) + s.skip(k));
    }
}

impl VRCLog {
    /// Whether another record can be numbered.
    pub fn can_add_log(&self) -> (b: bool)
        ensures
            b == (self@.next_id < usize::MAX),
    {
        self.next_id < usize::MAX
    }

    /// Puts `item` into the cache under the next number.
    fn insert_log(&mut self, item: LogItem)
        requires
            old(self).cache_wf(),
            old(self).next_id < usize::MAX,
        ensures
            final(self).cache_wf(),
            final(self)@ == (ViewerState {
                logs: insert_sorted(old(self)@.logs, (old(self)@.next_id, item@)),
                next_id: (old(self)@.next_id + 1) as usize,
                ..old(self)@
            }),
    {
        let entry = LogEntry { id: self.next_id, item: Rc::new(item) };
        let ghost x = entry_view(entry);
        let ghost s = entries_view(self.logs@);
        let mut k: usize = 0;
        while k < self.logs.len() && !entry.comes_before(&self.logs[k])
            invariant
                k <= self.logs.len(),
                s == entries_view(self.logs@),
                x == entry_view(entry),
                forall|i: int| 0 <= i < k ==> !view_before(x, #[trigger] s[i]),
            decreases self.logs.len() - k,
        {
            k = k + 1;
        }
        proof {
            lemma_insert_sorted(s, x, k as int);
            assert forall|i: int| 0 <= i < k implies view_before(#[trigger] s[i], x) by {
                law_order_strict_total(s[i].1.timestamp, s[i].0, x.1.timestamp, x.0, x.1.timestamp, x.0);
                assert(s[i].0 < x.0);
            }
            assert forall|i: int, j: int| 0 <= i < j < s.len() implies view_before(s[i], s[j]) by {}
        }
        let ghost old_logs = self.logs@;
        self.logs.insert(k, entry);
        self.next_id = self.next_id + 1;
        proof {
            let t = entries_view(self.logs@);
            assert(t =~= s.take(k as int).push(x) + s.skip(k as int));
            assert forall|j: int| k <= j < s.len() implies view_before(x, #[trigger] s[j]) by {
                if j > k {
                    assert(view_before(s[k as int], s[j]));
                    law_order_strict_total(x.1.timestamp, x.0, s[k as int].1.timestamp, s[k as int].0, s[j].1.timestamp, s[j].0);
                }
            }
            assert forall|i: int, j: int| 0 <= i < j < t.len() implies view_before(t[i], t[j]) by {
                if j < k {
                    assert(t[i] == s[i] && t[j] == s[j]);
                } else if j == k {
                    assert(t[i] == s[i] && t[j] == x);
                } else if i < k {
                    assert(t[i] == s[i] && t[j] == s[j - 1]);
                } else if i == k {
                    assert(t[i] == x && t[j] == s[j - 1]);
                } else {
                    assert(t[i] == s[i - 1] && t[j] == s[j - 1]);
                }
            }
            assert forall|i: int| 0 <= i < self.logs@.len() implies (#[trigger] self.logs@[i]).id < self.next_id by {
                if i < k {
                    assert(self.logs@[i] == old_logs[i]);
                } else if i > k {
                    assert(self.logs@[i] == old_logs[i - 1]);
                }
            }
        }
    }

    /// Drops the oldest entries beyond the first `max`.
    fn evict_logs(&mut self, max: usize)
        requires
            old(self).cache_wf(),
        ensures
            final(self).cache_wf(),
            final(self)@ == (ViewerState { logs: evict(old(self)@.logs, max), ..old(self)@ }),
    {
        let ghost start = self.logs@;
        while self.logs.len() > max
            invariant
                self.logs@ == start.take(self.logs.len() as int),
                self.logs.len() <= start.len(),
                start.len() > max ==> self.logs.len() >= max,
                start.len() <= max ==> self.logs.len() == start.len(),
                self@ == (ViewerState { logs: entries_view(self.logs@), ..old(self)@ }),
                self.next_id == old(self).next_id,
                self.items_per_page == old(self).items_per_page,
                forall|i: int| 0 <= i < start.len() ==> (#[trigger] start[i]).id < self.next_id,
            decreases self.logs.len(),
        {
            self.logs.pop();
            assert(self.logs@ =~= start.take(self.logs.len() as int));
        }
        proof {
            if start.len() <= max {
                assert(start.take(start.len() as int) =~= start);
            }
            assert(entries_view(self.logs@) =~= evict(entries_view(start), max));
            assert(sorted(entries_view(self.logs@))) by {
                assert forall|i: int, j: int| 0 <= i < j < entries_view(self.logs@).len() implies view_before(entries_view(self.logs@)[i], entries_view(self.logs@)[j]) by {
                    assert(entries_view(self.logs@)[i] == entries_view(start)[i]);
                    assert(entries_view(self.logs@)[j] == entries_view(start)[j]);
                }
            }
            assert forall|i: int| 0 <= i < self.logs@.len() implies (#[trigger] self.logs@[i]).id < self.next_id by {
                assert(self.logs@[i] == start[i]);
            }
        }
    }

    /// Recomputes the shown entries and the error message from the cache
    /// and the filters.
    fn apply_filters(&mut self)
        requires
            old(self).cache_wf(),
        ensures
            final(self).wf(),
            final(self)@ == old(self)@,
    {
        self.filtered_logs.clear();
        self.filter_regex_error = None;
        let text_empty = self.filter_text.as_str().is_empty();
        let regex: Option<CaseInsensitiveRegex> = if self.filter_regex_enabled && !text_empty {
            match build_case_insensitive(self.filter_text.as_str()) {
                Ok(re) => Some(re),
                Err(e) => {
                    let mut msg = String::new();
                    push_str(&mut msg, "Invalid regex: ");
                    push_str(&mut msg, e.as_str());
                    self.filter_regex_error = Some(msg);
                    assert(entries_view(self.filtered_logs@) =~= Seq::empty());
                    return ;
                },
            }
        } else {
            None
        };
        assert(!regex_fails(self@)) by {
            if regex is Some {
                assert(ci_regex_build(self.filter_text@) is Ok);
            }
        }
        let filter_lower = match &regex {
            None => to_lowercase(self.filter_text.as_str()),
            Some(_) => String::new(),
        };
        let ghost all = entries_view(self.logs@);
        let ghost text = self.filter_text@;
        let ghost level = self.filter_level;
        let ghost re_on = self.filter_regex_enabled;
        assert(all.take(0) =~= Seq::empty());
        assert(entries_view(self.filtered_logs@) =~= Seq::empty());
        let mut i: usize = 0;
        while i < self.logs.len()
            invariant
                i <= self.logs.len(),
                self@ == old(self)@,
                self.cache_wf(),
                self.filter_regex_error is None,
                !regex_fails(self@),
                all == entries_view(self.logs@),
                text == self.filter_text@,
                level == self.filter_level,
                re_on == self.filter_regex_enabled,
                text_empty == (text.len() == 0),
                match regex {
                    Some(re) => re_on && re@ == text,
                    None => !(re_on && text.len() > 0) && filter_lower@ == lowercase(text),
                },
                entries_view(self.filtered_logs@) == matching(all.take(i as int), text, level, re_on),
            decreases self.logs.len() - i,
        {
            let entry = &self.logs[i];
            let matches_text = if text_empty {
                true
            } else {
                match &regex {
                    Some(re) => re.is_match(entry.item.raw.as_str()),
                    None => {
                        let low = to_lowercase(entry.item.raw.as_str());
                        str_contains(low.as_str(), filter_lower.as_str())
                    },
                }
            };
            let matches_level = level_filter_keeps(self.filter_level, entry.item.level.as_str());
            let ghost before = self.filtered_logs@;
            proof {
                assert(all.take(i + 1).drop_last() =~= all.take(i as int));
                assert(all.take(i + 1).last() == entry_view(*entry));
            }
            if matches_text && matches_level {
                self.filtered_logs.push(entry.clone());
                assert(entries_view(self.filtered_logs@) =~= entries_view(before).push(entry_view(*entry)));
            }
            i = i + 1;
        }
        assert(all.take(self.logs.len() as int) =~= all);
    }
}


impl VRCLog {
    /// The last page number (pages count from 0).
    fn max_pages(&self) -> (r: usize)
        requires
            self.wf(),
        ensures
            r == last_page(shown(self@).len()),
    {
        let n = self.filtered_logs.len();
        assert(entries_view(self.filtered_logs@).len() == n);
        if n == 0 {
            0
        } else {
            (n - 1) / self.items_per_page
        }
    }

    /// Handles a message: a new record from the log watcher, or an action
    /// of the user. Returns what the surroundings must do.
    pub fn update(&mut self, message: Message) -> (r: Action)
        requires
            old(self).wf(),
            message is NewLog ==> old(self)@.next_id < usize::MAX,
        ensures
            final(self).wf(),
            final(self)@ == next_state(old(self)@, message),
            match message {
                Message::CopyToClipboard(t) => r matches Action::CopyToClipboard(u) && u@ == t@,
                Message::SaveSettings => r == Action::SaveConfig(saved_config(old(self)@)),
                _ => r is Nothing,
            },
    {
        let ghost s = self@;
        match message {
            Message::NewLog(log) => {
                let max = self.config.max_cached_logs;
                self.insert_log(log);
                self.evict_logs(max);
                self.apply_filters();
                Action::Nothing
            },
            Message::FilterTextChanged(new_text) => {
                self.filter_text = new_text;
                self.current_page = 0;
                self.apply_filters();
                Action::Nothing
            },
            Message::FilterLevelChanged(new_level) => {
                self.filter_level = new_level;
                self.current_page = 0;
                self.apply_filters();
                Action::Nothing
            },
            Message::FilterRegexToggled(enabled) => {
                self.filter_regex_enabled = enabled;
                self.current_page = 0;
                self.apply_filters();
                Action::Nothing
            },
            Message::NextPage => {
                if self.current_page < self.max_pages() {
                    self.current_page = self.current_page + 1;
                }
                Action::Nothing
            },
            Message::PrevPage => {
                if self.current_page > 0 {
                    self.current_page = self.current_page - 1;
                }
                Action::Nothing
            },
            Message::ToggleExpand(log_id) => {
                if self.expanded_rows.contains(&log_id) {
                    self.expanded_rows.remove(&log_id);
                } else {
                    self.expanded_rows.insert(log_id);
                }
                Action::Nothing
            },
            Message::CopyToClipboard(text) => Action::CopyToClipboard(text),
            Message::OpenSettings => {
                self.temp_file_count = usize_to_string(self.config.file_count);
                self.temp_initial_logs = usize_to_string(self.config.initial_logs_per_file);
                self.temp_max_cached = usize_to_string(self.config.max_cached_logs);
                self.view_mode = ViewMode::Settings;
                Action::Nothing
            },
            Message::CloseSettings => {
                self.view_mode = ViewMode::Logs;
                Action::Nothing
            },
            Message::SettingsFileCountChanged(val) => {
                self.temp_file_count = val;
                Action::Nothing
            },
            Message::SettingsInitialLogsChanged(val) => {
                self.temp_initial_logs = val;
                Action::Nothing
            },
            Message::SettingsMaxCachedChanged(val) => {
                self.temp_max_cached = val;
                Action::Nothing
            },
            Message::SaveSettings => {
                self.config.file_count = match parse_usize(self.temp_file_count.as_str()) {
                    Some(v) => v,
                    None => self.config.file_count,
                };
                self.config.initial_logs_per_file = match parse_usize(
                    self.temp_initial_logs.as_str(),
                ) {
                    Some(v) => v,
                    None => self.config.initial_logs_per_file,
                };
                self.config.max_cached_logs = match parse_usize(self.temp_max_cached.as_str()) {
                    Some(v) => v,
                    None => self.config.max_cached_logs,
                };
                let max = self.config.max_cached_logs;
                self.evict_logs(max);
                self.apply_filters();
                self.view_mode = ViewMode::Logs;
                Action::SaveConfig(self.config)
            },
        }
    }

    /// The entries shown, in cache order.
    pub fn filtered_logs(&self) -> (r: &Vec<LogEntry>)
        requires
            self.wf(),
        ensures
            entries_view(r@) == shown(self@),
    {
        &self.filtered_logs
    }

    /// The text filter.
    pub fn filter_text(&self) -> (r: &str)
        ensures
            r@ == self@.filter_text,
    {
        self.filter_text.as_str()
    }

    /// The level filter.
    pub fn filter_level(&self) -> (r: Option<LogLevel>)
        ensures
            r == self@.filter_level,
    {
        self.filter_level
    }

    /// Whether the text filter is a regular expression.
    pub fn filter_regex_enabled(&self) -> (r: bool)
        ensures
            r == self@.filter_regex_enabled,
    {
        self.filter_regex_enabled
    }

    /// The message about an invalid regular expression, if the filter is one.
    pub fn filter_regex_error(&self) -> (r: Option<&str>)
        requires
            self.wf(),
        ensures
            match r {
                Some(e) => regex_error_text(self@) == Some(e@),
                None => regex_error_text(self@) is None,
            },
    {
        match &self.filter_regex_error {
            Some(e) => Some(e.as_str()),
            None => None,
        }
    }

    /// The page shown (pages count from 0).
    pub fn current_page(&self) -> (r: usize)
        ensures
            r == self@.current_page,
    {
        self.current_page
    }

    /// The number of entries per page.
    pub fn items_per_page(&self) -> (r: usize)
        requires
            self.wf(),
        ensures
            r == ITEMS_PER_PAGE,
    {
        self.items_per_page
    }

    /// The numbers of the entries shown in full.
    pub fn expanded_rows(&self) -> (r: &HashSet<usize>)
        ensures
            r@ == self@.expanded_rows,
    {
        &self.expanded_rows
    }

    /// The number of cached entries.
    pub fn total_logs(&self) -> (r: usize)
        ensures
            r == self@.logs.len(),
    {
        self.logs.len()
    }

    /// The edited number of files to watch.
    pub fn temp_file_count(&self) -> (r: &str)
        ensures
            r@ == self@.temp_file_count,
    {
        self.temp_file_count.as_str()
    }

    /// The edited number of records to read initially.
    pub fn temp_initial_logs(&self) -> (r: &str)
        ensures
            r@ == self@.temp_initial_logs,
    {
        self.temp_initial_logs.as_str()
    }

    /// The edited largest number of cached records.
    pub fn temp_max_cached(&self) -> (r: &str)
        ensures
            r@ == self@.temp_max_cached,
    {
        self.temp_max_cached.as_str()
    }
}


/// The cache never holds more entries than the settings allow: a message
/// that adds an entry, or changes the limit, drops the oldest entries beyond
/// it, and no other message changes the cache or the limit.
pub proof fn law_cache_bounded(s: ViewerState, m: Message)
    requires
        s.logs.len() <= s.config.max_cached_logs,
    ensures
        next_state(s, m).logs.len() <= next_state(s, m).config.max_cached_logs,
{
    match m {
        Message::NewLog(item) => {
            lemma_insert_sorted_len(s.logs, (s.next_id, item@));
        },
        _ => {},
    }
}

proof fn lemma_insert_sorted_len(s: Seq<(usize, LogRecord)>, x: (usize, LogRecord))
    ensures
        insert_sorted(s, x).len() == s.len() + 1,
    decreases s.len(),
{
    if s.len() > 0 && !view_before(x, s[0]) {
        lemma_insert_sorted_len(s.drop_first(), x);
    }
}

/// The cache is always in order: newest timestamps first, and for equal
/// timestamps the entry added later first.
pub proof fn law_cache_newest_first(v: &VRCLog)
    requires
        v.wf(),
    ensures
        sorted(v@.logs),
{
}

/// Every shown entry is a cached entry that both filters keep, and every
/// cached entry that both filters keep is shown (unless the filter is an
/// invalid regular expression).
pub proof fn law_shown_are_matching(s: ViewerState)
    ensures
        forall|k: int|
            0 <= k < shown(s).len() ==> s.logs.contains(#[trigger] shown(s)[k]) && text_matches(
                s.filter_text,
                s.filter_regex_enabled,
                shown(s)[k].1,
            ) && level_matches(s.filter_level, shown(s)[k].1.level),
        !regex_fails(s) ==> forall|k: int|
            0 <= k < s.logs.len() && text_matches(s.filter_text, s.filter_regex_enabled, s.logs[k].1)
                && level_matches(s.filter_level, s.logs[k].1.level) ==> shown(s).contains(
                #[trigger] s.logs[k],
            ),
{
    lemma_matching(s.logs, s.filter_text, s.filter_level, s.filter_regex_enabled);
}

proof fn lemma_matching(
    l: Seq<(usize, LogRecord)>,
    text: Seq<char>,
    level: Option<LogLevel>,
    regex: bool,
)
    ensures
        forall|k: int|
            0 <= k < matching(l, text, level, regex).len() ==> l.contains(
                #[trigger] matching(l, text, level, regex)[k],
            ) && text_matches(text, regex, matching(l, text, level, regex)[k].1) && level_matches(
                level,
                matching(l, text, level, regex)[k].1.level,
            ),
        forall|k: int|
            0 <= k < l.len() && text_matches(text, regex, l[k].1) && level_matches(level, l[k].1.level)
                ==> matching(l, text, level, regex).contains(#[trigger] l[k]),
    decreases l.len(),
{
    if l.len() > 0 {
        let p = l.drop_last();
        lemma_matching(p, text, level, regex);
        let r = matching(p, text, level, regex);
        let m = matching(l, text, level, regex);
        assert forall|k: int| 0 <= k < m.len() implies l.contains(#[trigger] m[k]) && text_matches(text, regex, m[k].1) && level_matches(level, m[k].1.level) by {
            if k < r.len() {
                assert(m[k] == r[k]);
                let j = choose|j: int| 0 <= j < p.len() && p[j] == r[k];
                assert(l[j] == p[j]);
            } else {
                assert(m[k] == l.last());
                assert(l[l.len() - 1] == l.last());
            }
        }
        assert forall|k: int| 0 <= k < l.len() && text_matches(text, regex, l[k].1) && level_matches(level, l[k].1.level) implies m.contains(#[trigger] l[k]) by {
            if k < l.len() - 1 {
                assert(p[k] == l[k]);
                let j = choose|j: int| 0 <= j < r.len() && r[j] == p[k];
                assert(m[j] == r[j]);
            } else {
                assert(m[m.len() - 1] == l.last());
            }
        }
    }
}

/// A filter on the level `All` keeps the same entries as no level filter.
pub proof fn law_level_all_is_no_filter(s: ViewerState)
    ensures
        shown(ViewerState { filter_level: Some(LogLevel::ALL), ..s }) == shown(
            ViewerState { filter_level: None, ..s },
        ),
{
    lemma_level_all(s.logs, s.filter_text, s.filter_regex_enabled);
}

proof fn lemma_level_all(l: Seq<(usize, LogRecord)>, text: Seq<char>, regex: bool)
    ensures
        matching(l, text, Some(LogLevel::ALL), regex) == matching(l, text, None, regex),
    decreases l.len(),
{
    if l.len() > 0 {
        lemma_level_all(l.drop_last(), text, regex);
    }
}

/// With an empty text filter and no level filter, every cached entry is shown.
pub proof fn law_no_filter_shows_all(s: ViewerState)
    requires
        s.filter_text.len() == 0,
        s.filter_level is None,
    ensures
        shown(s) == s.logs,
{
    lemma_match_all(s.logs, s.filter_text, s.filter_regex_enabled);
}

proof fn lemma_match_all(l: Seq<(usize, LogRecord)>, text: Seq<char>, regex: bool)
    requires
        text.len() == 0,
    ensures
        matching(l, text, None, regex) == l,
    decreases l.len(),
{
    if l.len() > 0 {
        lemma_match_all(l.drop_last(), text, regex);
        assert(l.drop_last().push(l.last()) =~= l);
    }
}

/// Expanding a row and then the same row again leaves the expanded rows as
/// they were.
pub proof fn law_toggle_twice(s: ViewerState, id: usize)
    ensures
        next_state(next_state(s, Message::ToggleExpand(id)), Message::ToggleExpand(id)).expanded_rows
            == s.expanded_rows,
{
    let once = next_state(s, Message::ToggleExpand(id));
    let twice = next_state(once, Message::ToggleExpand(id));
    assert(twice.expanded_rows =~= s.expanded_rows);
}

/// Paging stays within the pages: from a page within range, the next page is
/// still within range; a step forward that moved is undone by a step back;
/// and the page never goes below the first.
pub proof fn law_paging(s: ViewerState)
    requires
        shown(s).len() <= usize::MAX,
    ensures
        s.current_page <= last_page(shown(s).len()) ==> next_state(s, Message::NextPage).current_page
            <= last_page(shown(s).len()),
        s.current_page < last_page(shown(s).len()) ==> next_state(
            next_state(s, Message::NextPage),
            Message::PrevPage,
        ) == s,
        s.current_page == 0 ==> next_state(s, Message::PrevPage) == s,
{
    if s.current_page < last_page(shown(s).len()) {
        let n = next_state(s, Message::NextPage);
        assert(shown(n) == shown(s));
        assert(last_page(shown(s).len()) <= shown(s).len());
        assert(n.current_page == s.current_page + 1);
        assert(next_state(n, Message::PrevPage) =~= s);
    }
}

/// Opening the settings and saving them without edits keeps the settings.
pub proof fn law_settings_roundtrip(s: ViewerState)
    ensures
        next_state(next_state(s, Message::OpenSettings), Message::SaveSettings).config == s.config,
{
    crate::text::law_parse_decimal_roundtrip(s.config.file_count);
    crate::text::law_parse_decimal_roundtrip(s.config.initial_logs_per_file);
    crate::text::law_parse_decimal_roundtrip(s.config.max_cached_logs);
}

/// Saving settings whose edited text is not a number keeps that value.
pub proof fn law_invalid_setting_kept(s: ViewerState)
    requires
        parse_decimal(s.temp_max_cached) is None,
    ensures
        next_state(s, Message::SaveSettings).config.max_cached_logs == s.config.max_cached_logs,
{
}

/// The number of leading entries of `s` that `x` does not come before.
spec fn place_of(s: Seq<(usize, LogRecord)>, x: (usize, LogRecord)) -> nat
    decreases s.len(),
{
    if s.len() == 0 || view_before(x, s[0]) {
        0
    } else {
        1 + place_of(s.drop_first(), x)
    }
}

proof fn lemma_place_of(s: Seq<(usize, LogRecord)>, x: (usize, LogRecord))
    ensures
        place_of(s, x) <= s.len(),
        forall|i: int| 0 <= i < place_of(s, x) ==> !view_before(x, #[trigger] s[i]),
        place_of(s, x) < s.len() ==> view_before(x, s[place_of(s, x) as int]),
    decreases s.len(),
{
    if s.len() > 0 && !view_before(x, s[0]) {
        lemma_place_of(s.drop_first(), x);
        assert forall|i: int| 0 <= i < place_of(s, x) implies !view_before(x, #[trigger] s[i]) by {
            if i > 0 {
                assert(s[i] == s.drop_first()[i - 1]);
            }
        }
        if place_of(s, x) < s.len() {
            assert(s[place_of(s, x) as int] == s.drop_first()[place_of(s.drop_first(), x) as int]);
        }
    }
}

/// A new record joins the cache at its place in time and is only left out
/// when the cache is full of newer entries. In a valid state (cache in
/// order, within its limit, numbers below the next number), after
/// `NewLog(item)`:
/// - the cache holds one more entry, up to the limit, and is still in order;
/// - each cached entry is the new one or was cached before;
/// - the new entry, numbered `s.next_id`, is cached unless the cache is full
///   and every cached entry comes before it;
/// - a record newer than every cached one is first in the cache (when the
///   limit is not zero);
/// - the next number grows by one.
pub proof fn law_new_log(s: ViewerState, item: LogItem)
    requires
        sorted(s.logs),
        s.logs.len() <= s.config.max_cached_logs,
        forall|i: int| 0 <= i < s.logs.len() ==> (#[trigger] s.logs[i]).0 < s.next_id,
        s.next_id < usize::MAX,
    ensures
        ({
            let n = (s.next_id, item@);
            let max = s.config.max_cached_logs;
            let r = next_state(s, Message::NewLog(item)).logs;
            &&& r.len() == (if s.logs.len() < max {
                s.logs.len() + 1
            } else {
                max as nat
            })
            &&& sorted(r)
            &&& forall|q: int| 0 <= q < r.len() ==> #[trigger] r[q] == n || s.logs.contains(r[q])
            &&& r.contains(n) || (r.len() == max && forall|q: int|
                0 <= q < r.len() ==> view_before(#[trigger] r[q], n))
            &&& (max > 0 && forall|i: int|
                0 <= i < s.logs.len() ==> text_lt(
                    (#[trigger] s.logs[i]).1.timestamp,
                    item@.timestamp,
                )) ==> r.len() > 0 && r[0] == n
            &&& next_state(s, Message::NewLog(item)).next_id == s.next_id + 1
        }),
{
    let n = (s.next_id, item@);
    let l = s.logs;
    let max = s.config.max_cached_logs;
    lemma_place_of(l, n);
    let k = place_of(l, n) as int;
    lemma_insert_sorted(l, n, k);
    let ins = insert_sorted(l, n);
    assert(ins =~= l.take(k).push(n) + l.skip(k));
    assert(ins.len() == l.len() + 1);
    let r = next_state(s, Message::NewLog(item)).logs;
    assert forall|i: int| 0 <= i < k implies view_before(#[trigger] l[i], n) by {
        law_order_strict_total(l[i].1.timestamp, l[i].0, n.1.timestamp, n.0, n.1.timestamp, n.0);
        assert(l[i].0 < n.0);
    }
    assert forall|j: int| k <= j < l.len() implies view_before(n, #[trigger] l[j]) by {
        if j > k {
            assert(view_before(l[k], l[j]));
            law_order_strict_total(n.1.timestamp, n.0, l[k].1.timestamp, l[k].0, l[j].1.timestamp, l[j].0);
        }
    }
    assert forall|i: int, j: int| 0 <= i < j < ins.len() implies view_before(ins[i], ins[j]) by {
        if j < k {
            assert(ins[i] == l[i] && ins[j] == l[j]);
        } else if j == k {
            assert(ins[i] == l[i] && ins[j] == n);
        } else if i < k {
            assert(ins[i] == l[i] && ins[j] == l[j - 1]);
        } else if i == k {
            assert(ins[i] == n && ins[j] == l[j - 1]);
        } else {
            assert(ins[i] == l[i - 1] && ins[j] == l[j - 1]);
        }
    }
    assert(ins[k] == n);
    assert forall|q: int| 0 <= q < ins.len() implies #[trigger] ins[q] == n || l.contains(ins[q]) by {
        if q < k {
            assert(ins[q] == l[q]);
        } else if q > k {
            assert(ins[q] == l[q - 1]);
        }
    }
    if l.len() < max {
        assert(r == ins);
    } else {
        assert(r == ins.take(max as int));
        assert forall|q: int| 0 <= q < r.len() implies #[trigger] r[q] == n || l.contains(r[q]) by {
            assert(r[q] == ins[q]);
        }
        if k < max {
            assert(r[k] == n);
        } else {
            assert forall|q: int| 0 <= q < r.len() implies view_before(#[trigger] r[q], n) by {
                assert(r[q] == ins[q]);
                assert(ins[q] == l[q]);
            }
        }
    }
    if max > 0 && forall|i: int| 0 <= i < l.len() ==> text_lt((#[trigger] l[i]).1.timestamp, item@.timestamp) {
        if l.len() > 0 {
            assert(text_lt(l[0].1.timestamp, item@.timestamp));
            assert(view_before(n, l[0]));
        }
        assert(k == 0);
        assert(ins[0] == n);
    }
}

/// The text filter reads a record's full text. With regular expressions
/// off, a cached entry that the level filter keeps is shown exactly when the
/// lowercased filter text occurs in its lowercased full text (`raw`); with
/// them on and the expression valid, exactly when the expression matches its
/// full text. An empty filter hides nothing.
pub proof fn law_text_filter(s: ViewerState)
    ensures
        forall|k: int|
            0 <= k < s.logs.len() && level_matches(s.filter_level, (#[trigger] s.logs[k]).1.level)
                && !s.filter_regex_enabled && s.filter_text.len() > 0 ==> (shown(s).contains(
                s.logs[k],
            ) <==> contains(lowercase(s.logs[k].1.raw), lowercase(s.filter_text))),
        forall|k: int|
            0 <= k < s.logs.len() && level_matches(s.filter_level, (#[trigger] s.logs[k]).1.level)
                && s.filter_regex_enabled && s.filter_text.len() > 0 && ci_regex_build(
                s.filter_text,
            ) is Ok ==> (shown(s).contains(s.logs[k]) <==> ci_regex_is_match(
                s.filter_text,
                s.logs[k].1.raw,
            )),
        forall|k: int|
            0 <= k < s.logs.len() && level_matches(s.filter_level, (#[trigger] s.logs[k]).1.level)
                && s.filter_text.len() == 0 ==> shown(s).contains(s.logs[k]),
{
    law_shown_are_matching(s);
    assert forall|k: int|
        0 <= k < s.logs.len() && level_matches(s.filter_level, (#[trigger] s.logs[k]).1.level)
            && shown(s).contains(s.logs[k]) implies text_matches(
        s.filter_text,
        s.filter_regex_enabled,
        s.logs[k].1,
    ) by {
        let j = choose|j: int| 0 <= j < shown(s).len() && shown(s)[j] == s.logs[k];
        assert(text_matches(s.filter_text, s.filter_regex_enabled, shown(s)[j].1));
    }
}

/// Changing a filter stores it and returns to the first page.
pub proof fn law_filter_change_first_page(s: ViewerState, t: String, l: Option<LogLevel>, b: bool)
    ensures
        next_state(s, Message::FilterTextChanged(t)).current_page == 0,
        next_state(s, Message::FilterTextChanged(t)).filter_text == t@,
        next_state(s, Message::FilterLevelChanged(l)).current_page == 0,
        next_state(s, Message::FilterLevelChanged(l)).filter_level == l,
        next_state(s, Message::FilterRegexToggled(b)).current_page == 0,
        next_state(s, Message::FilterRegexToggled(b)).filter_regex_enabled == b,
{
}

/// Saving the settings stores each edited value that reads as a number,
/// keeps the current value of each that does not, and returns to the log
/// page; an edit made on the settings page is what is saved.
pub proof fn law_save_settings(s: ViewerState, t: String)
    ensures
        parse_decimal(s.temp_file_count) is Some ==> next_state(s, Message::SaveSettings).config.file_count
            == parse_decimal(s.temp_file_count)->Some_0,
        parse_decimal(s.temp_initial_logs) is Some ==> next_state(
            s,
            Message::SaveSettings,
        ).config.initial_logs_per_file == parse_decimal(s.temp_initial_logs)->Some_0,
        parse_decimal(s.temp_max_cached) is Some ==> next_state(
            s,
            Message::SaveSettings,
        ).config.max_cached_logs == parse_decimal(s.temp_max_cached)->Some_0,
        parse_decimal(s.temp_file_count) is None ==> next_state(s, Message::SaveSettings).config.file_count
            == s.config.file_count,
        parse_decimal(s.temp_initial_logs) is None ==> next_state(
            s,
            Message::SaveSettings,
        ).config.initial_logs_per_file == s.config.initial_logs_per_file,
        parse_decimal(s.temp_max_cached) is None ==> next_state(
            s,
            Message::SaveSettings,
        ).config.max_cached_logs == s.config.max_cached_logs,
        next_state(s, Message::SaveSettings).view_mode == ViewMode::Logs,
        parse_decimal(t@) is Some ==> next_state(
            next_state(next_state(s, Message::OpenSettings), Message::SettingsFileCountChanged(t)),
            Message::SaveSettings,
        ).config.file_count == parse_decimal(t@)->Some_0,
        parse_decimal(t@) is Some ==> next_state(
            next_state(next_state(s, Message::OpenSettings), Message::SettingsInitialLogsChanged(t)),
            Message::SaveSettings,
        ).config.initial_logs_per_file == parse_decimal(t@)->Some_0,
        parse_decimal(t@) is Some ==> next_state(
            next_state(next_state(s, Message::OpenSettings), Message::SettingsMaxCachedChanged(t)),
            Message::SaveSettings,
        ).config.max_cached_logs == parse_decimal(t@)->Some_0,
{
}

} // verus!
