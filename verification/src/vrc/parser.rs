use vstd::prelude::*;
use vstd::utf8::encode_utf8;
use crate::text::{decode_piece, lemma_split_lines_concat, lemma_split_lines_single, lemma_split_lines_not_empty, lemma_byte_index_first, byte_index, lemma_byte_index, lemma_byte_index_bound, decode_lines, is_blank, lemma_trim_empty, split_lines, push_str, find_char, byte_boundary, byte_len, byte_len_of_range, char_pos, chars_spanning_bytes, drop_white_space_back, skip_white_space, trim, trim_end, trim_start, lemma_encode_concat, chars_of, chars_eq_str, char_index, index_of_char, lowercase, push_char, push_range, string_of_range, to_lowercase};

verus! {

/// One record of a VRChat output log.
#[derive(Debug, Clone)]
pub struct LogItem {
    /// The first 19 bytes of the record's first line (`YYYY.MM.DD HH:MM:SS`).
    pub timestamp: String,
    /// The word before ` - ` (`Log`, `Warning`, `Error`, `Debug`, ...).
    pub level: String,
    /// The text between `[` and `]` at the start of the message, without
    /// Unity rich-text tags, or `NO_TYPE`.
    pub log_type: String,
    /// The message text of the first line, or the first continuation line
    /// when the first line carries none.
    pub message: String,
    /// Further continuation lines, each preceded by a line break.
    pub details: String,
    /// The full text of the record: its first line and its continuation lines.
    pub raw: String,
}

/// The mathematical content of a [`LogItem`].
pub struct LogRecord {
    pub timestamp: Seq<char>,
    pub level: Seq<char>,
    pub log_type: Seq<char>,
    pub message: Seq<char>,
    pub details: Seq<char>,
    pub raw: Seq<char>,
}

impl View for LogItem {
    type V = LogRecord;

    open spec fn view(&self) -> LogRecord {
        LogRecord {
            timestamp: self.timestamp@,
            level: self.level@,
            log_type: self.log_type@,
            message: self.message@,
            details: self.details@,
            raw: self.raw@,
        }
    }
}

/// Whether a lowercased tag name is one of the rich-text tags that Unity
/// renders (and that are therefore removed from displayed text).
pub open spec fn known_tag(name: Seq<char>) -> bool {
    ||| name == "color"@
    ||| name == "b"@
    ||| name == "i"@
    ||| name == "size"@
    ||| name == "material"@
    ||| name == "quad"@
    ||| name == "a"@
    ||| name == "mark"@
    ||| name == "u"@
    ||| name == "s"@
    ||| name == "sup"@
    ||| name == "sub"@
    ||| name == "voffset"@
    ||| name == "sprite"@
    ||| name == "allcaps"@
    ||| name == "smallcaps"@
    ||| name == "upper"@
    ||| name == "lower"@
    ||| name == "line-height"@
    ||| name == "align"@
    ||| name == "width"@
    ||| name == "margin"@
    ||| name == "indent"@
    ||| name == "nobr"@
}

/// Decides [`known_tag`] for an already lowercased tag name.
pub fn is_known_tag(lowered: &str) -> (b: bool)
    ensures
        b == known_tag(lowered@),
{
    let v = chars_of(lowered);
    chars_eq_str(&v, "color") || chars_eq_str(&v, "b") || chars_eq_str(&v, "i")
        || chars_eq_str(&v, "size") || chars_eq_str(&v, "material") || chars_eq_str(&v, "quad")
        || chars_eq_str(&v, "a") || chars_eq_str(&v, "mark") || chars_eq_str(&v, "u")
        || chars_eq_str(&v, "s") || chars_eq_str(&v, "sup") || chars_eq_str(&v, "sub")
        || chars_eq_str(&v, "voffset") || chars_eq_str(&v, "sprite") || chars_eq_str(
        &v,
        "allcaps",
    ) || chars_eq_str(&v, "smallcaps") || chars_eq_str(&v, "upper") || chars_eq_str(&v, "lower")
        || chars_eq_str(&v, "line-height") || chars_eq_str(&v, "align") || chars_eq_str(
        &v,
        "width",
    ) || chars_eq_str(&v, "margin") || chars_eq_str(&v, "indent") || chars_eq_str(&v, "nobr")
}

/// The number of leading characters of `s` before the first `<` or `>`.
pub open spec fn tag_body_len(s: Seq<char>) -> nat
    decreases s.len(),
{
    if s.len() == 0 || s[0] == '<' || s[0] == '>' {
        0
    } else {
        1 + tag_body_len(s.drop_first())
    }
}

/// `s` with every leading `c` removed (Rust's `str::trim_start_matches`).
pub open spec fn strip_leading(s: Seq<char>, c: char) -> Seq<char>
    decreases s.len(),
{
    if s.len() > 0 && s[0] == c {
        strip_leading(s.drop_first(), c)
    } else {
        s
    }
}

/// The name of a tag whose text between `<` and `>` is `body`: the part
/// before the first `=`, without leading `/`.
pub open spec fn tag_name(body: Seq<char>) -> Seq<char> {
    strip_leading(body.take(char_index(body, '=') as int), '/')
}

/// `text` with the known Unity rich-text tags removed. A tag is a `<`,
/// then characters that are neither `<` nor `>`, then `>`; it is removed
/// when its lowercased name is known, and kept otherwise. A `<` that does
/// not open a tag is kept, and scanning resumes at the next `<`.
pub open spec fn strip_tags(text: Seq<char>) -> Seq<char>
    decreases text.len(),
{
    if text.len() == 0 {
        text
    } else if text[0] != '<' {
        seq![text[0]] + strip_tags(text.drop_first())
    } else {
        let k: int = tag_body_len(text.drop_first()) as int;
        proof {
            lemma_tag_body_len_bound(text.drop_first());
        }
        let body = text.subrange(1, k + 1);
        if k + 1 < text.len() && text[k + 1] == '>' {
            if known_tag(lowercase(tag_name(body))) {
                strip_tags(text.skip(k + 2))
            } else {
                seq!['<'] + body + seq!['>'] + strip_tags(text.skip(k + 2))
            }
        } else {
            seq!['<'] + body + strip_tags(text.skip(k + 1))
        }
    }
}

pub proof fn lemma_tag_body_len_bound(s: Seq<char>)
    ensures
        tag_body_len(s) <= s.len(),
    decreases s.len(),
{
    if s.len() > 0 && s[0] != '<' && s[0] != '>' {
        lemma_tag_body_len_bound(s.drop_first());
    }
}

proof fn lemma_tag_body_len(s: Seq<char>, k: int)
    requires
        0 <= k <= s.len(),
        forall|i: int| 0 <= i < k ==> s[i] != '<' && s[i] != '>',
        k == s.len() || s[k] == '<' || s[k] == '>',
    ensures
        tag_body_len(s) == k,
    decreases k,
{
    if k > 0 {
        lemma_tag_body_len(s.drop_first(), k - 1);
    }
}

/// The first position in `v[lo..hi]` that is not `c` (Rust's
/// `trim_start_matches` with a `char`).
fn skip_char(v: &Vec<char>, lo: usize, hi: usize, c: char) -> (k: usize)
    requires
        lo <= hi <= v.len(),
    ensures
        lo <= k <= hi,
        v@.subrange(k as int, hi as int) == strip_leading(v@.subrange(lo as int, hi as int), c),
{
    let mut i: usize = lo;
    while i < hi && v[i] == c
        invariant
            lo <= i <= hi <= v.len(),
            strip_leading(v@.subrange(lo as int, hi as int), c) == strip_leading(
                v@.subrange(i as int, hi as int),
                c,
            ),
        decreases hi - i,
    {
        assert(v@.subrange(i as int, hi as int).drop_first() =~= v@.subrange(
            i + 1,
            hi as int,
        ));
        i = i + 1;
    }
    i
}

/// Removes Unity rich-text tags (`<color=red>`, `</b>`, ...) from `text`,
/// keeping any other text, including tags that Unity does not know.
pub fn strip_unity_tags(text: &str) -> (r: String)
    ensures
        r@ == strip_tags(text@),
{
    let v = chars_of(text);
    let n: usize = v.len();
    let mut result = String::new();
    let mut i: usize = 0;
    assert(v@.skip(0) =~= v@);
    assert(result@ + strip_tags(v@) =~= strip_tags(v@));
    while i < n
        invariant
            n == v.len(),
            0 <= i <= n,
            strip_tags(v@) == result@ + strip_tags(v@.skip(i as int)),
        decreases n - i,
    {
        let ghost s = v@.skip(i as int);
        let c = v[i];
        if c == '<' {
            let start: usize = i + 1;
            let mut j: usize = start;
            while j < n && v[j] != '>' && v[j] != '<'
                invariant
                    n == v.len(),
                    start <= j <= n,
                    forall|m: int| start <= m < j ==> v@[m] != '<' && v@[m] != '>',
                decreases n - j,
            {
                j = j + 1;
            }
            proof {
                lemma_tag_body_len(s.drop_first(), j - start);
                assert(s.subrange(1, j - i) =~= v@.subrange(start as int, j as int));
            }
            if j < n && v[j] == '>' {
                let eq: usize = index_of_char(&v, start, j, '=');
                let name_start: usize = skip_char(&v, start, eq, '/');
                proof {
                    assert(v@.subrange(start as int, j as int).take(eq - start) =~= v@.subrange(
                        start as int,
                        eq as int,
                    ));
                    assert(s.skip(j - i + 1) =~= v@.skip(j + 1));
                }
                let name = string_of_range(&v, name_start, eq);
                let lowered = to_lowercase(name.as_str());
                if is_known_tag(lowered.as_str()) {
                    i = j + 1;
                } else {
                    push_char(&mut result, '<');
                    push_range(&mut result, &v, start, j);
                    push_char(&mut result, '>');
                    i = j + 1;
                }
            } else {
                proof {
                    assert(s.skip(j - i) =~= v@.skip(j as int));
                }
                push_char(&mut result, '<');
                push_range(&mut result, &v, start, j);
                i = j;
            }
        } else {
            proof {
                assert(s.drop_first() =~= v@.skip(i + 1));
            }
            push_char(&mut result, c);
            i = i + 1;
        }
    }
    assert(v@.skip(n as int) =~= Seq::<char>::empty());
    result
}


/// Whether `s` holds `- ` at position `i`.
pub open spec fn dash_space_at(s: Seq<char>, i: int) -> bool {
    s[i] == '-' && s[i + 1] == ' '
}

/// The position of the first `- ` in `s`, or `s.len()` when there is none.
pub open spec fn dash_space_index(s: Seq<char>) -> nat
    decreases s.len(),
{
    if s.len() < 2 {
        s.len()
    } else if s[0] == '-' && s[1] == ' ' {
        0
    } else {
        1 + dash_space_index(s.drop_first())
    }
}

proof fn lemma_dash_space_found(s: Seq<char>, k: int)
    requires
        0 <= k,
        k + 2 <= s.len(),
        s[k] == '-' && s[k + 1] == ' ',
        forall|i: int| 0 <= i < k ==> !#[trigger] dash_space_at(s, i),
    ensures
        dash_space_index(s) == k,
    decreases k,
{
    if k > 0 {
        assert(!dash_space_at(s, 0));
        assert forall|i: int| 0 <= i < k - 1 implies !#[trigger] dash_space_at(s.drop_first(), i) by {
            assert(!dash_space_at(s, i + 1));
        }
        lemma_dash_space_found(s.drop_first(), k - 1);
    }
}

proof fn lemma_dash_space_absent(s: Seq<char>)
    requires
        forall|i: int| 0 <= i && i + 1 < s.len() ==> !#[trigger] dash_space_at(s, i),
    ensures
        dash_space_index(s) == s.len(),
    decreases s.len(),
{
    if s.len() >= 2 {
        assert(!dash_space_at(s, 0));
        assert forall|i: int| 0 <= i && i + 1 < s.len() - 1 implies !#[trigger] dash_space_at(s.drop_first(), i) by {
            assert(!dash_space_at(s, i + 1));
        }
        lemma_dash_space_absent(s.drop_first());
    }
}

/// The position of the first `- ` in `v[lo..hi]`, if any.
fn find_dash_space(v: &Vec<char>, lo: usize, hi: usize) -> (r: Option<usize>)
    requires
        lo <= hi <= v.len(),
    ensures
        match r {
            Some(k) => lo <= k && k + 2 <= hi && k - lo == dash_space_index(
                v@.subrange(lo as int, hi as int),
            ),
            None => dash_space_index(v@.subrange(lo as int, hi as int)) == hi - lo,
        },
{
    let ghost s = v@.subrange(lo as int, hi as int);
    let mut i: usize = lo;
    while hi - i >= 2 && !(v[i] == '-' && v[i + 1] == ' ')
        invariant
            lo <= i <= hi <= v.len(),
            s == v@.subrange(lo as int, hi as int),
            forall|k: int| 0 <= k < i - lo ==> !#[trigger] dash_space_at(s, k),
        decreases hi - i,
    {
        i = i + 1;
    }
    if hi - i >= 2 {
        proof {
            lemma_dash_space_found(s, i - lo);
        }
        Some(i)
    } else {
        proof {
            lemma_dash_space_absent(s);
        }
        None
    }
}

/// Whether the first line of a record starts with a timestamp: at least 19
/// bytes, a `.` at byte 4 and a space at byte 10.
pub open spec fn header_ok(line: Seq<char>) -> bool {
    let b = encode_utf8(line);
    b.len() >= 19 && b[4] == 46u8 && b[10] == 32u8
}

/// The text after the timestamp, trimmed.
pub open spec fn line_rest(line: Seq<char>) -> Seq<char> {
    trim(line.skip(char_pos(line, 19)))
}

/// The message part of a line: what follows the first `- ` of [`line_rest`].
pub open spec fn line_message(line: Seq<char>) -> Seq<char> {
    line_rest(line).skip(dash_space_index(line_rest(line)) + 2int)
}

/// Whether the message part opens with `[` once its leading white space is removed.
pub open spec fn opens_bracket(msg: Seq<char>) -> bool {
    trim_start(msg).len() > 0 && trim_start(msg)[0] == '['
}

/// The byte offset, in the message part, of its first `]`.
pub open spec fn close_bracket_byte(msg: Seq<char>) -> int {
    byte_len(msg.take(char_index(msg, ']') as int)) as int
}

/// Whether reading the type of a line would slice a string at an invalid
/// position. The type is cut from the message without its leading white
/// space, from byte 1 to one byte before the offset of `]` in the untrimmed
/// message; that end may lie before byte 1 or inside a character.
pub open spec fn type_slice_invalid(msg: Seq<char>) -> bool {
    opens_bracket(msg) && find_char(msg, ']') is Some && (close_bracket_byte(msg) < 2
        || !byte_boundary(trim_start(msg), close_bracket_byte(msg) - 1))
}

/// The lines on which reading a record panics: the timestamp does not end
/// on a character boundary, or the type would be sliced at an invalid position.
pub open spec fn line_panics(line: Seq<char>) -> bool {
    header_ok(line) && (!byte_boundary(line, 19) || (dash_space_index(line_rest(line)) + 2
        <= line_rest(line).len() && type_slice_invalid(line_message(line))))
}

/// The type of a record whose message part is `msg`: the text inside a
/// leading `[...]`, trimmed and without rich-text tags, or `NO_TYPE`.
pub open spec fn record_type(msg: Seq<char>) -> Seq<char> {
    if opens_bracket(msg) && find_char(msg, ']') is Some {
        let t = trim_start(msg);
        strip_tags(trim(t.subrange(1, char_pos(t, close_bracket_byte(msg) - 1))))
    } else {
        "NO_TYPE"@
    }
}

/// The message of a record whose message part is `msg`: what follows the
/// leading `[...]`, or the whole part.
pub open spec fn record_message(msg: Seq<char>) -> Seq<char> {
    if opens_bracket(msg) {
        if find_char(msg, ']') is Some {
            trim_start(msg.skip(char_index(msg, ']') + 1int))
        } else {
            msg
        }
    } else {
        trim_end(msg)
    }
}

/// The record that a line starts, if it starts one: a timestamp, then after
/// the first `- ` the message, whose leading `[...]` gives the type.
pub open spec fn parse_log_line(line: Seq<char>) -> Option<LogRecord> {
    if !header_ok(line) {
        None
    } else {
        let rest = line_rest(line);
        let i = dash_space_index(rest) as int;
        if i + 2 > rest.len() {
            None
        } else {
            let msg = rest.skip(i + 2);
            Some(
                LogRecord {
                    timestamp: line.take(char_pos(line, 19)),
                    level: trim(rest.take(i)),
                    log_type: record_type(msg),
                    message: record_message(msg),
                    details: Seq::empty(),
                    raw: line,
                },
            )
        }
    }
}

/// Decides [`line_panics`].
pub fn line_would_panic(line: &str) -> (b: bool)
    ensures
        b == line_panics(line@),
{
    let bytes = line.as_bytes();
    if bytes.len() < 19 || bytes[4] != 46u8 || bytes[10] != 32u8 {
        return false;
    }
    let v = chars_of(line);
    let n: usize = v.len();
    assert(v@.subrange(0, n as int) =~= line@);
    let p: usize = match chars_spanning_bytes(&v, 0, n, 19) {
        Some(p) => p,
        None => return true,
    };
    let r0: usize = skip_white_space(&v, p, n);
    let r1: usize = drop_white_space_back(&v, r0, n);
    proof {
        assert(line@.skip(p as int) =~= v@.subrange(p as int, n as int));
    }
    let di: usize = match find_dash_space(&v, r0, r1) {
        Some(di) => di,
        None => return false,
    };
    let m0: usize = di + 2;
    let ghost msg = v@.subrange(m0 as int, r1 as int);
    assert(line_message(line@) =~= msg);
    let t0: usize = skip_white_space(&v, m0, r1);
    let jpos: usize = index_of_char(&v, m0, r1, ']');
    if !(t0 < r1 && v[t0] == '[') || jpos == r1 {
        return false;
    }
    assert(msg.take(jpos - m0) =~= v@.subrange(m0 as int, jpos as int));
    let e: u128 = byte_len_of_range(&v, m0, jpos);
    if e < 2 {
        return true;
    }
    match chars_spanning_bytes(&v, t0, r1, e - 1) {
        Some(_) => false,
        None => true,
    }
}

/// Reads the record that `line` starts, if it starts one.
pub fn parse_line_to_log(line: &str) -> (r: Option<LogItem>)
    requires
        !line_panics(line@),
    ensures
        match r {
            Some(item) => parse_log_line(line@) == Some(item@) && encode_utf8(item.timestamp@)
                == encode_utf8(line@).take(19),
            None => parse_log_line(line@) is None,
        },
{
    let bytes = line.as_bytes();
    if bytes.len() < 19 || bytes[4] != 46u8 || bytes[10] != 32u8 {
        return None;
    }
    let v = chars_of(line);
    let n: usize = v.len();
    assert(v@.subrange(0, n as int) =~= line@);
    let p: usize = match chars_spanning_bytes(&v, 0, n, 19) {
        Some(p) => p,
        None => {
            proof {
                assert(false);
            }
            return None;
        },
    };
    let r0: usize = skip_white_space(&v, p, n);
    let r1: usize = drop_white_space_back(&v, r0, n);
    let ghost rest = v@.subrange(r0 as int, r1 as int);
    proof {
        assert(line@.skip(p as int) =~= v@.subrange(p as int, n as int));
        assert(line_rest(line@) == rest);
    }
    let di: usize = match find_dash_space(&v, r0, r1) {
        Some(di) => di,
        None => return None,
    };
    let m0: usize = di + 2;
    let ghost msg = v@.subrange(m0 as int, r1 as int);
    assert(rest.skip(di - r0 + 2) =~= msg);
    assert(rest.take(di - r0) =~= v@.subrange(r0 as int, di as int));
    let l0: usize = skip_white_space(&v, r0, di);
    let l1: usize = drop_white_space_back(&v, l0, di);
    let level = string_of_range(&v, l0, l1);
    proof {
        assert(line_message(line@) == msg);
    }
    let (log_type, message) = message_parts(&v, m0, r1);
    let timestamp = string_of_range(&v, 0, p);
    proof {
        assert(line@.take(p as int) =~= v@.subrange(0, p as int));
        lemma_encode_concat(v@.subrange(0, p as int), v@.subrange(p as int, n as int));
        assert(v@.subrange(0, p as int) + v@.subrange(p as int, n as int) =~= line@);
        assert(encode_utf8(line@).take(19) =~= encode_utf8(v@.subrange(0, p as int)));
    }
    Some(
        LogItem {
            timestamp,
            level,
            log_type,
            message,
            details: String::new(),
            raw: line.to_string(),
        },
    )
}

/// The type and the message read from the message part `v[m0..r1]`.
fn message_parts(v: &Vec<char>, m0: usize, r1: usize) -> (r: (String, String))
    requires
        m0 <= r1 <= v.len(),
        !type_slice_invalid(v@.subrange(m0 as int, r1 as int)),
    ensures
        r.0@ == record_type(v@.subrange(m0 as int, r1 as int)),
        r.1@ == record_message(v@.subrange(m0 as int, r1 as int)),
{
    let ghost msg = v@.subrange(m0 as int, r1 as int);
    let t0: usize = skip_white_space(&v, m0, r1);
    let jpos: usize = index_of_char(&v, m0, r1, ']');
    let bracket = t0 < r1 && v[t0] == '[';
    if bracket {
        if jpos < r1 {
            assert(msg.take(jpos - m0) =~= v@.subrange(m0 as int, jpos as int));
            let e: u128 = byte_len_of_range(&v, m0, jpos);
            if e < 2 {
                proof {
                    assert(false);
                }
                return (String::new(), String::new());
            }
            let q: usize = match chars_spanning_bytes(&v, t0, r1, e - 1) {
                Some(q) => q,
                None => {
                    proof {
                        assert(false);
                    }
                    return (String::new(), String::new());
                },
            };
            proof {
                lemma_byte_len_not_zero_prefix(v@.subrange(t0 as int, r1 as int), q - t0);
            }
            assert(v@.subrange(t0 as int, r1 as int).subrange(1, q - t0) =~= v@.subrange(
                t0 + 1,
                q as int,
            ));
            let a: usize = skip_white_space(&v, t0 + 1, q);
            let b: usize = drop_white_space_back(&v, a, q);
            let body = string_of_range(&v, a, b);
            let log_type = strip_unity_tags(body.as_str());
            assert(msg.skip(jpos - m0 + 1) =~= v@.subrange(jpos + 1, r1 as int));
            let c: usize = skip_white_space(&v, jpos + 1, r1);
            (log_type, string_of_range(&v, c, r1))
        } else {
            ("NO_TYPE".to_string(), string_of_range(&v, m0, r1))
        }
    } else {
        let c: usize = drop_white_space_back(&v, m0, r1);
        ("NO_TYPE".to_string(), string_of_range(&v, m0, c))
    }
}

/// A prefix whose encoding is not empty holds at least one character.
proof fn lemma_byte_len_not_zero_prefix(s: Seq<char>, q: int)
    requires
        0 <= q <= s.len(),
        byte_len(s.take(q)) >= 1,
    ensures
        q >= 1,
{
    if q == 0 {
        assert(s.take(0) =~= Seq::<char>::empty());
        assert(encode_utf8(Seq::<char>::empty()) =~= Seq::<u8>::empty());
    }
}


/// `r` extended by a line that starts no record: the line, without its
/// trailing white space, becomes the message when the message is blank, and
/// is otherwise appended to the details after a line break. It is appended
/// to the full text after a line break either way.
pub open spec fn continue_record(r: LogRecord, line: Seq<char>) -> LogRecord {
    let l = trim_end(line);
    if trim(r.message).len() == 0 {
        LogRecord { message: l, raw: r.raw + seq!['\n'] + l, ..r }
    } else {
        LogRecord { details: r.details + seq!['\n'] + l, raw: r.raw + seq!['\n'] + l, ..r }
    }
}

/// The state after reading `line` in file order: the record being read, if
/// any, and the records already complete. Empty lines are skipped; a line
/// that starts a record completes the current one; any other line continues
/// the current record, and is dropped when there is none.
pub open spec fn read_line(state: (Option<LogRecord>, Seq<LogRecord>), line: Seq<char>) -> (
    Option<LogRecord>,
    Seq<LogRecord>,
) {
    if line.len() == 0 {
        state
    } else {
        match parse_log_line(line) {
            Some(r) => (
                Some(r),
                match state.0 {
                    Some(c) => state.1.push(c),
                    None => state.1,
                },
            ),
            None => (
                match state.0 {
                    Some(c) => Some(continue_record(c, line)),
                    None => None,
                },
                state.1,
            ),
        }
    }
}

/// The state after reading `lines` in order from the start.
pub open spec fn read_lines(lines: Seq<Seq<char>>) -> (Option<LogRecord>, Seq<LogRecord>)
    decreases lines.len(),
{
    if lines.len() == 0 {
        (None, Seq::empty())
    } else {
        read_line(read_lines(lines.drop_last()), lines.last())
    }
}

/// The records that `lines` hold, in file order.
pub open spec fn records_in(lines: Seq<Seq<char>>) -> Seq<LogRecord> {
    let state = read_lines(lines);
    match state.0 {
        Some(c) => state.1.push(c),
        None => state.1,
    }
}

/// Whether reading one of `lines` panics.
pub open spec fn some_line_panics(lines: Seq<Seq<char>>) -> bool {
    exists|i: int| 0 <= i < lines.len() && #[trigger] line_panics(lines[i])
}

/// The views of a vector of log items.
pub open spec fn records_of(items: Seq<LogItem>) -> Seq<LogRecord> {
    items.map_values(|x: LogItem| x@)
}

/// The views of a vector of strings.
pub open spec fn texts_of(lines: Seq<String>) -> Seq<Seq<char>> {
    lines.map_values(|x: String| x@)
}

/// `item` continued by `line` (see [`continue_record`]).
fn continue_item(item: LogItem, line: &str) -> (r: LogItem)
    ensures
        r@ == continue_record(item@, line@),
{
    let v = chars_of(line);
    let e: usize = drop_white_space_back(&v, 0, v.len());
    assert(v@.subrange(0, v@.len() as int) =~= line@);
    let l = string_of_range(&v, 0, e);
    let LogItem { timestamp, level, log_type, message, details, raw } = item;
    let mut raw = raw;
    push_char(&mut raw, '\n');
    push_str(&mut raw, l.as_str());
    assert(raw@ =~= item@.raw + seq!['\n'] + l@);
    if is_blank(message.as_str()) {
        LogItem { timestamp, level, log_type, message: l, details, raw }
    } else {
        let mut details = details;
        push_char(&mut details, '\n');
        push_str(&mut details, l.as_str());
        assert(details@ =~= item@.details + seq!['\n'] + l@);
        LogItem { timestamp, level, log_type, message, details, raw }
    }
}

/// Reads the records of `lines`, which hold a log in file order, and returns
/// them newest first.
pub fn records_from_lines(lines: &Vec<String>) -> (r: Vec<LogItem>)
    requires
        !some_line_panics(texts_of(lines@)),
    ensures
        records_of(r@) == records_in(texts_of(lines@)).reverse(),
{
    let ghost ls = texts_of(lines@);
    let mut current: Option<LogItem> = None;
    let mut done: Vec<LogItem> = Vec::new();
    let mut i: usize = 0;
    while i < lines.len()
        invariant
            0 <= i <= lines.len(),
            ls == texts_of(lines@),
            !some_line_panics(ls),
            read_lines(ls.take(i as int)) == (
                match current {
                    Some(c) => Some(c@),
                    None => None::<LogRecord>,
                },
                records_of(done@),
            ),
        decreases lines.len() - i,
    {
        let line = &lines[i];
        proof {
            assert(ls.take(i + 1).drop_last() =~= ls.take(i as int));
            assert(ls.take(i + 1).last() == line@);
            assert(!line_panics(ls[i as int]));
        }
        if !line.as_str().is_empty() {
            match parse_line_to_log(line.as_str()) {
                Some(item) => {
                    match current {
                        Some(c) => {
                            let ghost before = done@;
                            done.push(c);
                            assert(records_of(done@) =~= records_of(before).push(c@));
                        },
                        None => {},
                    }
                    current = Some(item);
                },
                None => {
                    current = match current {
                        Some(c) => Some(continue_item(c, line.as_str())),
                        None => None,
                    };
                },
            }
        }
        i = i + 1;
    }
    proof {
        assert(ls.take(lines.len() as int) =~= ls);
    }
    match current {
        Some(c) => {
            let ghost before = done@;
            done.push(c);
            assert(records_of(done@) =~= records_of(before).push(c@));
        },
        None => {},
    }
    let ghost all = records_of(done@);
    let mut out: Vec<LogItem> = Vec::new();
    while done.len() > 0
        invariant
            all.len() == done.len() + out.len(),
            records_of(done@) == all.take(done.len() as int),
            records_of(out@) == all.reverse().take(out.len() as int),
        decreases done.len(),
    {
        let ghost before_done = done@;
        let ghost before_out = out@;
        let item = done.pop().unwrap();
        out.push(item);
        proof {
            assert(before_done =~= done@.push(item));
            assert(records_of(before_done) =~= records_of(done@).push(item@));
            assert(records_of(done@) =~= all.take(done.len() as int));
            assert(records_of(out@) =~= records_of(before_out).push(item@));
            assert(records_of(before_done)[done.len() as int] == item@);
            assert(all.take(before_done.len() as int)[done.len() as int] == all[done.len() as int]);
            assert(all[done.len() as int] == item@);
            assert(all.reverse()[before_out.len() as int] == all[done.len() as int]);
            assert(all.reverse().take(out.len() as int) =~= all.reverse().take(before_out.len() as int).push(all[done.len() as int]));
        }
    }
    assert(all.reverse().take(out.len() as int) =~= all.reverse());
    out
}


/// The lines of `b`, split at line feeds and decoded like `String::from_utf8_lossy`.
pub open spec fn decoded_lines(b: Seq<u8>) -> Seq<Seq<char>> {
    decode_pieces(split_lines(b))
}

/// The pieces `ps`, each decoded (see [`decode_piece`]).
pub open spec fn decode_pieces(ps: Seq<Seq<u8>>) -> Seq<Seq<char>> {
    ps.map_values(|p: Seq<u8>| decode_piece(p))
}

/// Whether some line of `lines` would panic when read.
pub fn some_line_would_panic(lines: &Vec<String>) -> (b: bool)
    ensures
        b == some_line_panics(texts_of(lines@)),
{
    let mut i: usize = 0;
    while i < lines.len()
        invariant
            0 <= i <= lines.len(),
            forall|j: int| 0 <= j < i ==> !line_panics(#[trigger] texts_of(lines@)[j]),
        decreases lines.len() - i,
    {
        if line_would_panic(lines[i].as_str()) {
            assert(line_panics(texts_of(lines@)[i as int]));
            return true;
        }
        i = i + 1;
    }
    false
}

/// Reads the records held in `buffer`, a piece of a log in file order, and
/// returns them newest first; `None` where reading a line would panic.
pub fn parse_lines(buffer: &[u8]) -> (r: Option<Vec<LogItem>>)
    ensures
        match r {
            Some(items) => !some_line_panics(decoded_lines(buffer@)) && records_of(items@)
                == records_in(decoded_lines(buffer@)).reverse(),
            None => some_line_panics(decoded_lines(buffer@)),
        },
{
    let lines = decode_lines(buffer);
    assert(texts_of(lines@) =~= decoded_lines(buffer@));
    if some_line_would_panic(&lines) {
        None
    } else {
        Some(records_from_lines(&lines))
    }
}

/// The largest number of records read from the end of a file at once.
pub const MAX_TAIL_LOGS: usize = 5000;

/// The size of the pieces in which a file is read from its end.
pub const TAIL_CHUNK: u64 = 8192;

/// `logs` after reading `line`, when reading a file backwards: a line that
/// starts a record adds it; any other non-empty line continues the record
/// added last, if there is one.
pub open spec fn tail_line(logs: Seq<LogRecord>, line: Seq<char>) -> Seq<LogRecord> {
    if line.len() == 0 {
        logs
    } else {
        match parse_log_line(line) {
            Some(r) => logs.push(r),
            None => if logs.len() > 0 {
                logs.update(logs.len() - 1, continue_record(logs.last(), line))
            } else {
                logs
            },
        }
    }
}

/// Whether reading `line` adds a record.
pub open spec fn adds_record(line: Seq<char>) -> bool {
    line.len() > 0 && parse_log_line(line) is Some
}

/// `logs` after reading `lines` in order, stopping once `MAX_TAIL_LOGS`
/// records are held.
pub open spec fn tail_lines(logs: Seq<LogRecord>, lines: Seq<Seq<char>>) -> Seq<LogRecord>
    decreases lines.len(),
{
    if lines.len() == 0 || logs.len() >= MAX_TAIL_LOGS {
        logs
    } else {
        tail_lines(tail_line(logs, lines[0]), lines.drop_first())
    }
}

/// Whether [`tail_lines`], starting with `count` records, reads a line that panics.
pub open spec fn tail_panics(count: nat, lines: Seq<Seq<char>>) -> bool
    decreases lines.len(),
{
    lines.len() > 0 && count < MAX_TAIL_LOGS && (line_panics(lines[0]) || tail_panics(
        if adds_record(lines[0]) {
            count + 1
        } else {
            count
        },
        lines.drop_first(),
    ))
}

/// The lines of a piece of a file that are read when the piece is read
/// backwards: all lines but the first, which may be incomplete, last first.
pub open spec fn tail_chunk_lines(buf: Seq<u8>) -> Seq<Seq<char>> {
    decoded_lines(buf).drop_first().reverse()
}

/// Reading a file backwards from its end, in pieces of `TAIL_CHUNK` bytes,
/// until its start or until `MAX_TAIL_LOGS` records are read.
pub struct TailReader {
    pos: u64,
    file_len: u64,
    leftover: Vec<u8>,
    logs: Vec<LogItem>,
}

impl TailReader {
    /// The position before which the file remains to be read.
    pub closed spec fn spec_pos(&self) -> u64 {
        self.pos
    }

    /// The length of the file.
    pub closed spec fn spec_file_len(&self) -> u64 {
        self.file_len
    }

    /// The possibly incomplete first line of the part read so far.
    pub closed spec fn spec_leftover(&self) -> Seq<u8> {
        self.leftover@
    }

    /// The records read so far, newest first.
    pub closed spec fn spec_logs(&self) -> Seq<LogRecord> {
        records_of(self.logs@)
    }

    /// Starts reading a file of `file_len` bytes from its end.
    pub fn new(file_len: u64) -> (r: TailReader)
        ensures
            r.spec_pos() == file_len,
            r.spec_file_len() == file_len,
            r.spec_leftover() == Seq::<u8>::empty(),
            r.spec_logs() == Seq::<LogRecord>::empty(),
    {
        let r = TailReader { pos: file_len, file_len, leftover: Vec::new(), logs: Vec::new() };
        assert(records_of(r.logs@) =~= Seq::<LogRecord>::empty());
        r
    }

    /// The next piece to read, as its offset and length: the `TAIL_CHUNK`
    /// bytes (or fewer, at the start of the file) before the part already
    /// read; `None` once the start is reached or enough records are read.
    pub fn next_read(&self) -> (r: Option<(u64, usize)>)
        ensures
            match r {
                Some((offset, size)) => self.spec_pos() > 0 && self.spec_logs().len()
                    < MAX_TAIL_LOGS && size == (if self.spec_pos() < TAIL_CHUNK {
                    self.spec_pos()
                } else {
                    TAIL_CHUNK
                }) && offset == self.spec_pos() - size,
                None => self.spec_pos() == 0 || self.spec_logs().len() >= MAX_TAIL_LOGS,
            },
    {
        if self.pos > 0 && self.logs.len() < MAX_TAIL_LOGS {
            let size: u64 = if self.pos < TAIL_CHUNK {
                self.pos
            } else {
                TAIL_CHUNK
            };
            Some((self.pos - size, size as usize))
        } else {
            None
        }
    }

    /// Reads the piece that `next_read` asked for: it is put before the
    /// leftover, the first line of the result becomes the new leftover, and
    /// the other lines are read last first. Returns `false`, and changes
    /// nothing, where reading a line would panic.
    pub fn feed(&mut self, chunk: &[u8]) -> (ok: bool)
        requires
            old(self).spec_pos() > 0,
            old(self).spec_logs().len() < MAX_TAIL_LOGS,
            chunk@.len() == (if old(self).spec_pos() < TAIL_CHUNK {
                old(self).spec_pos()
            } else {
                TAIL_CHUNK
            }),
        ensures
            ok == !tail_panics(
                old(self).spec_logs().len(),
                tail_chunk_lines(chunk@ + old(self).spec_leftover()),
            ),
            ok ==> {
                &&& final(self).spec_pos() == old(self).spec_pos() - chunk@.len()
                &&& final(self).spec_file_len() == old(self).spec_file_len()
                &&& final(self).spec_leftover() == split_lines(
                    chunk@ + old(self).spec_leftover(),
                )[0]
                &&& final(self).spec_logs() == tail_lines(
                    old(self).spec_logs(),
                    tail_chunk_lines(chunk@ + old(self).spec_leftover()),
                )
            },
            !ok ==> *final(self) == *old(self),
    {
        let mut buf: Vec<u8> = Vec::new();
        let mut i: usize = 0;
        while i < chunk.len()
            invariant
                0 <= i <= chunk@.len(),
                buf@ == chunk@.take(i as int),
            decreases chunk@.len() - i,
        {
            buf.push(chunk[i]);
            assert(chunk@.take(i + 1) =~= chunk@.take(i as int).push(chunk@[i as int]));
            i = i + 1;
        }
        let mut j: usize = 0;
        while j < self.leftover.len()
            invariant
                0 <= j <= self.leftover@.len(),
                buf@ == chunk@ + self.leftover@.take(j as int),
            decreases self.leftover@.len() - j,
        {
            buf.push(self.leftover[j]);
            assert(self.leftover@.take(j + 1) =~= self.leftover@.take(j as int).push(
                self.leftover@[j as int],
            ));
            j = j + 1;
        }
        assert(chunk@.take(chunk@.len() as int) =~= chunk@);
        assert(self.leftover@.take(self.leftover@.len() as int) =~= self.leftover@);
        assert(buf@ =~= chunk@ + self.leftover@);
        let n: usize = buf.len();
        let mut k: usize = 0;
        while k < n && buf[k] != 10u8
            invariant
                0 <= k <= n == buf@.len(),
                forall|m: int| 0 <= m < k ==> buf@[m] != 10u8,
            decreases n - k,
        {
            k = k + 1;
        }
        proof {
            lemma_byte_index(buf@, 10u8, k as int);
        }
        let mut lines: Vec<String> = Vec::new();
        if k < n {
            let rest = decode_lines(&buf[k + 1..n]);
            proof {
                assert(buf@.subrange(k + 1, n as int) =~= buf@.skip(k + 1));
                assert(decoded_lines(buf@).drop_first() =~= texts_of(rest@));
            }
            let mut rest = rest;
            let ghost all = rest@;
            while rest.len() > 0
                invariant
                    all.len() == rest.len() + lines.len(),
                    rest@ == all.take(rest.len() as int),
                    texts_of(lines@) == texts_of(all).reverse().take(lines.len() as int),
                decreases rest.len(),
            {
                let ghost before_rest = rest@;
                let ghost before_lines = lines@;
                let line = rest.pop().unwrap();
                lines.push(line);
                proof {
                    assert(before_rest =~= rest@.push(line));
                    assert(rest@ =~= all.take(rest.len() as int));
                    assert(before_rest[rest.len() as int] == line);
                    assert(texts_of(all).reverse()[before_lines.len() as int] == all[rest.len() as int]@);
                    assert(texts_of(lines@) =~= texts_of(before_lines).push(line@));
                    assert(texts_of(all).reverse().take(lines.len() as int) =~= texts_of(all).reverse().take(before_lines.len() as int).push(line@));
                }
            }
            assert(texts_of(all).reverse().take(lines.len() as int) =~= texts_of(all).reverse());
        } else {
            proof {
                assert(decoded_lines(buf@).drop_first() =~= Seq::<Seq<char>>::empty());
                assert(texts_of(lines@) =~= Seq::<Seq<char>>::empty().reverse());
            }
        }
        proof {
            assert(texts_of(lines@) == tail_chunk_lines(buf@));
            assert(split_lines(buf@)[0] =~= buf@.take(k as int));
        }
        if Self::would_panic(self.logs.len(), &lines) {
            return false;
        }
        self.read_lines_backwards(&lines);
        let ghost whole = buf@;
        buf.truncate(k);
        assert(buf@ =~= whole.take(k as int));
        self.pos = self.pos - chunk.len() as u64;
        self.leftover = buf;
        true
    }

    /// Decides [`tail_panics`].
    fn would_panic(count: usize, lines: &Vec<String>) -> (b: bool)
        requires
            count <= MAX_TAIL_LOGS,
        ensures
            b == tail_panics(count as nat, texts_of(lines@)),
    {
        let ghost ls = texts_of(lines@);
        let mut c: usize = count;
        let mut i: usize = 0;
        assert(ls.skip(0) =~= ls);
        while i < lines.len() && c < MAX_TAIL_LOGS
            invariant
                0 <= i <= lines.len(),
                c <= MAX_TAIL_LOGS,
                ls == texts_of(lines@),
                tail_panics(count as nat, ls) == tail_panics(c as nat, ls.skip(i as int)),
            decreases lines.len() - i,
        {
            let line = &lines[i];
            proof {
                assert(ls.skip(i as int)[0] == line@);
                assert(ls.skip(i as int).drop_first() =~= ls.skip(i + 1));
            }
            if line_would_panic(line.as_str()) {
                return true;
            }
            if !line.as_str().is_empty() {
                if parse_line_to_log(line.as_str()).is_some() {
                    c = c + 1;
                }
            }
            i = i + 1;
        }
        false
    }

    /// Reads `lines` in order into the records, stopping once
    /// `MAX_TAIL_LOGS` records are held.
    fn read_lines_backwards(&mut self, lines: &Vec<String>)
        requires
            old(self).logs.len() <= MAX_TAIL_LOGS,
            !tail_panics(old(self).logs@.len(), texts_of(lines@)),
        ensures
            final(self).spec_logs() == tail_lines(old(self).spec_logs(), texts_of(lines@)),
            final(self).pos == old(self).pos,
            final(self).file_len == old(self).file_len,
            final(self).leftover == old(self).leftover,
    {
        let ghost ls = texts_of(lines@);
        let ghost start = records_of(self.logs@);
        let mut i: usize = 0;
        assert(ls.skip(0) =~= ls);
        while i < lines.len() && self.logs.len() < MAX_TAIL_LOGS
            invariant
                0 <= i <= lines.len(),
                ls == texts_of(lines@),
                self.logs.len() <= MAX_TAIL_LOGS,
                tail_lines(start, ls) == tail_lines(records_of(self.logs@), ls.skip(i as int)),
                !tail_panics(self.logs@.len(), ls.skip(i as int)),
                self.pos == old(self).pos,
                self.file_len == old(self).file_len,
                self.leftover == old(self).leftover,
            decreases lines.len() - i,
        {
            let line = &lines[i];
            let ghost before = records_of(self.logs@);
            proof {
                assert(ls.skip(i as int)[0] == line@);
                assert(ls.skip(i as int).drop_first() =~= ls.skip(i + 1));
            }
            if !line.as_str().is_empty() {
                match parse_line_to_log(line.as_str()) {
                    Some(item) => {
                        self.logs.push(item);
                        assert(records_of(self.logs@) =~= before.push(item@));
                    },
                    None => {
                        if self.logs.len() > 0 {
                            let last = self.logs.pop().unwrap();
                            let ghost popped = records_of(self.logs@);
                            self.logs.push(continue_item(last, line.as_str()));
                            assert(records_of(self.logs@) =~= before.update(
                                before.len() - 1,
                                continue_record(before.last(), line@),
                            ));
                        }
                    },
                }
            }
            i = i + 1;
        }
        proof {
            if i < lines.len() {
                assert(tail_lines(records_of(self.logs@), ls.skip(i as int)) == records_of(self.logs@));
            } else {
                assert(ls.skip(i as int) =~= Seq::<Seq<char>>::empty());
            }
        }
    }

    /// Ends the reading: the length of the file, which is where later reads
    /// continue, and the records read, oldest first.
    pub fn finish(self) -> (r: (u64, Vec<LogItem>))
        ensures
            r.0 == self.spec_file_len(),
            records_of(r.1@) == self.spec_logs().reverse(),
    {
        let mut logs = self.logs;
        let ghost all = records_of(logs@);
        let mut out: Vec<LogItem> = Vec::new();
        while logs.len() > 0
            invariant
                all.len() == logs.len() + out.len(),
                records_of(logs@) == all.take(logs.len() as int),
                records_of(out@) == all.reverse().take(out.len() as int),
            decreases logs.len(),
        {
            let ghost before_logs = logs@;
            let ghost before_out = out@;
            let item = logs.pop().unwrap();
            out.push(item);
            proof {
                assert(before_logs =~= logs@.push(item));
                assert(records_of(before_logs) =~= records_of(logs@).push(item@));
                assert(records_of(logs@) =~= all.take(logs.len() as int));
                assert(records_of(out@) =~= records_of(before_out).push(item@));
                assert(records_of(before_logs)[logs.len() as int] == item@);
                assert(all.take(before_logs.len() as int)[logs.len() as int] == all[logs.len() as int]);
                assert(all.reverse()[before_out.len() as int] == all[logs.len() as int]);
                assert(all.reverse().take(out.len() as int) =~= all.reverse().take(before_out.len() as int).push(all[logs.len() as int]));
            }
        }
        assert(all.reverse().take(out.len() as int) =~= all.reverse());
        (self.file_len, out)
    }
}

/// How far into its file a log has been read.
pub struct LogParser {
    pub offset: u64,
}

impl LogParser {
    /// A file not read yet.
    pub fn new() -> (r: LogParser)
        ensures
            r.offset == 0,
    {
        LogParser { offset: 0 }
    }

    /// Whether the next read continues from the offset (the file was read
    /// before) rather than reading the file's last records from its end.
    pub fn reads_incrementally(&self) -> (b: bool)
        ensures
            b == (self.offset > 0),
    {
        self.offset > 0
    }

    /// Records that `n` more bytes were read after the offset.
    pub fn advance(&mut self, n: usize)
        requires
            old(self).offset + n <= u64::MAX,
        ensures
            final(self).offset == old(self).offset + n,
    {
        self.offset = self.offset + n as u64;
    }

    /// Ends a reading from the end of the file: later reads continue at its
    /// end. Returns the records read, oldest first.
    pub fn finish_tail(&mut self, reader: TailReader) -> (r: Vec<LogItem>)
        ensures
            final(self).offset == reader.spec_file_len(),
            records_of(r@) == reader.spec_logs().reverse(),
    {
        let (len, logs) = reader.finish();
        self.offset = len;
        logs
    }
}


/// Text without `<` is left as it is by tag stripping, and stripping never
/// lengthens a text.
pub proof fn law_strip_tags(text: Seq<char>)
    ensures
        (forall|i: int| 0 <= i < text.len() ==> text[i] != '<') ==> strip_tags(text) == text,
        strip_tags(text).len() <= text.len(),
    decreases text.len(),
{
    if text.len() > 0 {
        if text[0] != '<' {
            law_strip_tags(text.drop_first());
            if forall|i: int| 0 <= i < text.len() ==> text[i] != '<' {
                assert forall|i: int| 0 <= i < text.drop_first().len() implies text.drop_first()[i] != '<' by {
                    assert(text.drop_first()[i] == text[i + 1]);
                }
                assert(seq![text[0]] + text.drop_first() =~= text);
            }
        } else {
            assert(text[0] == '<');
            let k = tag_body_len(text.drop_first()) as int;
            lemma_tag_body_len_bound(text.drop_first());
            if k + 1 < text.len() && text[k + 1] == '>' {
                law_strip_tags(text.skip(k + 2));
            } else {
                law_strip_tags(text.skip(k + 1));
            }
        }
    }
}

/// Whether `line` starts a record.
pub open spec fn starts_record(line: Seq<char>) -> bool {
    line.len() > 0 && parse_log_line(line) is Some
}

/// The number of lines of `lines` that start a record.
pub open spec fn record_starts(lines: Seq<Seq<char>>) -> nat
    decreases lines.len(),
{
    if lines.len() == 0 {
        0
    } else {
        record_starts(lines.drop_last()) + if starts_record(lines.last()) {
            1nat
        } else {
            0nat
        }
    }
}

/// Reading a log gives one record for each line that starts a record.
pub proof fn law_one_record_per_start(lines: Seq<Seq<char>>)
    ensures
        records_in(lines).len() == record_starts(lines),
{
    lemma_read_lines_count(lines);
}

proof fn lemma_read_lines_count(lines: Seq<Seq<char>>)
    ensures
        read_lines(lines).1.len() + (if read_lines(lines).0 is Some {
            1nat
        } else {
            0nat
        }) == record_starts(lines),
        record_starts(lines) > 0 ==> read_lines(lines).0 is Some,
    decreases lines.len(),
{
    if lines.len() > 0 {
        lemma_read_lines_count(lines.drop_last());
    }
}

/// Reading a file backwards never holds more than `MAX_TAIL_LOGS` records.
pub proof fn law_tail_bounded(logs: Seq<LogRecord>, lines: Seq<Seq<char>>)
    requires
        logs.len() <= MAX_TAIL_LOGS,
    ensures
        tail_lines(logs, lines).len() <= MAX_TAIL_LOGS,
        tail_lines(logs, lines).len() >= logs.len(),
    decreases lines.len(),
{
    if lines.len() > 0 && logs.len() < MAX_TAIL_LOGS {
        law_tail_bounded(tail_line(logs, lines[0]), lines.drop_first());
    }
}

proof fn lemma_decode_pieces_concat(a: Seq<Seq<u8>>, b: Seq<Seq<u8>>)
    ensures
        decode_pieces(a + b) == decode_pieces(a) + decode_pieces(b),
{
    assert(decode_pieces(a + b) =~= decode_pieces(a) + decode_pieces(b));
}

/// The empty line starts no record and cannot panic.
proof fn lemma_empty_line()
    ensures
        !line_panics(Seq::<char>::empty()),
        !starts_record(Seq::<char>::empty()),
{
    assert(encode_utf8(Seq::<char>::empty()) =~= Seq::<u8>::empty());
}

/// Reading a line after records `pre` that are already complete.
proof fn lemma_read_line_after(
    state: (Option<LogRecord>, Seq<LogRecord>),
    pre: Seq<LogRecord>,
    line: Seq<char>,
)
    ensures
        read_line((state.0, pre + state.1), line) == (
            read_line(state, line).0,
            pre + read_line(state, line).1,
        ),
{
    match state.0 {
        Some(c) => {
            assert((pre + state.1).push(c) =~= pre + state.1.push(c));
        },
        None => {},
    }
}

/// Reading `p` and then lines `l` whose first line starts a record.
proof fn lemma_read_lines_concat(p: Seq<Seq<char>>, l: Seq<Seq<char>>)
    requires
        l.len() >= 1,
        starts_record(l[0]),
    ensures
        read_lines(p + l) == (read_lines(l).0, records_in(p) + read_lines(l).1),
    decreases l.len(),
{
    if l.len() == 1 {
        assert((p + l).drop_last() =~= p);
        assert((p + l).last() == l[0]);
        assert(l.drop_last() =~= Seq::<Seq<char>>::empty());
        assert(read_lines(l.drop_last()) == (None::<LogRecord>, Seq::<LogRecord>::empty()));
        assert(read_lines(l) == read_line(read_lines(l.drop_last()), l.last()));
        assert(read_lines(p + l) == read_line(read_lines(p), l[0]));
        let r = parse_log_line(l[0]).unwrap();
        assert(read_lines(l) == (Some(r), Seq::<LogRecord>::empty()));
        assert(records_in(p) + Seq::<LogRecord>::empty() =~= records_in(p));
    } else {
        lemma_read_lines_concat(p, l.drop_last());
        assert((p + l).drop_last() =~= p + l.drop_last());
        assert((p + l).last() == l.last());
        assert(l.drop_last()[0] == l[0]);
        assert(read_lines(l) == read_line(read_lines(l.drop_last()), l.last()));
        assert(read_lines(p + l) == read_line(read_lines(p + l.drop_last()), l.last()));
        lemma_read_line_after(read_lines(l.drop_last()), records_in(p), l.last());
    }
}

/// The records of `p` followed by lines `l` whose first line starts a record.
proof fn lemma_records_concat(p: Seq<Seq<char>>, l: Seq<Seq<char>>)
    requires
        l.len() >= 1,
        starts_record(l[0]),
    ensures
        records_in(p + l) == records_in(p) + records_in(l),
{
    lemma_read_lines_concat(p, l);
    match read_lines(l).0 {
        Some(c) => {
            assert((records_in(p) + read_lines(l).1).push(c) =~= records_in(p) + read_lines(
                l,
            ).1.push(c));
        },
        None => {},
    }
}

/// A final empty line adds nothing.
proof fn lemma_records_empty_line(p: Seq<Seq<char>>)
    ensures
        records_in(p.push(Seq::<char>::empty())) == records_in(p),
{
    assert(p.push(Seq::<char>::empty()).drop_last() =~= p);
}

/// Some line of `a + b` panics exactly when one of `a` or of `b` does.
proof fn lemma_panics_concat(a: Seq<Seq<char>>, b: Seq<Seq<char>>)
    ensures
        some_line_panics(a + b) == (some_line_panics(a) || some_line_panics(b)),
{
    if some_line_panics(a + b) {
        let i = choose|i: int| 0 <= i < (a + b).len() && #[trigger] line_panics((a + b)[i]);
        if i < a.len() {
            assert((a + b)[i] == a[i]);
            assert(line_panics(a[i]));
        } else {
            assert((a + b)[i] == b[i - a.len()]);
            assert(line_panics(b[i - a.len()]));
        }
    }
    if some_line_panics(a) {
        let i = choose|i: int| 0 <= i < a.len() && #[trigger] line_panics(a[i]);
        assert((a + b)[i] == a[i]);
        assert(line_panics((a + b)[i]));
    }
    if some_line_panics(b) {
        let i = choose|i: int| 0 <= i < b.len() && #[trigger] line_panics(b[i]);
        assert((a + b)[i + a.len()] == b[i]);
        assert(line_panics((a + b)[i + a.len()]));
    }
}

/// Reading a log in two parts split before a line that starts a record gives
/// the records of both parts: where `a` is empty or ends with a line feed and
/// the first line of `b` starts a record, reading `a + b` gives the records
/// of `b`, newest first, followed by those of `a` (what [`parse_lines`]
/// returns for each part), and reading `a + b` panics exactly where reading
/// `a` or `b` would.
pub proof fn law_parse_lines_concat(a: Seq<u8>, b: Seq<u8>)
    requires
        a.len() == 0 || a.last() == 10u8,
        starts_record(decoded_lines(b)[0]),
    ensures
        some_line_panics(decoded_lines(a + b)) == (some_line_panics(decoded_lines(a))
            || some_line_panics(decoded_lines(b))),
        records_in(decoded_lines(a + b)).reverse() == records_in(decoded_lines(b)).reverse()
            + records_in(decoded_lines(a)).reverse(),
{
    let e = Seq::<u8>::empty();
    let ec = Seq::<char>::empty();
    lemma_split_lines_single(e);
    lemma_split_lines_not_empty(b);
    lemma_empty_line();
    let l = decoded_lines(b);
    let p = if a.len() == 0 {
        Seq::<Seq<char>>::empty()
    } else {
        decode_pieces(split_lines(a.drop_last()))
    };
    if a.len() == 0 {
        assert(a + b =~= b);
        assert(decoded_lines(a) =~= seq![ec]);
        assert(p + l =~= l);
    } else {
        let x = a.drop_last();
        assert(a =~= x + seq![10u8] + e);
        assert(a + b =~= x + seq![10u8] + b);
        lemma_split_lines_concat(x, e);
        lemma_split_lines_concat(x, b);
        lemma_decode_pieces_concat(split_lines(x), split_lines(e));
        lemma_decode_pieces_concat(split_lines(x), split_lines(b));
        assert(decode_pieces(split_lines(e)) =~= seq![ec]);
    }
    assert(decoded_lines(a) =~= p.push(ec));
    assert(decoded_lines(a + b) =~= p + l);
    assert(p.push(ec) =~= p + seq![ec]);
    lemma_panics_concat(p, l);
    lemma_panics_concat(p, seq![ec]);
    assert(!some_line_panics(seq![ec])) by {
        if some_line_panics(seq![ec]) {
            let i = choose|i: int| 0 <= i < 1 && #[trigger] line_panics(seq![ec][i]);
            assert(seq![ec][i] == ec);
        }
    }
    lemma_records_concat(p, l);
    lemma_records_empty_line(p);
    assert((records_in(p) + records_in(l)).reverse() =~= records_in(l).reverse() + records_in(
        p,
    ).reverse());
}

/// Reading `x` and then `y`, backwards, is reading `x + y`.
proof fn lemma_tail_lines_concat(logs: Seq<LogRecord>, x: Seq<Seq<char>>, y: Seq<Seq<char>>)
    ensures
        tail_lines(tail_lines(logs, x), y) == tail_lines(logs, x + y),
    decreases x.len(),
{
    if x.len() == 0 {
        assert(x + y =~= y);
    } else if logs.len() >= MAX_TAIL_LOGS {
    } else {
        lemma_tail_lines_concat(tail_line(logs, x[0]), x.drop_first(), y);
        assert((x + y).drop_first() =~= x.drop_first() + y);
        assert((x + y)[0] == x[0]);
    }
}

/// The lines of file `f` that reading it backwards reads: all lines but the
/// first, last first.
pub open spec fn file_tail_lines(f: Seq<u8>) -> Seq<Seq<char>> {
    decoded_lines(f).drop_first().reverse()
}

/// The pieces of `f` after the line feed that follows `f[..pos]` and
/// `leftover`: the complete lines a backward reading has passed.
pub open spec fn lines_passed(f: Seq<u8>, pos: nat, leftover: Seq<u8>) -> Seq<Seq<u8>> {
    if pos + leftover.len() >= f.len() {
        Seq::empty()
    } else {
        split_lines(f.skip(pos + leftover.len() + 1int))
    }
}

/// Whether `pos`, `leftover` and `logs` are a state of reading file `f`
/// backwards: `leftover` is the text of `f` right after `pos`, up to a line
/// feed or the end of the file, and `logs` holds the records of the lines
/// after it, read last first.
pub open spec fn tail_state_of(f: Seq<u8>, pos: nat, leftover: Seq<u8>, logs: Seq<LogRecord>) -> bool {
    &&& pos + leftover.len() <= f.len()
    &&& f.subrange(pos as int, pos + leftover.len() as int) == leftover
    &&& forall|i: int| 0 <= i < leftover.len() ==> leftover[i] != 10u8
    &&& pos + leftover.len() < f.len() ==> f[pos + leftover.len() as int] == 10u8
    &&& logs == tail_lines(Seq::empty(), decode_pieces(lines_passed(f, pos, leftover)).reverse())
}

/// The size of the piece read before `pos`.
pub open spec fn tail_piece_size(pos: nat) -> nat {
    if pos < TAIL_CHUNK {
        pos
    } else {
        TAIL_CHUNK as nat
    }
}

/// What reading file `f` backwards gives from a state: while `pos > 0` and
/// fewer than `MAX_TAIL_LOGS` records are held, the piece before `pos`
/// (what [`TailReader::next_read`] asks for) is read as
/// [`TailReader::feed`] reads it.
pub open spec fn tail_run(f: Seq<u8>, pos: nat, leftover: Seq<u8>, logs: Seq<LogRecord>) -> Seq<
    LogRecord,
>
    decreases pos,
{
    if pos == 0 || logs.len() >= MAX_TAIL_LOGS || pos > f.len() {
        logs
    } else {
        let size = tail_piece_size(pos);
        let buf = f.subrange(pos - size, pos as int) + leftover;
        tail_run(
            f,
            (pos - size) as nat,
            split_lines(buf)[0],
            tail_lines(logs, tail_chunk_lines(buf)),
        )
    }
}

/// A reader that starts at the end of `f` ([`TailReader::new`]) is in a
/// state of reading `f`.
pub proof fn law_tail_start(f: Seq<u8>)
    ensures
        tail_state_of(f, f.len(), Seq::empty(), Seq::empty()),
{
    assert(f.subrange(f.len() as int, f.len() as int) =~= Seq::<u8>::empty());
    assert(decode_pieces(Seq::<Seq<u8>>::empty()).reverse() =~= Seq::<Seq<char>>::empty());
}

/// Reading the piece that [`TailReader::next_read`] asks for, as
/// [`TailReader::feed`] reads it, keeps a reader in a state of reading `f`.
pub proof fn law_tail_step(f: Seq<u8>, pos: nat, leftover: Seq<u8>, logs: Seq<LogRecord>)
    requires
        tail_state_of(f, pos, leftover, logs),
        pos > 0,
    ensures
        ({
            let size = tail_piece_size(pos);
            let buf = f.subrange(pos - size, pos as int) + leftover;
            tail_state_of(
                f,
                (pos - size) as nat,
                split_lines(buf)[0],
                tail_lines(logs, tail_chunk_lines(buf)),
            )
        }),
{
    let size = tail_piece_size(pos);
    let p2 = pos - size;
    let e: int = pos + leftover.len() as int;
    let buf = f.subrange(p2, pos as int) + leftover;
    assert(buf =~= f.subrange(p2, e));
    let c = lines_passed(f, pos, leftover);
    lemma_byte_index_first(buf, 10u8);
    let k = byte_index(buf, 10u8) as int;
    if k == buf.len() {
        assert(split_lines(buf) == seq![buf]);
        assert(tail_chunk_lines(buf) =~= Seq::<Seq<char>>::empty());
        assert(f.subrange(p2, p2 + buf.len()) =~= buf);
    } else {
        let rest = split_lines(buf.skip(k + 1));
        let lo = buf.take(k);
        assert(split_lines(buf) == seq![lo] + rest);
        assert(split_lines(buf)[0] == lo);
        assert(f.subrange(p2, p2 + k) =~= lo);
        assert(f[p2 + k] == buf[k]);
        assert forall|i: int| 0 <= i < lo.len() implies lo[i] != 10u8 by {
            assert(lo[i] == buf[i]);
        }
        let c2 = lines_passed(f, (pos - size) as nat, lo);
        if e == f.len() {
            assert(f.skip(p2 + k + 1) =~= buf.skip(k + 1));
            assert(c2 =~= rest + c);
        } else {
            assert(f.skip(p2 + k + 1) =~= buf.skip(k + 1) + seq![10u8] + f.skip(e + 1));
            lemma_split_lines_concat(buf.skip(k + 1), f.skip(e + 1));
            assert(c2 == rest + c);
        }
        lemma_decode_pieces_concat(rest, c);
        lemma_decode_pieces_concat(seq![lo], rest);
        assert(tail_chunk_lines(buf) =~= decode_pieces(rest).reverse());
        assert(decode_pieces(rest + c).reverse() =~= decode_pieces(c).reverse() + decode_pieces(
            rest,
        ).reverse());
        lemma_tail_lines_concat(
            Seq::empty(),
            decode_pieces(c).reverse(),
            decode_pieces(rest).reverse(),
        );
    }
}

/// Once [`TailReader::next_read`] asks for no more (the start of the file is
/// reached, or `MAX_TAIL_LOGS` records are held), a reader in a state of
/// reading `f` holds the records of [`file_tail_lines`]`(f)`, read with
/// [`tail_lines`]: the last at most `MAX_TAIL_LOGS` records of the file,
/// each with the lines that follow it.
pub proof fn law_tail_end(f: Seq<u8>, pos: nat, leftover: Seq<u8>, logs: Seq<LogRecord>)
    requires
        tail_state_of(f, pos, leftover, logs),
        pos == 0 || logs.len() >= MAX_TAIL_LOGS,
    ensures
        logs == tail_lines(Seq::empty(), file_tail_lines(f)),
{
    let e: int = pos + leftover.len() as int;
    let c = lines_passed(f, pos, leftover);
    let pre = f.take(e as int);
    if e == f.len() {
        assert(decode_pieces(c).reverse() =~= Seq::<Seq<char>>::empty());
        if pos == 0 {
            assert(leftover =~= f);
            lemma_split_lines_single(f);
            assert(file_tail_lines(f) =~= Seq::<Seq<char>>::empty());
        } else {
            assert(logs.len() == 0);
        }
    } else {
        assert(f =~= pre + seq![10u8] + f.skip(e + 1));
        lemma_split_lines_concat(pre, f.skip(e + 1));
        lemma_split_lines_not_empty(pre);
        let first = split_lines(pre).drop_first();
        assert(split_lines(f).drop_first() =~= first + c);
        lemma_decode_pieces_concat(first, c);
        assert(decoded_lines(f).drop_first() =~= decode_pieces(split_lines(f).drop_first()));
        assert(file_tail_lines(f) =~= decode_pieces(c).reverse() + decode_pieces(first).reverse());
        lemma_tail_lines_concat(Seq::empty(), decode_pieces(c).reverse(), decode_pieces(first).reverse());
        if pos == 0 {
            assert(pre =~= leftover);
            lemma_split_lines_single(pre);
            assert(decode_pieces(first).reverse() =~= Seq::<Seq<char>>::empty());
            assert(decode_pieces(c).reverse() + Seq::<Seq<char>>::empty() =~= decode_pieces(c).reverse());
        }
    }
}

proof fn lemma_tail_run(f: Seq<u8>, pos: nat, leftover: Seq<u8>, logs: Seq<LogRecord>)
    requires
        tail_state_of(f, pos, leftover, logs),
    ensures
        tail_run(f, pos, leftover, logs) == tail_lines(Seq::empty(), file_tail_lines(f)),
    decreases pos,
{
    if pos == 0 || logs.len() >= MAX_TAIL_LOGS {
        law_tail_end(f, pos, leftover, logs);
    } else {
        law_tail_step(f, pos, leftover, logs);
        let size = tail_piece_size(pos);
        let buf = f.subrange(pos - size, pos as int) + leftover;
        lemma_tail_run(
            f,
            (pos - size) as nat,
            split_lines(buf)[0],
            tail_lines(logs, tail_chunk_lines(buf)),
        );
    }
}

/// Reading a whole file backwards from its end gives the records of its
/// lines but the first, last first, with each continuation line attached to
/// the record that precedes it in the file, stopping once `MAX_TAIL_LOGS`
/// records are held.
pub proof fn law_tail_whole_file(f: Seq<u8>)
    ensures
        tail_run(f, f.len(), Seq::empty(), Seq::empty()) == tail_lines(
            Seq::empty(),
            file_tail_lines(f),
        ),
{
    law_tail_start(f);
    lemma_tail_run(f, f.len(), Seq::empty(), Seq::empty());
}

} // verus!
