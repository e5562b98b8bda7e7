//! Choosing which VRChat log files to follow: the files named
//! `output_log_YYYY-MM-DD_HH-MM-SS.txt` from the last two days, newest first.

use vstd::prelude::*;
use crate::vrc::parser::texts_of;
use crate::text::{byte_boundary, byte_len, byte_len_of_range, char_pos, chars_of, chars_spanning_bytes, string_of_range};

verus! {

/// What `chrono::NaiveDateTime::parse_from_str(text, "%Y-%m-%d_%H-%M-%S")`
/// gives, as the seconds since 1970-01-01 00:00:00 of that naive date and
/// time, and the nanoseconds past that second.
pub uninterp spec fn naive_time_of(text: Seq<char>) -> Option<(i64, u32)>;

/// `chrono::NaiveDateTime::parse_from_str` with the format of log file
/// names; the result is given by `and_utc().timestamp()` and
/// `and_utc().timestamp_subsec_nanos()`.
#[verifier::external_body]
fn parse_file_time(text: &str) -> (r: Option<(i64, u32)>)
    ensures
        r == naive_time_of(text@),
{
    match chrono::NaiveDateTime::parse_from_str(text, "%Y-%m-%d_%H-%M-%S") {
        Ok(t) => Some((t.and_utc().timestamp(), t.and_utc().timestamp_subsec_nanos())),
        Err(_) => None,
    }
}

/// Whether `name` has the prefix and suffix of a log file name.
pub open spec fn has_log_affixes(name: Seq<char>) -> bool {
    &&& name.len() >= 11
    &&& name.take(11) == "output_log_"@
    &&& name.len() >= 4
    &&& name.skip(name.len() - 4) == ".txt"@
}

/// Whether `name` is long enough to hold the time: 34 bytes.
pub open spec fn long_enough(name: Seq<char>) -> bool {
    byte_len(name) >= 34
}

/// The names on which reading the time panics: byte 30, where the time
/// ends, is not a character boundary.
pub open spec fn log_file_panics(name: Seq<char>) -> bool {
    has_log_affixes(name) && long_enough(name) && !byte_boundary(name, 30)
}

/// The time in a log file name: the 19 bytes after the prefix, read as
/// `%Y-%m-%d_%H-%M-%S`; `None` for other names.
pub open spec fn log_file_time(name: Seq<char>) -> Option<(i64, u32)> {
    if has_log_affixes(name) && long_enough(name) {
        naive_time_of(name.subrange(11, char_pos(name, 30)))
    } else {
        None
    }
}

/// Whether time `a` is before time `b`.
pub open spec fn time_lt(a: (i64, u32), b: (i64, u32)) -> bool {
    a.0 < b.0 || (a.0 == b.0 && a.1 < b.1)
}

/// Two days, in seconds.
pub const RETENTION_SECS: i64 = 172800;

/// The oldest time of a file that is followed, two days before `now`.
pub open spec fn cutoff(now: (i64, u32)) -> (i64, u32) {
    ((now.0 - RETENTION_SECS) as i64, now.1)
}

/// Whether the file named `name` is followed at time `now`: it is a log file
/// whose time is not before the cutoff.
pub open spec fn followed(name: Seq<char>, now: (i64, u32)) -> bool {
    match log_file_time(name) {
        Some(t) => !time_lt(t, cutoff(now)),
        None => false,
    }
}

/// Whether file `i` comes before file `j`: newer first, and in the order
/// given for equal times.
pub open spec fn file_before(names: Seq<Seq<char>>, i: int, j: int) -> bool {
    let ti = log_file_time(names[i])->Some_0;
    let tj = log_file_time(names[j])->Some_0;
    time_lt(tj, ti) || (ti == tj && i < j)
}

/// Decides [`has_log_affixes`].
fn log_affixes(v: &Vec<char>) -> (b: bool)
    ensures
        b == has_log_affixes(v@),
{
    let prefix = chars_of("output_log_");
    let suffix = chars_of(".txt");
    proof {
        reveal_strlit("output_log_");
        reveal_strlit(".txt");
    }
    if v.len() < prefix.len() || v.len() < suffix.len() {
        return false;
    }
    let mut i: usize = 0;
    while i < prefix.len()
        invariant
            i <= prefix.len() <= v.len(),
            prefix@ == "output_log_"@,
            forall|k: int| 0 <= k < i ==> v@[k] == prefix@[k],
        decreases prefix.len() - i,
    {
        if v[i] != prefix[i] {
            assert(v@.take(prefix.len() as int)[i as int] != prefix@[i as int]);
            return false;
        }
        i = i + 1;
    }
    assert(v@.take(prefix.len() as int) =~= prefix@);
    let off: usize = v.len() - suffix.len();
    let mut j: usize = 0;
    while j < suffix.len()
        invariant
            j <= suffix.len(),
            off + suffix.len() == v.len(),
            suffix@ == ".txt"@,
            forall|k: int| 0 <= k < j ==> v@[off + k] == suffix@[k],
        decreases suffix.len() - j,
    {
        if v[off + j] != suffix[j] {
            assert(v@.skip(off as int)[j as int] != suffix@[j as int]);
            return false;
        }
        j = j + 1;
    }
    assert(v@.skip(off as int) =~= suffix@);
    true
}

/// Whether `name` starts with `output_log_` and ends with `.txt`.
pub fn is_log_file_name(name: &str) -> (b: bool)
    ensures
        b == has_log_affixes(name@),
{
    let v = chars_of(name);
    log_affixes(&v)
}

/// Decides [`log_file_panics`].
pub fn log_file_would_panic(name: &str) -> (b: bool)
    ensures
        b == log_file_panics(name@),
{
    let v = chars_of(name);
    assert(v@.subrange(0, v@.len() as int) =~= v@);
    if !log_affixes(&v) || byte_len_of_range(&v, 0, v.len()) < 34 {
        return false;
    }
    chars_spanning_bytes(&v, 0, v.len(), 30).is_none()
}

/// The time in the log file name `name`, if it is one.
pub fn file_time(name: &str) -> (r: Option<(i64, u32)>)
    requires
        !log_file_panics(name@),
    ensures
        r == log_file_time(name@),
{
    let v = chars_of(name);
    assert(v@.subrange(0, v@.len() as int) =~= v@);
    if !log_affixes(&v) || byte_len_of_range(&v, 0, v.len()) < 34 {
        return None;
    }
    let q: usize = match chars_spanning_bytes(&v, 0, v.len(), 30) {
        Some(q) => q,
        None => {
            proof {
                assert(false);
            }
            return None;
        },
    };
    proof {
        reveal_strlit("output_log_");
        lemma_ascii_prefix_len(v@);
        assert(v@.subrange(0, v@.len() as int).take(q as int) =~= v@.take(q as int));
        if q < 11 {
            crate::text::lemma_byte_len_mono(v@, q as int, 11);
        }
    }
    let text = string_of_range(&v, 11, q);
    parse_file_time(text.as_str())
}

/// The encoding of the prefix `output_log_` is its 11 characters.
proof fn lemma_ascii_prefix_len(v: Seq<char>)
    requires
        v.len() >= 11,
        v.take(11) == "output_log_"@,
    ensures
        byte_len(v.take(11)) == 11,
{
    reveal_strlit("output_log_");
    crate::text::lemma_byte_len_bounds(v.take(11));
    assert forall|i: int| 0 <= i < 11 implies crate::text::char_width(#[trigger] v.take(11)[i]) == 1 by {}
    lemma_widths_one(v.take(11));
}

/// A text of one-byte characters is as long in bytes as in characters.
proof fn lemma_widths_one(s: Seq<char>)
    requires
        forall|i: int| 0 <= i < s.len() ==> crate::text::char_width(#[trigger] s[i]) == 1,
    ensures
        byte_len(s) == s.len(),
    decreases s.len(),
{
    if s.len() > 0 {
        lemma_widths_one(s.drop_last());
        assert(s =~= s.drop_last().push(s.last()));
        crate::text::lemma_byte_len_push(s.drop_last(), s.last());
    } else {
        assert(vstd::utf8::encode_utf8(s) =~= Seq::<u8>::empty());
    }
}


/// Whether a file whose name holds time `t` is followed at time `now`.
pub open spec fn kept(t: Option<(i64, u32)>, now: (i64, u32)) -> bool {
    match t {
        Some(x) => !time_lt(x, cutoff(now)),
        None => false,
    }
}

/// Whether file `i` comes before file `j`, given their times: newer first,
/// and in the order given for equal times.
pub open spec fn time_before(times: Seq<Option<(i64, u32)>>, i: int, j: int) -> bool {
    let ti = times[i]->Some_0;
    let tj = times[j]->Some_0;
    time_lt(tj, ti) || (ti == tj && i < j)
}

/// The files to follow at time `now`, given the times in their names, as
/// positions in `times`: those of the last two days, newest first, in the
/// given order for equal times.
pub fn order_files(times: &Vec<Option<(i64, u32)>>, now_secs: i64, now_nanos: u32) -> (r: Vec<usize>)
    requires
        now_secs >= i64::MIN + RETENTION_SECS,
    ensures
        forall|k: int|
            0 <= k < r@.len() ==> r@[k] < times@.len() && kept(times@[r@[k] as int], (now_secs, now_nanos)),
        forall|i: int|
            0 <= i < times@.len() && kept(#[trigger] times@[i], (now_secs, now_nanos)) ==> r@.contains(i as usize),
        forall|a: int, b: int|
            0 <= a < b < r@.len() ==> time_before(times@, r@[a] as int, r@[b] as int),
{
    let ghost now = (now_secs, now_nanos);
    let ghost ts = times@;
    let cut_secs: i64 = now_secs - RETENTION_SECS;
    let mut r: Vec<usize> = Vec::new();
    let mut rt: Vec<(i64, u32)> = Vec::new();
    let mut i: usize = 0;
    while i < times.len()
        invariant
            i <= ts.len(),
            ts == times@,
            cut_secs == now_secs - RETENTION_SECS,
            now == (now_secs, now_nanos),
            rt@.len() == r@.len(),
            forall|k: int| 0 <= k < r@.len() ==> #[trigger] r@[k] < i,
            forall|k: int| 0 <= k < r@.len() ==> kept(#[trigger] ts[r@[k] as int], now) && ts[r@[k] as int] == Some(rt@[k]),
            forall|m: int| 0 <= m < i && kept(#[trigger] ts[m], now) ==> r@.contains(m as usize),
            forall|a: int, b: int| 0 <= a < b < r@.len() ==> time_before(ts, r@[a] as int, r@[b] as int),
        decreases ts.len() - i,
    {
        match times[i] {
            Some(t) => {
                if !(t.0 < cut_secs || (t.0 == cut_secs && t.1 < now_nanos)) {
                    let mut p: usize = 0;
                    while p < r.len() && !(rt[p].0 < t.0 || (rt[p].0 == t.0 && rt[p].1 < t.1))
                        invariant
                            p <= r@.len(),
                            rt@.len() == r@.len(),
                            forall|k: int| 0 <= k < p ==> !time_lt(#[trigger] rt@[k], t),
                        decreases r@.len() - p,
                    {
                        p = p + 1;
                    }
                    let ghost old_r = r@;
                    let ghost old_rt = rt@;
                    r.insert(p, i);
                    rt.insert(p, t);
                    proof {
                        assert(r@ =~= old_r.take(p as int).push(i) + old_r.skip(p as int));
                        assert(rt@ =~= old_rt.take(p as int).push(t) + old_rt.skip(p as int));
                        assert forall|k: int| 0 <= k < r@.len() implies #[trigger] r@[k] < i + 1 by {
                            if k < p {
                                assert(r@[k] == old_r[k]);
                            } else if k > p {
                                assert(r@[k] == old_r[k - 1]);
                            }
                        }
                        assert forall|k: int| 0 <= k < r@.len() implies kept(#[trigger] ts[r@[k] as int], now)
                            && ts[r@[k] as int] == Some(rt@[k]) by {
                            if k < p {
                                assert(r@[k] == old_r[k] && rt@[k] == old_rt[k]);
                            } else if k > p {
                                assert(r@[k] == old_r[k - 1] && rt@[k] == old_rt[k - 1]);
                            }
                        }
                        assert forall|m: int| 0 <= m < i + 1 && kept(#[trigger] ts[m], now) implies r@.contains(m as usize) by {
                            if m < i {
                                let k = choose|k: int| 0 <= k < old_r.len() && old_r[k] == m as usize;
                                if k < p {
                                    assert(r@[k] == m as usize);
                                } else {
                                    assert(r@[k + 1] == m as usize);
                                }
                            } else {
                                assert(r@[p as int] == i);
                            }
                        }
                        assert forall|k: int| p <= k < old_r.len() implies time_lt(#[trigger] old_rt[k], t) by {
                            if k > p {
                                assert(time_before(ts, old_r[p as int] as int, old_r[k] as int));
                            }
                        }
                        assert forall|a: int, b: int| 0 <= a < b < r@.len() implies time_before(ts, r@[a] as int, r@[b] as int) by {
                            if b < p {
                                assert(r@[a] == old_r[a] && r@[b] == old_r[b]);
                            } else if b == p {
                                assert(r@[a] == old_r[a] && r@[b] == i);
                                assert(rt@[a] == old_rt[a]);
                            } else if a < p {
                                assert(r@[a] == old_r[a] && r@[b] == old_r[b - 1]);
                            } else if a == p {
                                assert(r@[a] == i && r@[b] == old_r[b - 1]);
                                assert(rt@[b] == old_rt[b - 1]);
                                assert(old_r[b - 1] < i);
                            } else {
                                assert(r@[a] == old_r[a - 1] && r@[b] == old_r[b - 1]);
                            }
                        }
                    }
                }
            },
            None => {},
        }
        i = i + 1;
    }
    r
}

/// The times in the log file names `names`.
pub open spec fn name_times(names: Seq<Seq<char>>) -> Seq<Option<(i64, u32)>> {
    names.map_values(|n: Seq<char>| log_file_time(n))
}

/// The files to follow at time `now` (seconds and nanoseconds of the local
/// date and time), as positions in `names`: those of the last two days,
/// newest first, in the given order for equal times.
pub fn select_log_files(names: &Vec<String>, now_secs: i64, now_nanos: u32) -> (r: Vec<usize>)
    requires
        forall|i: int| 0 <= i < names@.len() ==> !log_file_panics(#[trigger] names@[i]@),
        now_secs >= i64::MIN + RETENTION_SECS,
    ensures
        forall|k: int|
            0 <= k < r@.len() ==> r@[k] < names@.len() && followed(
                names@[r@[k] as int]@,
                (now_secs, now_nanos),
            ),
        forall|i: int|
            0 <= i < names@.len() && followed(#[trigger] names@[i]@, (now_secs, now_nanos))
                ==> r@.contains(i as usize),
        forall|a: int, b: int|
            0 <= a < b < r@.len() ==> file_before(texts_of(names@), r@[a] as int, r@[b] as int),
{
    let ghost ns = texts_of(names@);
    let mut times: Vec<Option<(i64, u32)>> = Vec::new();
    let mut i: usize = 0;
    while i < names.len()
        invariant
            i <= names@.len(),
            forall|m: int| 0 <= m < names@.len() ==> !log_file_panics(#[trigger] names@[m]@),
            times@.len() == i,
            forall|k: int| 0 <= k < i ==> #[trigger] times@[k] == log_file_time(names@[k]@),
        decreases names@.len() - i,
    {
        times.push(file_time(names[i].as_str()));
        i = i + 1;
    }
    let r = order_files(&times, now_secs, now_nanos);
    proof {
        assert forall|k: int| 0 <= k < names@.len() implies #[trigger] ns[k] == names@[k]@ by {}
        assert forall|a: int, b: int| 0 <= a < b < r@.len() implies file_before(ns, r@[a] as int, r@[b] as int) by {
            assert(time_before(times@, r@[a] as int, r@[b] as int));
            assert(ns[r@[a] as int] == names@[r@[a] as int]@);
            assert(ns[r@[b] as int] == names@[r@[b] as int]@);
        }
        assert forall|i: int| 0 <= i < names@.len() && followed(#[trigger] names@[i]@, (now_secs, now_nanos)) implies r@.contains(i as usize) by {
            assert(kept(times@[i], (now_secs, now_nanos)));
        }
    }
    r
}

} // verus!
