use std::rc::Rc;
use vstd::prelude::*;
use crate::text::{chars_of, push_char, push_range};
use crate::vrc::parser::{LogItem, LogRecord};

verus! {

/// `s` cut to its first `max_chars` characters, followed by `...`, when it
/// is longer than that; `s` itself otherwise.
pub open spec fn truncated(s: Seq<char>, max_chars: nat) -> Seq<char> {
    if s.len() > max_chars {
        s.take(max_chars as int) + seq!['.', '.', '.']
    } else {
        s
    }
}

/// Shortens text that is longer than `max_chars` characters to its first
/// `max_chars` characters followed by `...`.
pub fn truncate_text(s: &str, max_chars: usize) -> (r: String)
    ensures
        r@ == truncated(s@, max_chars as nat),
{
    let v = chars_of(s);
    let mut r = String::new();
    if v.len() > max_chars {
        push_range(&mut r, &v, 0, max_chars);
        push_char(&mut r, '.');
        push_char(&mut r, '.');
        push_char(&mut r, '.');
        assert(r@ =~= s@.take(max_chars as int) + seq!['.', '.', '.']);
    } else {
        push_range(&mut r, &v, 0, v.len());
        assert(r@ =~= s@);
    }
    r
}

/// A truncated text never exceeds the limit by more than the three dots, and
/// text within the limit is left as it is.
pub proof fn law_truncate_bounded(s: Seq<char>, max_chars: nat)
    ensures
        truncated(s, max_chars).len() <= max_chars + 3,
        s.len() <= max_chars ==> truncated(s, max_chars) == s,
        truncated(s, max_chars).take(if s.len() <= max_chars {
            s.len() as int
        } else {
            max_chars as int
        }) == s.take(if s.len() <= max_chars {
            s.len() as int
        } else {
            max_chars as int
        }),
{
    if s.len() > max_chars {
        assert(truncated(s, max_chars).take(max_chars as int) =~= s.take(max_chars as int));
    } else {
        assert(s.take(s.len() as int) =~= s);
    }
}

/// Lexicographic order on texts, by code point (the order of Rust's `str`
/// comparison, since UTF-8 encoding keeps code point order).
pub open spec fn text_lt(a: Seq<char>, b: Seq<char>) -> bool
    decreases a.len(),
{
    if a.len() == 0 {
        b.len() > 0
    } else if b.len() == 0 {
        false
    } else if (a[0] as u32) < (b[0] as u32) {
        true
    } else if (a[0] as u32) > (b[0] as u32) {
        false
    } else {
        text_lt(a.drop_first(), b.drop_first())
    }
}

pub proof fn lemma_text_lt_irreflexive(a: Seq<char>)
    ensures
        !text_lt(a, a),
    decreases a.len(),
{
    if a.len() > 0 {
        lemma_text_lt_irreflexive(a.drop_first());
    }
}

pub proof fn lemma_text_lt_transitive(a: Seq<char>, b: Seq<char>, c: Seq<char>)
    requires
        text_lt(a, b),
        text_lt(b, c),
    ensures
        text_lt(a, c),
    decreases a.len(),
{
    if a.len() > 0 && b.len() > 0 && c.len() > 0 && (a[0] as u32) == (b[0] as u32) && (b[0]
        as u32) == (c[0] as u32) {
        lemma_text_lt_transitive(a.drop_first(), b.drop_first(), c.drop_first());
    }
}

pub proof fn lemma_text_lt_total(a: Seq<char>, b: Seq<char>)
    ensures
        a == b || text_lt(a, b) || text_lt(b, a),
    decreases a.len(),
{
    if a.len() == 0 {
        if b.len() == 0 {
            assert(a =~= b);
        }
    } else if b.len() > 0 && (a[0] as u32) == (b[0] as u32) {
        lemma_text_lt_total(a.drop_first(), b.drop_first());
        if a.drop_first() == b.drop_first() {
            vstd::utf8::char_u32_cast(a[0], a[0] as u32);
            vstd::utf8::char_u32_cast(b[0], b[0] as u32);
            assert(a[0] == b[0]);
            assert(a =~= seq![a[0]] + a.drop_first());
            assert(b =~= seq![b[0]] + b.drop_first());
        }
    }
}

pub proof fn lemma_text_lt_asymmetric(a: Seq<char>, b: Seq<char>)
    requires
        text_lt(a, b),
    ensures
        !text_lt(b, a),
{
    if text_lt(b, a) {
        lemma_text_lt_transitive(a, b, a);
        lemma_text_lt_irreflexive(a);
    }
}

/// Compares two texts: `-1`, `0` or `1` as `a` comes before, equals or
/// comes after `b`.
pub fn compare_text(a: &str, b: &str) -> (r: i8)
    ensures
        (r == -1) == text_lt(a@, b@),
        (r == 0) == (a@ == b@),
        (r == 1) == text_lt(b@, a@),
        r == -1 || r == 0 || r == 1,
{
    let x = chars_of(a);
    let y = chars_of(b);
    let mut i: usize = 0;
    assert(x@.skip(0) =~= x@);
    assert(y@.skip(0) =~= y@);
    while i < x.len() && i < y.len() && x[i] == y[i]
        invariant
            i <= x.len(),
            i <= y.len(),
            x@ == a@,
            y@ == b@,
            x@.take(i as int) == y@.take(i as int),
            text_lt(a@, b@) == text_lt(x@.skip(i as int), y@.skip(i as int)),
            text_lt(b@, a@) == text_lt(y@.skip(i as int), x@.skip(i as int)),
        decreases x.len() - i,
    {
        assert(x@.skip(i as int).drop_first() =~= x@.skip(i + 1));
        assert(y@.skip(i as int).drop_first() =~= y@.skip(i + 1));
        assert(x@.take(i + 1) =~= x@.take(i as int).push(x@[i as int]));
        assert(y@.take(i + 1) =~= y@.take(i as int).push(y@[i as int]));
        i = i + 1;
    }
    if i == x.len() && i == y.len() {
        assert(x@ =~= x@.take(i as int));
        assert(y@ =~= y@.take(i as int));
        assert(x@.skip(i as int) =~= Seq::<char>::empty());
        assert(y@.skip(i as int) =~= Seq::<char>::empty());
        assert(!text_lt(x@.skip(i as int), y@.skip(i as int)));
        assert(!text_lt(y@.skip(i as int), x@.skip(i as int)));
        0
    } else if i == x.len() {
        assert(x@.skip(i as int) =~= Seq::<char>::empty());
        assert(x@.take(i as int) =~= x@);
        assert(x@.len() != y@.len());
        assert(text_lt(x@.skip(i as int), y@.skip(i as int)));
        assert(!text_lt(y@.skip(i as int), x@.skip(i as int)));
        -1
    } else if i == y.len() {
        assert(y@.skip(i as int) =~= Seq::<char>::empty());
        assert(y@.take(i as int) =~= y@);
        assert(x@.len() != y@.len());
        assert(text_lt(y@.skip(i as int), x@.skip(i as int)));
        assert(!text_lt(x@.skip(i as int), y@.skip(i as int)));
        1
    } else {
        assert(x@[i as int] != y@[i as int]);
        assert(x@.skip(i as int)[0] == x@[i as int]);
        assert(y@.skip(i as int)[0] == y@[i as int]);
        proof {
            vstd::utf8::char_u32_cast(x@[i as int], x@[i as int] as u32);
            vstd::utf8::char_u32_cast(y@[i as int], y@[i as int] as u32);
        }
        assert(x@ != y@ ) by {
            if x@ == y@ {
                assert(x@[i as int] == y@[i as int]);
            }
        }
        if (x[i] as u32) < (y[i] as u32) {
            assert(text_lt(x@.skip(i as int), y@.skip(i as int)));
            assert(!text_lt(y@.skip(i as int), x@.skip(i as int)));
            -1
        } else {
            assert(text_lt(y@.skip(i as int), x@.skip(i as int)));
            assert(!text_lt(x@.skip(i as int), y@.skip(i as int)));
            1
        }
    }
}

/// A record held in the cache of records, under a number unique to it.
#[derive(Debug)]
pub struct LogEntry {
    pub id: usize,
    pub item: Rc<LogItem>,
}

/// `Rc::clone`: another pointer to the same value.
#[verifier::external_body]
fn share<T>(r: &Rc<T>) -> (c: Rc<T>)
    ensures
        c == *r,
{
    Rc::clone(r)
}

impl Clone for LogEntry {
    fn clone(&self) -> (r: Self)
        ensures
            r == *self,
    {
        LogEntry { id: self.id, item: share(&self.item) }
    }
}

/// Two entries are the same entry when they carry the same number.
impl PartialEq for LogEntry {
    fn eq(&self, other: &Self) -> (r: bool) {
        self.id == other.id
    }
}

impl vstd::std_specs::cmp::PartialEqSpecImpl for LogEntry {
    open spec fn obeys_eq_spec() -> bool {
        true
    }

    open spec fn eq_spec(&self, other: &LogEntry) -> bool {
        self.id == other.id
    }
}

impl Eq for LogEntry {}

/// Whether the entry with timestamp `ta` and number `ia` comes before the one
/// with `tb` and `ib`: newer timestamps first, and for equal timestamps the
/// entry added later first.
pub open spec fn order_before(ta: Seq<char>, ia: usize, tb: Seq<char>, ib: usize) -> bool {
    text_lt(tb, ta) || (ta == tb && ia > ib)
}

/// Whether entry `a` comes before entry `b` in the cache.
pub open spec fn precedes(a: LogEntry, b: LogEntry) -> bool {
    order_before(a.item@.timestamp, a.id, b.item@.timestamp, b.id)
}

/// The order of entries is a strict total order on entries that differ in
/// timestamp or number.
pub proof fn law_order_strict_total(
    ta: Seq<char>,
    ia: usize,
    tb: Seq<char>,
    ib: usize,
    tc: Seq<char>,
    ic: usize,
)
    ensures
        !order_before(ta, ia, ta, ia),
        order_before(ta, ia, tb, ib) ==> !order_before(tb, ib, ta, ia),
        order_before(ta, ia, tb, ib) && order_before(tb, ib, tc, ic) ==> order_before(
            ta,
            ia,
            tc,
            ic,
        ),
        (ta == tb && ia == ib) || order_before(ta, ia, tb, ib) || order_before(tb, ib, ta, ia),
{
    lemma_text_lt_irreflexive(ta);
    lemma_text_lt_total(ta, tb);
    if text_lt(tb, ta) {
        lemma_text_lt_asymmetric(tb, ta);
    }
    if order_before(ta, ia, tb, ib) && order_before(tb, ib, tc, ic) {
        if text_lt(tb, ta) && text_lt(tc, tb) {
            lemma_text_lt_transitive(tc, tb, ta);
        }
    }
}

impl LogEntry {
    /// Whether `self` comes before `other` in the cache.
    pub fn comes_before(&self, other: &LogEntry) -> (b: bool)
        ensures
            b == precedes(*self, *other),
    {
        let c = compare_text(other.item.timestamp.as_str(), self.item.timestamp.as_str());
        c < 0 || (c == 0 && self.id > other.id)
    }

    /// Compares by position in the cache (the order in which the cache
    /// holds its entries): `Less` when `self` comes first.
    pub fn cmp(&self, other: &LogEntry) -> (r: core::cmp::Ordering)
        ensures
            (r == core::cmp::Ordering::Less) == precedes(*self, *other),
            (r == core::cmp::Ordering::Greater) == precedes(*other, *self),
            (r == core::cmp::Ordering::Equal) == (self.item@.timestamp == other.item@.timestamp
                && self.id == other.id),
    {
        let c = compare_text(other.item.timestamp.as_str(), self.item.timestamp.as_str());
        proof {
            law_order_strict_total(
                self.item@.timestamp,
                self.id,
                other.item@.timestamp,
                other.id,
                self.item@.timestamp,
                self.id,
            );
        }
        if c < 0 {
            core::cmp::Ordering::Less
        } else if c > 0 {
            core::cmp::Ordering::Greater
        } else if other.id < self.id {
            core::cmp::Ordering::Less
        } else if other.id > self.id {
            core::cmp::Ordering::Greater
        } else {
            core::cmp::Ordering::Equal
        }
    }
}

/// Where entry `a` stands against entry `b` in the cache.
pub open spec fn entry_order(a: LogEntry, b: LogEntry) -> core::cmp::Ordering {
    if precedes(a, b) {
        core::cmp::Ordering::Less
    } else if precedes(b, a) {
        core::cmp::Ordering::Greater
    } else {
        core::cmp::Ordering::Equal
    }
}

/// Entries are ordered by their position in the cache.
impl PartialOrd for LogEntry {
    fn partial_cmp(&self, other: &Self) -> (r: Option<core::cmp::Ordering>) {
        Some(self.cmp(other))
    }
}

impl vstd::std_specs::cmp::PartialOrdSpecImpl for LogEntry {
    open spec fn obeys_partial_cmp_spec() -> bool {
        true
    }

    open spec fn partial_cmp_spec(&self, other: &LogEntry) -> Option<core::cmp::Ordering> {
        Some(entry_order(*self, *other))
    }
}

/// Two records are equal when their timestamps, levels and messages are.
impl PartialEq for LogItem {
    fn eq(&self, other: &Self) -> (r: bool) {
        self.timestamp == other.timestamp && self.level == other.level && self.message
            == other.message
    }
}

impl vstd::std_specs::cmp::PartialEqSpecImpl for LogItem {
    open spec fn obeys_eq_spec() -> bool {
        true
    }

    open spec fn eq_spec(&self, other: &LogItem) -> bool {
        &&& self.timestamp@ == other.timestamp@
        &&& self.level@ == other.level@
        &&& self.message@ == other.message@
    }
}

impl Eq for LogItem {}

/// Where record `a` stands against record `b`: newer timestamps first.
pub open spec fn item_order(a: LogRecord, b: LogRecord) -> core::cmp::Ordering {
    if text_lt(b.timestamp, a.timestamp) {
        core::cmp::Ordering::Less
    } else if text_lt(a.timestamp, b.timestamp) {
        core::cmp::Ordering::Greater
    } else {
        core::cmp::Ordering::Equal
    }
}

impl LogItem {
    /// Compares by timestamp, newest first: `Less` when `self` is newer.
    pub fn cmp(&self, other: &LogItem) -> (r: core::cmp::Ordering)
        ensures
            r == item_order(self@, other@),
            (r == core::cmp::Ordering::Equal) == (self.timestamp@ == other.timestamp@),
    {
        let c = compare_text(other.timestamp.as_str(), self.timestamp.as_str());
        if c < 0 {
            core::cmp::Ordering::Less
        } else if c > 0 {
            core::cmp::Ordering::Greater
        } else {
            core::cmp::Ordering::Equal
        }
    }
}

/// Records are ordered by timestamp, newest first.
impl PartialOrd for LogItem {
    fn partial_cmp(&self, other: &Self) -> (r: Option<core::cmp::Ordering>) {
        Some(self.cmp(other))
    }
}

impl vstd::std_specs::cmp::PartialOrdSpecImpl for LogItem {
    open spec fn obeys_partial_cmp_spec() -> bool {
        true
    }

    open spec fn partial_cmp_spec(&self, other: &LogItem) -> Option<core::cmp::Ordering> {
        Some(item_order(self@, other@))
    }
}

} // verus!
