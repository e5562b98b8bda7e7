//! Character-level text operations shared by the parsers: Unicode white
//! space and trimming, searching, decimal numbers, and building `String`s.

use vstd::prelude::*;
use vstd::utf8::{encode_scalar, encode_utf8};

verus! {

broadcast use vstd::string::group_string_axioms;

/// Rust's `char::is_whitespace`: the Unicode `White_Space` property.
pub open spec fn is_white_space(c: char) -> bool {
    ||| ('\u{9}' <= c && c <= '\u{d}')
    ||| c == ' '
    ||| c == '\u{85}'
    ||| c == '\u{a0}'
    ||| c == '\u{1680}'
    ||| ('\u{2000}' <= c && c <= '\u{200a}')
    ||| c == '\u{2028}'
    ||| c == '\u{2029}'
    ||| c == '\u{202f}'
    ||| c == '\u{205f}'
    ||| c == '\u{3000}'
}

/// Decides [`is_white_space`].
pub fn is_whitespace(c: char) -> (b: bool)
    ensures
        b == is_white_space(c),
{
    ('\u{9}' <= c && c <= '\u{d}') || c == ' ' || c == '\u{85}' || c == '\u{a0}' || c
        == '\u{1680}' || ('\u{2000}' <= c && c <= '\u{200a}') || c == '\u{2028}' || c
        == '\u{2029}' || c == '\u{202f}' || c == '\u{205f}' || c == '\u{3000}'
}

/// The characters of a string slice, in order.
pub fn chars_of(s: &str) -> (v: Vec<char>)
    ensures
        v@ == s@,
{
    let mut v: Vec<char> = Vec::new();
    for c in it: s.chars()
        invariant
            v@ == it.seq().take(it.index()),
    {
        v.push(c);
    }
    v
}


/// Removes the leading white space (Rust's `str::trim_start`).
pub open spec fn trim_start(s: Seq<char>) -> Seq<char>
    decreases s.len(),
{
    if s.len() > 0 && is_white_space(s[0]) {
        trim_start(s.drop_first())
    } else {
        s
    }
}

/// Removes the trailing white space (Rust's `str::trim_end`).
pub open spec fn trim_end(s: Seq<char>) -> Seq<char>
    decreases s.len(),
{
    if s.len() > 0 && is_white_space(s.last()) {
        trim_end(s.drop_last())
    } else {
        s
    }
}

/// Removes white space at both ends (Rust's `str::trim`).
pub open spec fn trim(s: Seq<char>) -> Seq<char> {
    trim_end(trim_start(s))
}

/// The first position at or after `lo` and before `hi` that is not white
/// space, or `hi`: `v[k..hi]` is `v[lo..hi]` with its leading white space removed.
pub fn skip_white_space(v: &Vec<char>, lo: usize, hi: usize) -> (k: usize)
    requires
        lo <= hi <= v.len(),
    ensures
        lo <= k <= hi,
        v@.subrange(k as int, hi as int) == trim_start(v@.subrange(lo as int, hi as int)),
{
    let mut i: usize = lo;
    while i < hi && is_whitespace(v[i])
        invariant
            lo <= i <= hi <= v.len(),
            trim_start(v@.subrange(lo as int, hi as int)) == trim_start(
                v@.subrange(i as int, hi as int),
            ),
        decreases hi - i,
    {
        assert(v@.subrange(i as int, hi as int).drop_first() =~= v@.subrange(
            i + 1,
            hi as int,
        ));
        i = i + 1;
    }
    i
}

/// The end of `v[lo..hi]` once its trailing white space is removed:
/// `v[lo..k]` is `v[lo..hi]` with its trailing white space removed.
pub fn drop_white_space_back(v: &Vec<char>, lo: usize, hi: usize) -> (k: usize)
    requires
        lo <= hi <= v.len(),
    ensures
        lo <= k <= hi,
        v@.subrange(lo as int, k as int) == trim_end(v@.subrange(lo as int, hi as int)),
{
    let mut j: usize = hi;
    while j > lo && is_whitespace(v[j - 1])
        invariant
            lo <= j <= hi <= v.len(),
            trim_end(v@.subrange(lo as int, hi as int)) == trim_end(
                v@.subrange(lo as int, j as int),
            ),
        decreases j - lo,
    {
        assert(v@.subrange(lo as int, j as int).drop_last() =~= v@.subrange(
            lo as int,
            j - 1,
        ));
        j = j - 1;
    }
    j
}

/// `String::push`: appends one character at the end.
#[verifier::external_body]
pub(crate) fn push_char(s: &mut String, c: char)
    ensures
        final(s)@ == old(s)@.push(c),
{
    s.push(c);
}

/// Appends `v[lo..hi]` to `s`.
pub fn push_range(s: &mut String, v: &Vec<char>, lo: usize, hi: usize)
    requires
        lo <= hi <= v.len(),
    ensures
        final(s)@ == old(s)@ + v@.subrange(lo as int, hi as int),
{
    let ghost start = s@;
    let mut i: usize = lo;
    while i < hi
        invariant
            lo <= i <= hi <= v.len(),
            s@ == start + v@.subrange(lo as int, i as int),
        decreases hi - i,
    {
        push_char(s, v[i]);
        assert(v@.subrange(lo as int, i + 1) =~= v@.subrange(lo as int, i as int).push(v@[i as int]));
        i = i + 1;
    }
}

/// A new `String` holding `v[lo..hi]`.
pub fn string_of_range(v: &Vec<char>, lo: usize, hi: usize) -> (s: String)
    requires
        lo <= hi <= v.len(),
    ensures
        s@ == v@.subrange(lo as int, hi as int),
{
    let mut s = String::new();
    push_range(&mut s, v, lo, hi);
    s
}

/// Appends all characters of `t` to `s`.
pub fn push_str(s: &mut String, t: &str)
    ensures
        final(s)@ == old(s)@ + t@,
{
    let v = chars_of(t);
    push_range(s, &v, 0, v.len());
    assert(v@.subrange(0, v@.len() as int) =~= v@);
}


/// The position of the first `c` in `s`, or `s.len()` when there is none.
pub open spec fn char_index(s: Seq<char>, c: char) -> nat
    decreases s.len(),
{
    if s.len() == 0 || s[0] == c {
        0
    } else {
        1 + char_index(s.drop_first(), c)
    }
}

/// The position of the first `c` in `s`, if any (Rust's `str::find` with a
/// `char`, counted in characters).
pub open spec fn find_char(s: Seq<char>, c: char) -> Option<nat> {
    if char_index(s, c) < s.len() {
        Some(char_index(s, c))
    } else {
        None
    }
}

/// `char_index` is the first position holding `c`.
pub proof fn lemma_char_index(s: Seq<char>, c: char, k: int)
    requires
        0 <= k <= s.len(),
        forall|i: int| 0 <= i < k ==> s[i] != c,
        k == s.len() || s[k] == c,
    ensures
        char_index(s, c) == k,
    decreases k,
{
    if k > 0 {
        assert(s[0] != c);
        lemma_char_index(s.drop_first(), c, k - 1);
    }
}

pub proof fn lemma_char_index_bound(s: Seq<char>, c: char)
    ensures
        char_index(s, c) <= s.len(),
    decreases s.len(),
{
    if s.len() > 0 && s[0] != c {
        lemma_char_index_bound(s.drop_first(), c);
    }
}

/// The position of the first `c` in `v[lo..hi]`, counted from `lo`, or
/// `hi` when there is none.
pub fn index_of_char(v: &Vec<char>, lo: usize, hi: usize, c: char) -> (k: usize)
    requires
        lo <= hi <= v.len(),
    ensures
        lo <= k <= hi,
        k - lo == char_index(v@.subrange(lo as int, hi as int), c),
{
    let mut i: usize = lo;
    while i < hi && v[i] != c
        invariant
            lo <= i <= hi <= v.len(),
            forall|j: int| lo <= j < i ==> v@[j] != c,
        decreases hi - i,
    {
        i = i + 1;
    }
    proof {
        lemma_char_index(v@.subrange(lo as int, hi as int), c, i - lo);
    }
    i
}

/// Whether `v` and the string `t` hold the same characters.
pub fn chars_eq_str(v: &Vec<char>, t: &str) -> (b: bool)
    ensures
        b == (v@ == t@),
{
    let w = chars_of(t);
    if v.len() != w.len() {
        return false;
    }
    let mut i: usize = 0;
    while i < v.len()
        invariant
            v.len() == w.len(),
            w@ == t@,
            0 <= i <= v.len(),
            forall|j: int| 0 <= j < i ==> v@[j] == w@[j],
        decreases v.len() - i,
    {
        if v[i] != w[i] {
            assert(v@[i as int] != w@[i as int]);
            return false;
        }
        i = i + 1;
    }
    assert(v@ =~= w@);
    true
}

/// What Rust's `str::to_lowercase` returns for `s`: the Unicode lowercase
/// mapping of the text by the tables of the standard library (per character,
/// except that a capital sigma at the end of a word becomes a final sigma).
pub uninterp spec fn lowercase(s: Seq<char>) -> Seq<char>;

/// `str::to_lowercase`.
#[verifier::external_body]
pub(crate) fn to_lowercase(s: &str) -> (r: String)
    ensures
        r@ == lowercase(s@),
{
    s.to_lowercase()
}


/// The number of bytes of the UTF-8 encoding of `c`.
pub open spec fn char_width(c: char) -> nat {
    if (c as u32) <= 0x7f {
        1
    } else if (c as u32) <= 0x7ff {
        2
    } else if (c as u32) <= 0xffff {
        3
    } else {
        4
    }
}

/// The number of bytes of the UTF-8 encoding of `s` (Rust's `str::len`).
pub open spec fn byte_len(s: Seq<char>) -> nat {
    encode_utf8(s).len()
}

/// Whether the first `n` bytes of the UTF-8 encoding of `s` end at a
/// character boundary (Rust's `str::is_char_boundary`).
pub open spec fn byte_boundary(s: Seq<char>, n: int) -> bool {
    exists|p: int| 0 <= p <= s.len() && byte_len(s.take(p)) == n
}

/// The number of characters whose encoding is the first `n` bytes of the
/// encoding of `s`, when [`byte_boundary`] holds.
pub open spec fn char_pos(s: Seq<char>, n: int) -> int {
    choose|p: int| 0 <= p <= s.len() && byte_len(s.take(p)) == n
}

pub proof fn lemma_encode_scalar_len(c: char)
    ensures
        encode_scalar(c as u32).len() == char_width(c),
{
    vstd::utf8::char_is_scalar(c);
}

/// Encoding distributes over concatenation.
pub proof fn lemma_encode_concat(a: Seq<char>, b: Seq<char>)
    ensures
        encode_utf8(a + b) == encode_utf8(a) + encode_utf8(b),
    decreases a.len(),
{
    if a.len() == 0 {
        assert(a + b =~= b);
        assert(encode_utf8(a) =~= Seq::<u8>::empty());
        assert(encode_utf8(a) + encode_utf8(b) =~= encode_utf8(b));
    } else {
        assert((a + b).drop_first() =~= a.drop_first() + b);
        assert((a + b)[0] == a[0]);
        lemma_encode_concat(a.drop_first(), b);
        assert(encode_utf8(a + b) =~= encode_utf8(a) + encode_utf8(b));
    }
}

pub proof fn lemma_byte_len_push(s: Seq<char>, c: char)
    ensures
        byte_len(s.push(c)) == byte_len(s) + char_width(c),
{
    lemma_encode_concat(s, seq![c]);
    assert(s.push(c) =~= s + seq![c]);
    assert(seq![c].drop_first() =~= Seq::<char>::empty());
    assert(encode_utf8(seq![c]) =~= encode_scalar(c as u32) + encode_utf8(Seq::<char>::empty()));
    lemma_encode_scalar_len(c);
}

/// Adding one character to a range adds its width.
pub proof fn lemma_byte_len_step(s: Seq<char>, lo: int, i: int)
    requires
        0 <= lo <= i < s.len(),
    ensures
        byte_len(s.subrange(lo, i + 1)) == byte_len(s.subrange(lo, i)) + char_width(s[i]),
{
    assert(s.subrange(lo, i + 1) =~= s.subrange(lo, i).push(s[i]));
    lemma_byte_len_push(s.subrange(lo, i), s[i]);
}

/// Longer prefixes have longer encodings, by at least one byte per character.
pub proof fn lemma_byte_len_mono(s: Seq<char>, a: int, b: int)
    requires
        0 <= a <= b <= s.len(),
    ensures
        byte_len(s.take(a)) + (b - a) <= byte_len(s.take(b)),
    decreases b - a,
{
    if a < b {
        lemma_byte_len_mono(s, a, b - 1);
        assert(s.take(b) =~= s.subrange(0, b));
        assert(s.take(b - 1) =~= s.subrange(0, b - 1));
        lemma_byte_len_step(s, 0, b - 1);
    }
}

/// The encoding of `s` is never shorter than `s`, nor longer than four bytes per character.
pub proof fn lemma_byte_len_bounds(s: Seq<char>)
    ensures
        s.len() <= byte_len(s) <= 4 * s.len(),
    decreases s.len(),
{
    if s.len() > 0 {
        lemma_byte_len_bounds(s.drop_last());
        assert(s =~= s.drop_last().push(s.last()));
        lemma_byte_len_push(s.drop_last(), s.last());
    }
}

/// The width of `c` in UTF-8 (Rust's `char::len_utf8`).
pub fn utf8_width(c: char) -> (w: usize)
    ensures
        w == char_width(c),
{
    let v = c as u32;
    if v <= 0x7f {
        1
    } else if v <= 0x7ff {
        2
    } else if v <= 0xffff {
        3
    } else {
        4
    }
}

/// The number of bytes of the UTF-8 encoding of `v[lo..hi]`.
pub fn byte_len_of_range(v: &Vec<char>, lo: usize, hi: usize) -> (n: u128)
    requires
        lo <= hi <= v.len(),
    ensures
        n == byte_len(v@.subrange(lo as int, hi as int)),
{
    let mut i: usize = lo;
    let mut acc: u128 = 0;
    assert(v@.subrange(lo as int, lo as int) =~= Seq::<char>::empty());
    assert(encode_utf8(Seq::<char>::empty()) =~= Seq::<u8>::empty());
    while i < hi
        invariant
            lo <= i <= hi <= v.len(),
            acc == byte_len(v@.subrange(lo as int, i as int)),
            acc <= 4 * (i - lo),
        decreases hi - i,
    {
        proof {
            lemma_byte_len_step(v@, lo as int, i as int);
        }
        acc = acc + utf8_width(v[i]) as u128;
        i = i + 1;
    }
    acc
}

/// The end of the characters of `v[lo..hi]` whose encoding is exactly its
/// first `n` bytes, or `None` when byte `n` is not a character boundary.
pub fn chars_spanning_bytes(v: &Vec<char>, lo: usize, hi: usize, n: u128) -> (r: Option<usize>)
    requires
        lo <= hi <= v.len(),
    ensures
        match r {
            Some(p) => lo <= p <= hi && byte_boundary(v@.subrange(lo as int, hi as int), n as int)
                && char_pos(v@.subrange(lo as int, hi as int), n as int) == p - lo,
            None => !byte_boundary(v@.subrange(lo as int, hi as int), n as int),
        },
{
    let ghost s = v@.subrange(lo as int, hi as int);
    let mut i: usize = lo;
    let mut acc: u128 = 0;
    assert(s.take(0) =~= Seq::<char>::empty());
    assert(encode_utf8(Seq::<char>::empty()) =~= Seq::<u8>::empty());
    while i < hi && acc < n
        invariant
            lo <= i <= hi <= v.len(),
            s == v@.subrange(lo as int, hi as int),
            acc == byte_len(s.take(i - lo)),
            acc <= 4 * (i - lo),
            i > lo ==> byte_len(s.take(i - lo - 1)) < n,
        decreases hi - i,
    {
        proof {
            assert(s.take(i - lo + 1) =~= s.take(i - lo).push(s[i - lo]));
            lemma_byte_len_push(s.take(i - lo), s[i - lo]);
        }
        acc = acc + utf8_width(v[i]) as u128;
        i = i + 1;
    }
    let ghost k: int = i - lo;
    if acc == n {
        proof {
            assert forall|p: int| 0 <= p <= s.len() && byte_len(s.take(p)) == n implies p == k by {
                if p < k {
                    lemma_byte_len_mono(s, p, k);
                } else if p > k {
                    lemma_byte_len_mono(s, k, p);
                }
            }
        }
        Some(i)
    } else {
        proof {
            assert forall|p: int| 0 <= p <= s.len() implies byte_len(s.take(p)) != n by {
                if p < k {
                    lemma_byte_len_mono(s, p, k - 1);
                } else {
                    lemma_byte_len_mono(s, k, p);
                }
            }
        }
        None
    }
}


/// What Rust's `String::from_utf8_lossy` returns for `b`: the characters
/// that `b` encodes in UTF-8, with each invalid sequence replaced by U+FFFD.
pub uninterp spec fn lossy_utf8(b: Seq<u8>) -> Seq<char>;

/// `String::from_utf8_lossy`, as an owned `String`.
#[verifier::external_body]
pub(crate) fn decode_lossy(b: &[u8]) -> (s: String)
    ensures
        s@ == lossy_utf8(b@),
{
    String::from_utf8_lossy(b).into_owned()
}

/// Whether `trim(s)` is empty, i.e. `s` is only white space.
pub fn is_blank(s: &str) -> (b: bool)
    ensures
        b == (trim(s@).len() == 0),
{
    let v = chars_of(s);
    let k = skip_white_space(&v, 0, v.len());
    proof {
        assert(v@.subrange(0, v@.len() as int) =~= v@);
        assert(v@.subrange(k as int, v@.len() as int).len() == 0 ==> v@.subrange(k as int, v@.len() as int) =~= Seq::<char>::empty());
        lemma_trim_empty(s@);
    }
    k == v.len()
}

/// A sequence is blank after trimming exactly when it is blank after
/// removing its leading white space.
pub proof fn lemma_trim_empty(s: Seq<char>)
    ensures
        (trim(s).len() == 0) == (trim_start(s).len() == 0),
{
    lemma_trim_start_first(s);
    if trim_start(s).len() > 0 {
        lemma_trim_end_keeps_first(trim_start(s));
    } else {
        assert(trim_start(s) =~= Seq::<char>::empty());
    }
}

/// What `trim_start` leaves does not begin with white space.
pub proof fn lemma_trim_start_first(s: Seq<char>)
    ensures
        trim_start(s).len() > 0 ==> !is_white_space(trim_start(s)[0]),
    decreases s.len(),
{
    if s.len() > 0 && is_white_space(s[0]) {
        lemma_trim_start_first(s.drop_first());
    }
}

/// `trim_end` never removes a first character that is not white space.
pub proof fn lemma_trim_end_keeps_first(s: Seq<char>)
    requires
        s.len() > 0,
        !is_white_space(s[0]),
    ensures
        trim_end(s).len() > 0,
    decreases s.len(),
{
    if s.len() > 1 && is_white_space(s.last()) {
        assert(s.drop_last()[0] == s[0]);
        lemma_trim_end_keeps_first(s.drop_last());
    }
}

/// The position of the first `c` in `s`, or `s.len()` when there is none.
pub open spec fn byte_index(s: Seq<u8>, c: u8) -> nat
    decreases s.len(),
{
    if s.len() == 0 || s[0] == c {
        0
    } else {
        1 + byte_index(s.drop_first(), c)
    }
}

pub proof fn lemma_byte_index(s: Seq<u8>, c: u8, k: int)
    requires
        0 <= k <= s.len(),
        forall|i: int| 0 <= i < k ==> s[i] != c,
        k == s.len() || s[k] == c,
    ensures
        byte_index(s, c) == k,
    decreases k,
{
    if k > 0 {
        lemma_byte_index(s.drop_first(), c, k - 1);
    }
}

pub proof fn lemma_byte_index_bound(s: Seq<u8>, c: u8)
    ensures
        byte_index(s, c) <= s.len(),
    decreases s.len(),
{
    if s.len() > 0 && s[0] != c {
        lemma_byte_index_bound(s.drop_first(), c);
    }
}

/// `byte_index` is the position of the first `c`, or the length when there
/// is none.
pub proof fn lemma_byte_index_first(s: Seq<u8>, c: u8)
    ensures
        byte_index(s, c) <= s.len(),
        forall|i: int| 0 <= i < byte_index(s, c) ==> s[i] != c,
        byte_index(s, c) < s.len() ==> s[byte_index(s, c) as int] == c,
    decreases s.len(),
{
    if s.len() > 0 && s[0] != c {
        lemma_byte_index_first(s.drop_first(), c);
        assert forall|i: int| 0 <= i < byte_index(s, c) implies s[i] != c by {
            if i > 0 {
                assert(s[i] == s.drop_first()[i - 1]);
            }
        }
    }
}

/// A buffer without line feeds is a single piece.
pub proof fn lemma_split_lines_single(x: Seq<u8>)
    requires
        forall|i: int| 0 <= i < x.len() ==> x[i] != 10u8,
    ensures
        split_lines(x) == seq![x],
{
    lemma_byte_index(x, 10u8, x.len() as int);
}

/// Splitting never gives no pieces.
pub proof fn lemma_split_lines_not_empty(x: Seq<u8>)
    ensures
        split_lines(x).len() >= 1,
{
    lemma_byte_index_bound(x, 10u8);
}

/// Splitting at a line feed: the pieces of `x`, then those of `y`.
pub proof fn lemma_split_lines_concat(x: Seq<u8>, y: Seq<u8>)
    ensures
        split_lines(x + seq![10u8] + y) == split_lines(x) + split_lines(y),
    decreases x.len(),
{
    let s = x + seq![10u8] + y;
    lemma_byte_index_first(x, 10u8);
    let k = byte_index(x, 10u8) as int;
    if k == x.len() {
        assert forall|i: int| 0 <= i < k implies s[i] != 10u8 by {
            assert(s[i] == x[i]);
        }
        assert(s[k] == 10u8);
        lemma_byte_index(s, 10u8, k);
        lemma_split_lines_single(x);
        assert(s.take(k) =~= x);
        assert(s.skip(k + 1) =~= y);
        assert(split_lines(s) == seq![x] + split_lines(y));
    } else {
        assert forall|i: int| 0 <= i < k implies s[i] != 10u8 by {
            assert(s[i] == x[i]);
        }
        assert(s[k] == x[k]);
        lemma_byte_index(s, 10u8, k);
        lemma_split_lines_concat(x.skip(k + 1), y);
        assert(s.take(k) =~= x.take(k));
        assert(s.skip(k + 1) =~= x.skip(k + 1) + seq![10u8] + y);
        assert(split_lines(s) == seq![x.take(k)] + (split_lines(x.skip(k + 1)) + split_lines(y)));
        assert(split_lines(x) == seq![x.take(k)] + split_lines(x.skip(k + 1)));
        assert(split_lines(s) =~= split_lines(x) + split_lines(y));
    }
}

/// The pieces of `b` between line feeds, in order (Rust's `slice::split`
/// on `b'\n'`): `n` line feeds give `n + 1` pieces, empty ones included.
pub open spec fn split_lines(b: Seq<u8>) -> Seq<Seq<u8>>
    decreases b.len(),
{
    let k = byte_index(b, 10u8) as int;
    if k >= b.len() {
        seq![b]
    } else {
        proof {
            lemma_byte_index_bound(b, 10u8);
        }
        seq![b.take(k)] + split_lines(b.skip(k + 1))
    }
}

/// A piece of a line-split buffer, decoded like `String::from_utf8_lossy`.
/// An empty piece is the empty line: `from_utf8_lossy` gives valid UTF-8
/// back unchanged, so it is decoded without the call.
pub open spec fn decode_piece(p: Seq<u8>) -> Seq<char> {
    if p.len() == 0 {
        Seq::empty()
    } else {
        lossy_utf8(p)
    }
}

/// Decodes one piece (see [`decode_piece`]).
fn decode_line(p: &[u8]) -> (s: String)
    ensures
        s@ == decode_piece(p@),
{
    if p.len() == 0 {
        String::new()
    } else {
        decode_lossy(p)
    }
}

/// The pieces of `b` between line feeds, each decoded like
/// `String::from_utf8_lossy`.
pub fn decode_lines(b: &[u8]) -> (lines: Vec<String>)
    ensures
        lines@.len() == split_lines(b@).len(),
        forall|i: int| 0 <= i < lines@.len() ==> #[trigger] lines@[i]@ == decode_piece(
            split_lines(b@)[i],
        ),
{
    let n: usize = b.len();
    let mut lines: Vec<String> = Vec::new();
    let mut start: usize = 0;
    let mut i: usize = 0;
    let ghost mut pieces: Seq<Seq<u8>> = Seq::empty();
    assert(b@.skip(0) =~= b@);
    while i < n
        invariant
            n == b@.len(),
            start <= i <= n,
            split_lines(b@) == pieces + split_lines(b@.skip(start as int)),
            forall|m: int| start <= m < i ==> b@[m] != 10u8,
            lines@.len() == pieces.len(),
            forall|m: int| 0 <= m < lines@.len() ==> #[trigger] lines@[m]@ == decode_piece(pieces[m]),
        decreases n - i,
    {
        if b[i] == 10u8 {
            let piece = &b[start..i];
            proof {
                let s = b@.skip(start as int);
                lemma_byte_index(s, 10u8, i - start);
                assert(s.take(i - start) =~= b@.subrange(start as int, i as int));
                assert(s.skip(i - start + 1) =~= b@.skip(i + 1));
                assert(split_lines(s) == seq![b@.subrange(start as int, i as int)] + split_lines(b@.skip(i + 1)));
                pieces = pieces.push(b@.subrange(start as int, i as int));
                assert(split_lines(b@) =~= pieces + split_lines(b@.skip(i + 1)));
            }
            lines.push(decode_line(piece));
            start = i + 1;
        }
        i = i + 1;
    }
    let piece = &b[start..n];
    proof {
        let s = b@.skip(start as int);
        lemma_byte_index(s, 10u8, n - start);
        assert(s =~= b@.subrange(start as int, n as int));
        pieces = pieces.push(s);
        assert(split_lines(b@) =~= pieces);
    }
    lines.push(decode_line(piece));
    lines
}


/// The decimal digit for `d < 10`.
pub open spec fn digit_char(d: nat) -> char {
    if d == 0 {
        '0'
    } else if d == 1 {
        '1'
    } else if d == 2 {
        '2'
    } else if d == 3 {
        '3'
    } else if d == 4 {
        '4'
    } else if d == 5 {
        '5'
    } else if d == 6 {
        '6'
    } else if d == 7 {
        '7'
    } else if d == 8 {
        '8'
    } else {
        '9'
    }
}

/// Whether `c` is an ASCII decimal digit.
pub open spec fn is_digit(c: char) -> bool {
    '0' <= c && c <= '9'
}

/// The value of the decimal digit `c`.
pub open spec fn digit_value(c: char) -> nat {
    ((c as u32) - ('0' as u32)) as nat
}

/// The decimal text of `n`, without sign or leading zeros (Rust's
/// `to_string` on an unsigned integer).
pub open spec fn decimal(n: nat) -> Seq<char>
    decreases n,
{
    if n < 10 {
        seq![digit_char(n)]
    } else {
        decimal(n / 10).push(digit_char(n % 10))
    }
}

/// The value of a sequence of decimal digits.
pub open spec fn digits_value(s: Seq<char>) -> nat
    decreases s.len(),
{
    if s.len() == 0 {
        0
    } else {
        digits_value(s.drop_last()) * 10 + digit_value(s.last())
    }
}

/// Whether every character of `s` is a decimal digit.
pub open spec fn all_digits(s: Seq<char>) -> bool {
    forall|i: int| 0 <= i < s.len() ==> is_digit(#[trigger] s[i])
}

/// What Rust's `str::parse::<usize>` accepts and returns: an optional `+`
/// followed by at least one decimal digit and nothing else, whose value fits
/// in a `usize`.
pub open spec fn parse_decimal(s: Seq<char>) -> Option<usize> {
    let d = if s.len() > 0 && s[0] == '+' {
        s.drop_first()
    } else {
        s
    };
    if d.len() > 0 && all_digits(d) && digits_value(d) <= usize::MAX {
        Some(digits_value(d) as usize)
    } else {
        None
    }
}

proof fn lemma_digit_char(d: nat)
    requires
        d < 10,
    ensures
        is_digit(digit_char(d)),
        digit_value(digit_char(d)) == d,
{
}

/// `decimal(n)` is a non-empty string of digits whose value is `n`.
pub proof fn lemma_decimal_value(n: nat)
    ensures
        decimal(n).len() > 0,
        all_digits(decimal(n)),
        digits_value(decimal(n)) == n,
        decimal(n)[0] != '+',
    decreases n,
{
    lemma_digit_char(n % 10);
    if n >= 10 {
        lemma_decimal_value(n / 10);
        let s = decimal(n);
        assert(s.drop_last() =~= decimal(n / 10));
        assert forall|i: int| 0 <= i < s.len() implies is_digit(#[trigger] s[i]) by {
            if i < s.len() - 1 {
                assert(s[i] == decimal(n / 10)[i]);
            }
        }
        assert(s[0] == decimal(n / 10)[0]);
        assert(s.last() == digit_char(n % 10));
        assert(digits_value(s) == digits_value(decimal(n / 10)) * 10 + n % 10);
        assert((n / 10) * 10 + n % 10 == n) by (nonlinear_arith);
        assert(digits_value(s) == n);
    } else {
        assert(decimal(n).drop_last() =~= Seq::<char>::empty());
        assert(digits_value(Seq::<char>::empty()) == 0);
        assert(decimal(n).last() == digit_char(n));
        assert(digits_value(decimal(n)) == n);
    }
}

/// Reading back the decimal text of a number gives the number.
pub proof fn law_parse_decimal_roundtrip(n: usize)
    ensures
        parse_decimal(decimal(n as nat)) == Some(n),
{
    lemma_decimal_value(n as nat);
}

/// Appends the decimal text of `n` to `s`.
pub fn push_decimal(s: &mut String, n: usize)
    ensures
        final(s)@ == old(s)@ + decimal(n as nat),
    decreases n,
{
    if n >= 10 {
        push_decimal(s, n / 10);
    }
    let d = n % 10;
    let c = if d == 0 {
        '0'
    } else if d == 1 {
        '1'
    } else if d == 2 {
        '2'
    } else if d == 3 {
        '3'
    } else if d == 4 {
        '4'
    } else if d == 5 {
        '5'
    } else if d == 6 {
        '6'
    } else if d == 7 {
        '7'
    } else if d == 8 {
        '8'
    } else {
        '9'
    };
    push_char(s, c);
    proof {
        if n >= 10 {
            assert(old(s)@ + decimal(n as nat) =~= old(s)@ + decimal((n / 10) as nat) + seq![c]);
        } else {
            assert(old(s)@ + decimal(n as nat) =~= old(s)@ + seq![c]);
        }
    }
}

/// The decimal text of `n` (Rust's `usize::to_string`).
pub fn usize_to_string(n: usize) -> (s: String)
    ensures
        s@ == decimal(n as nat),
{
    let mut s = String::new();
    push_decimal(&mut s, n);
    assert(s@ =~= decimal(n as nat));
    s
}

proof fn lemma_digits_value_mono(s: Seq<char>, i: int, j: int)
    requires
        0 <= i <= j <= s.len(),
    ensures
        digits_value(s.take(i)) <= digits_value(s.take(j)),
    decreases j - i,
{
    if i < j {
        lemma_digits_value_mono(s, i, j - 1);
        assert(s.take(j).drop_last() =~= s.take(j - 1));
    }
}

/// Reads an unsigned decimal number (Rust's `str::parse::<usize>`).
pub fn parse_usize(s: &str) -> (r: Option<usize>)
    ensures
        r == parse_decimal(s@),
{
    let v = chars_of(s);
    let start: usize = if v.len() > 0 && v[0] == '+' {
        1
    } else {
        0
    };
    let ghost d = if s@.len() > 0 && s@[0] == '+' {
        s@.drop_first()
    } else {
        s@
    };
    assert(d =~= v@.skip(start as int));
    if start == v.len() {
        return None;
    }
    let mut value: usize = 0;
    let mut i: usize = start;
    assert(d.take(0) =~= Seq::<char>::empty());
    while i < v.len()
        invariant
            start <= i <= v.len(),
            d == v@.skip(start as int),
            d.len() > 0,
            parse_decimal(s@) == (if all_digits(d) && digits_value(d) <= usize::MAX {
                Some(digits_value(d) as usize)
            } else {
                None
            }),
            forall|k: int| 0 <= k < i - start ==> is_digit(#[trigger] d[k]),
            value == digits_value(d.take(i - start)),
        decreases v.len() - i,
    {
        let c = v[i];
        if !('0' <= c && c <= '9') {
            assert(!is_digit(d[i - start]));
            assert(!all_digits(d));
            return None;
        }
        let dv = (c as u32 - '0' as u32) as usize;
        assert(d.take(i - start + 1).drop_last() =~= d.take(i - start));
        assert(d.take(i - start + 1).last() == c);
        assert(digits_value(d.take(i - start + 1)) == value * 10 + dv);
        match value.checked_mul(10) {
            Some(t) => match t.checked_add(dv) {
                Some(nv) => {
                    value = nv;
                },
                None => {
                    proof {
                        lemma_digits_value_mono(d, i - start + 1, d.len() as int);
                        assert(d.take(d.len() as int) =~= d);
                    }
                    return None;
                },
            },
            None => {
                proof {
                    lemma_digits_value_mono(d, i - start + 1, d.len() as int);
                    assert(d.take(d.len() as int) =~= d);
                }
                return None;
            },
        }
        i = i + 1;
    }
    assert(d.take(d.len() as int) =~= d);
    Some(value)
}

/// Whether `needle` occurs in `hay` at position `i`.
pub open spec fn occurs_at(hay: Seq<char>, needle: Seq<char>, i: int) -> bool {
    0 <= i && i + needle.len() <= hay.len() && hay.subrange(i, i + needle.len()) == needle
}

/// Whether `needle` occurs in `hay` (Rust's `str::contains` with a string).
pub open spec fn contains(hay: Seq<char>, needle: Seq<char>) -> bool {
    exists|i: int| occurs_at(hay, needle, i)
}

/// Decides [`contains`].
pub fn str_contains(hay: &str, needle: &str) -> (b: bool)
    ensures
        b == contains(hay@, needle@),
{
    let h = chars_of(hay);
    let n = chars_of(needle);
    if n.len() > h.len() {
        assert forall|i: int| !occurs_at(hay@, needle@, i) by {}
        return false;
    }
    let mut i: usize = 0;
    while i <= h.len() - n.len()
        invariant
            n.len() <= h.len(),
            h@ == hay@,
            n@ == needle@,
            i <= h.len() - n.len() + 1,
            forall|k: int| 0 <= k < i ==> !#[trigger] occurs_at(hay@, needle@, k),
        decreases h.len() - n.len() + 1 - i,
    {
        let mut j: usize = 0;
        while j < n.len() && h[i + j] == n[j]
            invariant
                n.len() <= h.len(),
                i + n.len() <= h.len(),
                j <= n.len(),
                forall|m: int| 0 <= m < j ==> h@[i + m] == n@[m],
            decreases n.len() - j,
        {
            j = j + 1;
        }
        if j == n.len() {
            assert(h@.subrange(i as int, i + n@.len()) =~= n@);
            assert(occurs_at(hay@, needle@, i as int));
            return true;
        }
        assert(h@.subrange(i as int, i + n@.len())[j as int] != n@[j as int]);
        i = i + 1;
    }
    false
}

} // verus!
