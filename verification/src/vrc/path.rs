//! The decisions made while locating VRChat's data directory: on Windows,
//! the `LocalLow` counterpart of the local application data directory; on
//! Linux, which Steam installation to use and which Steam libraries are
//! listed in its `libraryfolders.vdf`.

use vstd::prelude::*;
use crate::vrc::parser::texts_of;
use crate::text::{lemma_char_index, lemma_char_index_bound, char_index, chars_of, contains, index_of_char, occurs_at, push_char, push_range, skip_white_space, drop_white_space_back, string_of_range, trim};

verus! {

/// `s` with every occurrence of `from` replaced by `to`, scanning from the
/// left without overlaps (Rust's `str::replace`), for a non-empty `from`.
pub open spec fn replace_all(s: Seq<char>, from: Seq<char>, to: Seq<char>) -> Seq<char>
    decreases s.len(),
{
    if s.len() == 0 || from.len() == 0 {
        s
    } else if occurs_at(s, from, 0) {
        to + replace_all(s.skip(from.len() as int), from, to)
    } else {
        seq![s[0]] + replace_all(s.drop_first(), from, to)
    }
}

/// Whether `needle` occurs in `v` at position `i`.
fn occurs_at_exec(v: &Vec<char>, i: usize, needle: &Vec<char>) -> (b: bool)
    requires
        i <= v.len(),
    ensures
        b == occurs_at(v@.skip(i as int), needle@, 0),
{
    if needle.len() > v.len() - i {
        return false;
    }
    let mut j: usize = 0;
    while j < needle.len()
        invariant
            j <= needle.len(),
            i + needle.len() <= v.len(),
            forall|k: int| 0 <= k < j ==> v@[i + k] == needle@[k],
        decreases needle.len() - j,
    {
        if v[i + j] != needle[j] {
            assert(v@.skip(i as int).subrange(0, needle@.len() as int)[j as int] != needle@[j as int]);
            return false;
        }
        j = j + 1;
    }
    assert(v@.skip(i as int).subrange(0, needle@.len() as int) =~= needle@);
    true
}

/// Replaces every occurrence of `from` in `s` by `to` (Rust's `str::replace`).
pub fn replace_str(s: &str, from: &str, to: &str) -> (r: String)
    requires
        from@.len() > 0,
    ensures
        r@ == replace_all(s@, from@, to@),
{
    let v = chars_of(s);
    let f = chars_of(from);
    let mut r = String::new();
    let mut i: usize = 0;
    assert(v@.skip(0) =~= v@);
    assert(r@ + replace_all(v@, from@, to@) =~= replace_all(v@, from@, to@));
    while i < v.len()
        invariant
            i <= v.len(),
            v@ == s@,
            f@ == from@,
            f@.len() > 0,
            replace_all(s@, from@, to@) == r@ + replace_all(v@.skip(i as int), from@, to@),
        decreases v.len() - i,
    {
        let ghost rest = v@.skip(i as int);
        if occurs_at_exec(&v, i, &f) {
            crate::text::push_str(&mut r, to);
            assert(rest.skip(f@.len() as int) =~= v@.skip(i + f@.len()));
            i = i + f.len();
        } else {
            push_char(&mut r, v[i]);
            assert(rest.drop_first() =~= v@.skip(i + 1));
            i = i + 1;
        }
    }
    assert(v@.skip(i as int) =~= Seq::<char>::empty());
    assert(r@ + Seq::<char>::empty() =~= r@);
    r
}

/// The `LocalLow` directory that sits beside the local application data
/// directory `local`: every `Local` in its path becomes `LocalLow`.
pub fn local_low_dir(local: &str) -> (r: String)
    ensures
        r@ == replace_all(local@, "Local"@, "LocalLow"@),
{
    proof {
        reveal_strlit("Local");
    }
    replace_str(local, "Local", "LocalLow")
}

/// The lines of `s` (Rust's `str::lines`): split after each line feed, a
/// carriage return before the line feed removed, and no empty last line
/// after a final line feed.
pub open spec fn text_lines(s: Seq<char>) -> Seq<Seq<char>>
    decreases s.len(),
{
    if s.len() == 0 {
        Seq::empty()
    } else {
        let k = char_index(s, '\n') as int;
        if k >= s.len() {
            seq![s]
        } else {
            proof {
                crate::text::lemma_char_index_bound(s, '\n');
            }
            let l = s.take(k);
            let line = if l.len() > 0 && l.last() == '\r' {
                l.drop_last()
            } else {
                l
            };
            seq![line] + text_lines(s.skip(k + 1))
        }
    }
}

/// The library path that a line of `libraryfolders.vdf` names: after the
/// first `"path"` of the trimmed line, the text between the next two `"`.
pub open spec fn vdf_line_path(line: Seq<char>) -> Option<Seq<char>> {
    let t = trim(line);
    let key = "\"path\""@;
    if !contains(t, key) {
        None
    } else {
        let start = choose|i: int| occurs_at(t, key, i) && forall|j: int| 0 <= j < i ==> !occurs_at(t, key, j);
        let rem = t.skip(start + 6);
        let qs = char_index(rem, '"') as int;
        if qs >= rem.len() {
            None
        } else {
            let rem2 = rem.skip(qs + 1);
            let qe = char_index(rem2, '"') as int;
            if qe >= rem2.len() {
                None
            } else {
                Some(rem2.take(qe))
            }
        }
    }
}

/// The library paths named by `lines`, in order.
pub open spec fn vdf_paths(lines: Seq<Seq<char>>) -> Seq<Seq<char>>
    decreases lines.len(),
{
    if lines.len() == 0 {
        Seq::empty()
    } else {
        let rest = vdf_paths(lines.drop_last());
        match vdf_line_path(lines.last()) {
            Some(p) => rest.push(p),
            None => rest,
        }
    }
}

/// Where Steam is installed on Linux, below the home directory.
#[derive(Debug, Clone, Copy, PartialEq, Eq, Structural)]
pub enum SteamDir {
    /// `~/.local/share/steam`
    LocalShare,
    /// `~/.steam/steam`
    DotSteam,
    /// `~/.var/app/com.valvesoftware.Steam/.local/share/Steam`
    Flatpak,
}

/// Whether the installation `d` is valid, given the validity of each.
pub open spec fn steam_dir_valid(d: SteamDir, local_share: bool, dot_steam: bool, flatpak: bool) -> bool {
    match d {
        SteamDir::LocalShare => local_share,
        SteamDir::DotSteam => dot_steam,
        SteamDir::Flatpak => flatpak,
    }
}

/// The installation used: `~/.steam/steam` when its `userdata` exists,
/// `~/.local/share/steam` otherwise; if that is not a valid installation,
/// the Flatpak one when valid; if still not valid, `~/.steam/steam` when
/// valid; none if the result is not valid.
pub open spec fn steam_choice(userdata: bool, local_share: bool, dot_steam: bool, flatpak: bool) -> Option<SteamDir> {
    let d0 = if userdata {
        SteamDir::DotSteam
    } else {
        SteamDir::LocalShare
    };
    let d1 = if !steam_dir_valid(d0, local_share, dot_steam, flatpak) && flatpak {
        SteamDir::Flatpak
    } else {
        d0
    };
    let d2 = if !steam_dir_valid(d1, local_share, dot_steam, flatpak) && dot_steam {
        SteamDir::DotSteam
    } else {
        d1
    };
    if steam_dir_valid(d2, local_share, dot_steam, flatpak) {
        Some(d2)
    } else {
        None
    }
}

fn dir_valid(d: SteamDir, local_share: bool, dot_steam: bool, flatpak: bool) -> (b: bool)
    ensures
        b == steam_dir_valid(d, local_share, dot_steam, flatpak),
{
    match d {
        SteamDir::LocalShare => local_share,
        SteamDir::DotSteam => dot_steam,
        SteamDir::Flatpak => flatpak,
    }
}

/// Which installation is chosen, from the four facts on disk: the
/// preferred one (`~/.steam/steam` when its `userdata` exists,
/// `~/.local/share/steam` otherwise) when it is valid; otherwise the Flatpak
/// one when valid; otherwise `~/.steam/steam` when valid; otherwise none.
/// Whatever is chosen is valid.
pub proof fn law_steam_choice(userdata: bool, local_share: bool, dot_steam: bool, flatpak: bool)
    ensures
        ({
            let r = steam_choice(userdata, local_share, dot_steam, flatpak);
            let preferred_valid = if userdata {
                dot_steam
            } else {
                local_share
            };
            &&& (userdata && dot_steam) ==> r == Some(SteamDir::DotSteam)
            &&& (!userdata && local_share) ==> r == Some(SteamDir::LocalShare)
            &&& (!preferred_valid && flatpak) ==> r == Some(SteamDir::Flatpak)
            &&& (!preferred_valid && !flatpak && dot_steam) ==> r == Some(SteamDir::DotSteam)
            &&& (!preferred_valid && !flatpak && !dot_steam) ==> r is None
            &&& r is None <==> (!preferred_valid && !flatpak && !dot_steam)
        }),
{
}

/// Chooses the Steam installation on Linux from what exists on disk:
/// whether `~/.steam/steam/userdata` exists, and whether each installation
/// is valid (it exists and holds `steamapps`).
pub fn choose_steam_dir(userdata_exists: bool, local_share_valid: bool, dot_steam_valid: bool, flatpak_valid: bool) -> (r: Option<SteamDir>)
    ensures
        r == steam_choice(userdata_exists, local_share_valid, dot_steam_valid, flatpak_valid),
{
    let mut steam = SteamDir::LocalShare;
    if userdata_exists {
        steam = SteamDir::DotSteam;
    }
    if !dir_valid(steam, local_share_valid, dot_steam_valid, flatpak_valid) && flatpak_valid {
        steam = SteamDir::Flatpak;
    }
    if !dir_valid(steam, local_share_valid, dot_steam_valid, flatpak_valid) && dot_steam_valid {
        steam = SteamDir::DotSteam;
    }
    if !dir_valid(steam, local_share_valid, dot_steam_valid, flatpak_valid) {
        None
    } else {
        Some(steam)
    }
}


/// The lines of `s` (Rust's `str::lines`).
pub fn lines_of(s: &str) -> (r: Vec<String>)
    ensures
        texts_of(r@) == text_lines(s@),
{
    let v = chars_of(s);
    let n: usize = v.len();
    let mut r: Vec<String> = Vec::new();
    let mut start: usize = 0;
    let mut i: usize = 0;
    assert(v@.skip(0) =~= v@);
    assert(texts_of(r@) + text_lines(v@) =~= text_lines(v@));
    while i < n
        invariant
            n == v@.len(),
            v@ == s@,
            start <= i <= n,
            text_lines(s@) == texts_of(r@) + text_lines(v@.skip(start as int)),
            forall|m: int| start <= m < i ==> v@[m] != '\n',
        decreases n - i,
    {
        if v[i] == '\n' {
            let ghost rest = v@.skip(start as int);
            proof {
                lemma_char_index(rest, '\n', i - start);
                assert(rest.take(i - start) =~= v@.subrange(start as int, i as int));
                assert(rest.skip(i - start + 1) =~= v@.skip(i + 1));
            }
            let end: usize = if i > start && v[i - 1] == '\r' {
                i - 1
            } else {
                i
            };
            let line = string_of_range(&v, start, end);
            let ghost before = r@;
            r.push(line);
            proof {
                if i > start && v@[i - 1] == '\r' {
                    assert(v@.subrange(start as int, i as int).drop_last() =~= v@.subrange(start as int, end as int));
                }
                assert(texts_of(r@) =~= texts_of(before).push(line@));
                assert(text_lines(rest) =~= seq![line@] + text_lines(v@.skip(i + 1)));
                assert(texts_of(r@) + text_lines(v@.skip(i + 1)) =~= texts_of(before) + text_lines(rest));
            }
            start = i + 1;
        }
        i = i + 1;
    }
    if start < n {
        let ghost rest = v@.skip(start as int);
        proof {
            lemma_char_index(rest, '\n', n - start);
            assert(rest =~= v@.subrange(start as int, n as int));
        }
        let line = string_of_range(&v, start, n);
        let ghost before = r@;
        r.push(line);
        proof {
            assert(texts_of(r@) =~= texts_of(before).push(line@));
            assert(text_lines(rest) =~= seq![line@]);
            assert(texts_of(r@) =~= texts_of(before) + text_lines(rest));
        }
    } else {
        proof {
            assert(v@.skip(start as int) =~= Seq::<char>::empty());
            assert(texts_of(r@) + Seq::<Seq<char>>::empty() =~= texts_of(r@));
        }
    }
    r
}

/// The library path that one line of `libraryfolders.vdf` names, if any.
pub fn vdf_path_of_line(line: &str) -> (r: Option<String>)
    ensures
        match r {
            Some(p) => vdf_line_path(line@) == Some(p@),
            None => vdf_line_path(line@) is None,
        },
{
    let v = chars_of(line);
    let a: usize = skip_white_space(&v, 0, v.len());
    let b: usize = drop_white_space_back(&v, a, v.len());
    let ghost t = v@.subrange(a as int, b as int);
    proof {
        assert(v@.subrange(0, v@.len() as int) =~= line@);
        assert(t == trim(line@));
    }
    let key = chars_of("\"path\"");
    proof {
        reveal_strlit("\"path\"");
    }
    let mut i: usize = a;
    let mut found = false;
    while i < b && !found
        invariant
            a <= i <= b <= v@.len(),
            t == v@.subrange(a as int, b as int),
            key@ == "\"path\""@,
            key@.len() == 6,
            !found ==> forall|j: int| 0 <= j < i - a ==> !occurs_at(t, key@, j),
            found ==> i > a && occurs_at(t, key@, i - a - 1) && forall|j: int| 0 <= j < i - a - 1 ==> !occurs_at(t, key@, j),
        decreases b - i + (if found { 0int } else { 1int }),
    {
        if b - i >= 6 && occurs_at_exec(&v, i, &key) {
            proof {
                assert(v@.skip(i as int).subrange(0, 6) =~= t.subrange(i - a, i - a + 6));
            }
            found = true;
        } else {
            proof {
                if b - i >= 6 {
                    assert(v@.skip(i as int).subrange(0, 6) =~= t.subrange(i - a, i - a + 6));
                }
            }
        }
        i = i + 1;
    }
    if !found {
        proof {
            assert forall|j: int| !occurs_at(t, key@, j) by {
                if 0 <= j < t.len() {
                } 
            }
        }
        return None;
    }
    let start: usize = i - 1;
    let ghost st = start - a;
    proof {
        assert(contains(t, key@));
        let c = choose|k: int| occurs_at(t, key@, k) && forall|j: int| 0 <= j < k ==> !occurs_at(t, key@, j);
        assert(occurs_at(t, key@, st) && forall|j: int| 0 <= j < st ==> !occurs_at(t, key@, j));
        if c < st {
        } else if c > st {
        }
        assert(c == st);
        assert(t.skip(st + 6) =~= v@.subrange(start + 6, b as int));
    }
    let qs: usize = index_of_char(&v, start + 6, b, '"');
    if qs == b {
        return None;
    }
    proof {
        assert(v@.subrange(start + 6, b as int).skip(qs - start - 6 + 1) =~= v@.subrange(qs + 1, b as int));
    }
    let qe: usize = index_of_char(&v, qs + 1, b, '"');
    if qe == b {
        return None;
    }
    proof {
        assert(v@.subrange(qs + 1, b as int).take(qe - qs - 1) =~= v@.subrange(qs + 1, qe as int));
    }
    Some(string_of_range(&v, qs + 1, qe))
}

/// The library paths that `libraryfolders.vdf`, with text `content`, names,
/// in order.
#[verifier::rlimit(40)]
pub fn library_paths(content: &str) -> (r: Vec<String>)
    ensures
        texts_of(r@) == vdf_paths(text_lines(content@)),
{
    let lines = lines_of(content);
    let ghost ls = texts_of(lines@);
    let mut r: Vec<String> = Vec::new();
    let mut i: usize = 0;
    assert(ls.take(0) =~= Seq::<Seq<char>>::empty());
    while i < lines.len()
        invariant
            i <= lines@.len(),
            ls == texts_of(lines@),
            texts_of(r@) == vdf_paths(ls.take(i as int)),
        decreases lines@.len() - i,
    {
        proof {
            assert(ls.take(i + 1).drop_last() =~= ls.take(i as int));
            assert(ls.take(i + 1).last() == lines@[i as int]@);
        }
        match vdf_path_of_line(lines[i].as_str()) {
            Some(p) => {
                let ghost before = r@;
                r.push(p);
                assert(texts_of(r@) =~= texts_of(before).push(p@));
            },
            None => {},
        }
        i = i + 1;
    }
    assert(ls.take(lines@.len() as int) =~= ls);
    r
}

} // verus!
