//! The file name of a Windows path, as `Path::file_name` gives it on Windows:
//! the last component after the prefix, when it is a normal name.
//!
//! The prefix is one of: a drive (`C:`); `\\server\share` when both server and
//! share are non-empty; a device (`\\.\COM1`); or a verbatim prefix, written
//! with backslashes only: `\\?\UNC\server\share`, `\\?\C:` or `\\?\name`.
//! Outside verbatim paths both `\` and `/` separate components and `.` is
//! skipped; inside them only `\` separates and `.` is a component of its own.
use vstd::prelude::*;
use crate::text::{chars_of, string_from_chars};

verus! {

/// Both `\` and `/` separate components.
pub open spec fn is_sep(c: char) -> bool {
    c == '\\' || c == '/'
}

/// A separator in a path that is (`verbatim`) or is not verbatim.
pub open spec fn sep_in(verbatim: bool, c: char) -> bool {
    if verbatim {
        c == '\\'
    } else {
        is_sep(c)
    }
}

pub open spec fn is_ascii_letter(c: char) -> bool {
    ('a' <= c && c <= 'z') || ('A' <= c && c <= 'Z')
}

/// The first separator at or after `i` (the end of the text when there is none).
pub open spec fn next_sep(s: Seq<char>, i: int, verbatim: bool) -> int
    decreases s.len() - i,
{
    if i >= s.len() || i < 0 {
        s.len() as int
    } else if sep_in(verbatim, s[i]) {
        i
    } else {
        next_sep(s, i + 1, verbatim)
    }
}

/// Two leading separators.
pub open spec fn starts_double_sep(s: Seq<char>) -> bool {
    s.len() >= 2 && is_sep(s[0]) && is_sep(s[1])
}

/// The path begins with `\\?\`.
pub open spec fn is_verbatim(s: Seq<char>) -> bool {
    s.len() >= 4 && s[0] == '\\' && s[1] == '\\' && s[2] == '?' && s[3] == '\\'
}

/// The path begins with `\\?\UNC` and a separator.
pub open spec fn is_verbatim_unc(s: Seq<char>) -> bool {
    is_verbatim(s) && s.len() >= 8 && s[4] == 'U' && s[5] == 'N' && s[6] == 'C' && is_sep(s[7])
}

/// The path begins with `\\?\`, a drive letter and `:`, followed by a separator or the end.
pub open spec fn is_verbatim_disk(s: Seq<char>) -> bool {
    is_verbatim(s) && s.len() >= 6 && is_ascii_letter(s[4]) && s[5] == ':' && (s.len() == 6
        || is_sep(s[6]))
}

/// The path begins with two separators, `.` and a separator.
pub open spec fn is_device(s: Seq<char>) -> bool {
    starts_double_sep(s) && !is_verbatim(s) && s.len() >= 4 && s[2] == '.' && is_sep(s[3])
}

/// Where a `server\share` pair that starts at `i` ends: after the share when
/// it is non-empty, else after the server.
pub open spec fn server_share_end(s: Seq<char>, i: int, verbatim: bool) -> int {
    let a = next_sep(s, i, verbatim);
    if a >= s.len() {
        a
    } else {
        let b = next_sep(s, a + 1, verbatim);
        if b > a + 1 {
            b
        } else {
            a
        }
    }
}

/// `\\server\share` with a non-empty server and share.
pub open spec fn is_unc(s: Seq<char>) -> bool {
    let a = next_sep(s, 2, false);
    &&& starts_double_sep(s)
    &&& !is_verbatim(s)
    &&& !is_device(s)
    &&& a > 2
    &&& a < s.len()
    &&& next_sep(s, a + 1, false) > a + 1
}

/// The length of the path's prefix (0 when it has none).
pub open spec fn prefix_len(s: Seq<char>) -> int {
    if is_verbatim_unc(s) {
        server_share_end(s, 8, true)
    } else if is_verbatim_disk(s) {
        6
    } else if is_verbatim(s) {
        next_sep(s, 4, true)
    } else if is_device(s) {
        next_sep(s, 4, false)
    } else if is_unc(s) {
        server_share_end(s, 2, false)
    } else if !starts_double_sep(s) && s.len() >= 2 && is_ascii_letter(s[0]) && s[1] == ':' {
        2
    } else {
        0
    }
}

/// Where the components begin: after the prefix and a separator that follows it (the root).
pub open spec fn body_start(s: Seq<char>) -> int {
    let p = prefix_len(s);
    if 0 <= p < s.len() && is_sep(s[p]) {
        p + 1
    } else {
        p
    }
}

/// Where the component that ends at `end` begins (never before `lo`).
pub open spec fn piece_start(s: Seq<char>, lo: int, end: int, verbatim: bool) -> int
    decreases end - lo,
{
    if end <= lo {
        lo
    } else if sep_in(verbatim, s[end - 1]) {
        end
    } else {
        piece_start(s, lo, end - 1, verbatim)
    }
}

/// The last component of `s[lo..end]`, skipping empty components, and `.`
/// outside verbatim paths.
pub open spec fn last_component(s: Seq<char>, lo: int, end: int, verbatim: bool) -> Option<Seq<char>>
    decreases end - lo,
{
    if end <= lo {
        None
    } else if sep_in(verbatim, s[end - 1]) {
        last_component(s, lo, end - 1, verbatim)
    } else {
        let st = piece_start(s, lo, end, verbatim);
        if st >= end || st < lo {
            None
        } else if !verbatim && s.subrange(st, end) == seq!['.'] {
            last_component(s, lo, st, verbatim)
        } else {
            Some(s.subrange(st, end))
        }
    }
}

/// The file name of a path: its last component, unless that is `.` or `..`.
pub open spec fn file_name_text(s: Seq<char>) -> Option<Seq<char>> {
    match last_component(s, body_start(s), s.len() as int, is_verbatim(s)) {
        Some(p) => if p == seq!['.', '.'] || p == seq!['.'] {
            None
        } else {
            Some(p)
        },
        None => None,
    }
}

fn is_sep_exec(c: char) -> (r: bool)
    ensures
        r == is_sep(c),
{
    c == '\\' || c == '/'
}

fn sep_in_exec(verbatim: bool, c: char) -> (r: bool)
    ensures
        r == sep_in(verbatim, c),
{
    if verbatim {
        c == '\\'
    } else {
        is_sep_exec(c)
    }
}

fn is_ascii_letter_exec(c: char) -> (r: bool)
    ensures
        r == is_ascii_letter(c),
{
    ('a' <= c && c <= 'z') || ('A' <= c && c <= 'Z')
}

fn next_sep_exec(v: &Vec<char>, i: usize, verbatim: bool) -> (r: usize)
    requires
        i <= v.len(),
    ensures
        r == next_sep(v@, i as int, verbatim),
        i <= r <= v.len(),
{
    let mut j = i;
    while j < v.len() && !sep_in_exec(verbatim, v[j])
        invariant
            i <= j <= v.len(),
            next_sep(v@, i as int, verbatim) == next_sep(v@, j as int, verbatim),
        decreases v.len() - j,
    {
        j = j + 1;
    }
    j
}

fn is_verbatim_exec(v: &Vec<char>) -> (r: bool)
    ensures
        r == is_verbatim(v@),
{
    v.len() >= 4 && v[0] == '\\' && v[1] == '\\' && v[2] == '?' && v[3] == '\\'
}

fn server_share_end_exec(v: &Vec<char>, i: usize, verbatim: bool) -> (r: usize)
    requires
        i <= v.len(),
    ensures
        r == server_share_end(v@, i as int, verbatim),
        r <= v.len(),
{
    let a = next_sep_exec(v, i, verbatim);
    if a >= v.len() {
        a
    } else {
        let b = next_sep_exec(v, a + 1, verbatim);
        if b > a + 1 {
            b
        } else {
            a
        }
    }
}

fn prefix_len_exec(v: &Vec<char>) -> (r: usize)
    ensures
        r == prefix_len(v@),
        r <= v.len(),
{
    let n = v.len();
    let verbatim = is_verbatim_exec(v);
    let double = n >= 2 && is_sep_exec(v[0]) && is_sep_exec(v[1]);
    let device = double && !verbatim && n >= 4 && v[2] == '.' && is_sep_exec(v[3]);
    if verbatim && n >= 8 && v[4] == 'U' && v[5] == 'N' && v[6] == 'C' && is_sep_exec(v[7]) {
        server_share_end_exec(v, 8, true)
    } else if verbatim && n >= 6 && is_ascii_letter_exec(v[4]) && v[5] == ':' && (n == 6
        || is_sep_exec(v[6])) {
        6
    } else if verbatim {
        next_sep_exec(v, 4, true)
    } else if device {
        next_sep_exec(v, 4, false)
    } else if double && next_sep_exec(v, 2, false) > 2 && next_sep_exec(v, 2, false) < n
        && next_sep_exec(v, next_sep_exec(v, 2, false) + 1, false) > next_sep_exec(v, 2, false) + 1 {
        server_share_end_exec(v, 2, false)
    } else if !double && n >= 2 && is_ascii_letter_exec(v[0]) && v[1] == ':' {
        2
    } else {
        0
    }
}

fn body_start_exec(v: &Vec<char>) -> (r: usize)
    ensures
        r == body_start(v@),
        r <= v.len(),
{
    let p = prefix_len_exec(v);
    if p < v.len() && is_sep_exec(v[p]) {
        p + 1
    } else {
        p
    }
}

fn last_component_exec(v: &Vec<char>, lo: usize, verbatim: bool) -> (r: Option<Vec<char>>)
    requires
        lo <= v.len(),
    ensures
        match r {
            Some(p) => last_component(v@, lo as int, v.len() as int, verbatim) == Some(p@),
            None => last_component(v@, lo as int, v.len() as int, verbatim) is None,
        },
{
    let mut end: usize = v.len();
    loop
        invariant
            lo <= end <= v.len(),
            last_component(v@, lo as int, v.len() as int, verbatim) == last_component(
                v@,
                lo as int,
                end as int,
                verbatim,
            ),
        decreases end,
    {
        if end <= lo {
            return None;
        }
        if sep_in_exec(verbatim, v[end - 1]) {
            end = end - 1;
        } else {
            let mut st: usize = end - 1;
            while st > lo && !sep_in_exec(verbatim, v[st - 1])
                invariant
                    lo <= st < end <= v.len(),
                    piece_start(v@, lo as int, end as int, verbatim) == piece_start(
                        v@,
                        lo as int,
                        st + 1,
                        verbatim,
                    ),
                    !sep_in(verbatim, v@[st as int]),
                decreases st,
            {
                st = st - 1;
            }
            assert(piece_start(v@, lo as int, st + 1, verbatim) == piece_start(
                v@,
                lo as int,
                st as int,
                verbatim,
            ));
            assert(piece_start(v@, lo as int, end as int, verbatim) == st);
            let mut piece: Vec<char> = Vec::new();
            let mut k: usize = st;
            while k < end
                invariant
                    st <= k <= end <= v.len(),
                    piece@ =~= v@.subrange(st as int, k as int),
                decreases end - k,
            {
                piece.push(v[k]);
                k = k + 1;
            }
            if !verbatim && piece.len() == 1 && piece[0] == '.' {
                assert(piece@ =~= seq!['.']);
                end = st;
            } else {
                assert(verbatim || piece@ != seq!['.']);
                return Some(piece);
            }
        }
    }
}

/// `Path::new(path).file_name()` for a Windows path.
pub fn file_name(path: &str) -> (r: Option<String>)
    ensures
        match r {
            Some(n) => file_name_text(path@) == Some(n@),
            None => file_name_text(path@) is None,
        },
{
    let v = chars_of(path);
    let lo = body_start_exec(&v);
    let verbatim = is_verbatim_exec(&v);
    match last_component_exec(&v, lo, verbatim) {
        Some(p) => {
            if (p.len() == 2 && p[0] == '.' && p[1] == '.') || (p.len() == 1 && p[0] == '.') {
                assert(p@ =~= seq!['.', '.'] || p@ =~= seq!['.']);
                None
            } else {
                assert(p@ != seq!['.', '.'] && p@ != seq!['.']);
                Some(string_from_chars(p.as_slice()))
            }
        },
        None => None,
    }
}

} // verus!
