//! UTF-16, as the system hands out process names and paths and takes
//! NUL-terminated wide strings.
use vstd::prelude::*;
use crate::text::string_from_chars;

verus! {

pub open spec fn is_high_surrogate(u: u16) -> bool {
    0xD800 <= u && u <= 0xDBFF
}

pub open spec fn is_low_surrogate(u: u16) -> bool {
    0xDC00 <= u && u <= 0xDFFF
}

pub open spec fn is_surrogate(u: u16) -> bool {
    0xD800 <= u && u <= 0xDFFF
}

/// The code point of a surrogate pair.
pub open spec fn pair_code(hi: u16, lo: u16) -> int {
    0x10000 + (hi - 0xD800) * 1024 + (lo - 0xDC00)
}

pub open spec fn replacement() -> char {
    '\u{FFFD}'
}

/// `String::from_utf16_lossy`: units decoded in order; a high surrogate followed
/// by a low one is one character, and any other surrogate becomes U+FFFD.
pub open spec fn utf16_decode(u: Seq<u16>) -> Seq<char>
    decreases u.len(),
{
    if u.len() == 0 {
        Seq::empty()
    } else if !is_surrogate(u[0]) {
        seq![(u[0] as int) as char] + utf16_decode(u.drop_first())
    } else if is_high_surrogate(u[0]) && u.len() > 1 && is_low_surrogate(u[1]) {
        seq![pair_code(u[0], u[1]) as char] + utf16_decode(u.skip(2))
    } else {
        seq![replacement()] + utf16_decode(u.drop_first())
    }
}

/// The UTF-16 units of one character.
pub open spec fn encode_char(c: char) -> Seq<u16> {
    let v = c as int;
    if v < 0x10000 {
        seq![v as u16]
    } else {
        seq![(0xD800 + (v - 0x10000) / 1024) as u16, (0xDC00 + (v - 0x10000) % 1024) as u16]
    }
}

/// `str::encode_utf16`.
pub open spec fn utf16_encode(s: Seq<char>) -> Seq<u16>
    decreases s.len(),
{
    if s.len() == 0 {
        Seq::empty()
    } else {
        encode_char(s[0]) + utf16_encode(s.drop_first())
    }
}

/// The units before the first NUL (all of them when there is none).
pub open spec fn until_nul(u: Seq<u16>) -> Seq<u16>
    decreases u.len(),
{
    if u.len() == 0 {
        u
    } else if u[0] == 0 {
        Seq::empty()
    } else {
        seq![u[0]] + until_nul(u.drop_first())
    }
}

pub open spec fn is_scalar(v: u32) -> bool {
    v <= 0x10FFFF && !(0xD800 <= v && v <= 0xDFFF)
}

/// `char::from_u32`: the character with code `v`, when `v` is a Unicode scalar value.
#[verifier::external_body]
fn char_from_u32(v: u32) -> (r: Option<char>)
    ensures
        r == (if is_scalar(v) {
            Some((v as int) as char)
        } else {
            None
        }),
{
    char::from_u32(v)
}

pub fn utf16_decode_exec(u: &[u16]) -> (r: Vec<char>)
    ensures
        r@ == utf16_decode(u@),
{
    let mut out: Vec<char> = Vec::new();
    let mut i: usize = 0;
    assert(u@.skip(0) =~= u@);
    while i < u.len()
        invariant
            i <= u.len(),
            utf16_decode(u@) == out@ + utf16_decode(u@.skip(i as int)),
        decreases u.len() - i,
    {
        let ghost rest = u@.skip(i as int);
        let w = u[i];
        assert(rest[0] == w);
        if w < 0xD800 || w > 0xDFFF {
            let c = match char_from_u32(w as u32) {
                Some(c) => c,
                None => '\u{FFFD}',
            };
            assert(rest.drop_first() =~= u@.skip(i + 1));
            assert(c == (w as int) as char);
            let ghost before = out@;
            out.push(c);
            assert(before + (seq![c] + utf16_decode(u@.skip(i + 1))) =~= out@ + utf16_decode(u@.skip(i + 1)));
            i = i + 1;
        } else if w <= 0xDBFF && i + 1 < u.len() && u[i + 1] >= 0xDC00 && u[i + 1] <= 0xDFFF {
            let lo = u[i + 1];
            assert(rest[1] == lo);
            let code: u32 = 0x10000 + ((w as u32) - 0xD800) * 1024 + ((lo as u32) - 0xDC00);
            let c = match char_from_u32(code) {
                Some(c) => c,
                None => '\u{FFFD}',
            };
            assert(rest.skip(2) =~= u@.skip(i + 2));
            assert(c == pair_code(w, lo) as char);
            let ghost before = out@;
            out.push(c);
            assert(before + (seq![c] + utf16_decode(u@.skip(i + 2))) =~= out@ + utf16_decode(u@.skip(i + 2)));
            i = i + 2;
        } else {
            assert(rest.drop_first() =~= u@.skip(i + 1));
            let ghost before = out@;
            out.push('\u{FFFD}');
            assert(before + (seq![replacement()] + utf16_decode(u@.skip(i + 1))) =~= out@ + utf16_decode(u@.skip(i + 1)));
            i = i + 1;
        }
    }
    assert(u@.skip(i as int) =~= Seq::<u16>::empty());
    assert(out@ + Seq::<char>::empty() =~= out@);
    out
}

/// `String::from_utf16_lossy`.
pub fn string_from_utf16_lossy(units: &[u16]) -> (r: String)
    ensures
        r@ == utf16_decode(units@),
{
    let chars = utf16_decode_exec(units);
    string_from_chars(chars.as_slice())
}

/// `String::from_utf16_lossy` of the units up to the first NUL.
pub fn process_entry_name(buffer: &[u16]) -> (r: String)
    ensures
        r@ == utf16_decode(until_nul(buffer@)),
{
    let mut len: usize = 0;
    while len < buffer.len() && buffer[len] != 0
        invariant
            len <= buffer.len(),
            forall|k: int| 0 <= k < len ==> buffer@[k] != 0,
        decreases buffer.len() - len,
    {
        len = len + 1;
    }
    proof {
        lemma_until_nul_at(buffer@, len as int);
    }
    let mut units: Vec<u16> = Vec::new();
    let mut k: usize = 0;
    while k < len
        invariant
            k <= len <= buffer.len(),
            units@ =~= buffer@.take(k as int),
        decreases len - k,
    {
        units.push(buffer[k]);
        k = k + 1;
    }
    string_from_utf16_lossy(units.as_slice())
}

proof fn lemma_until_nul_at(u: Seq<u16>, n: int)
    requires
        0 <= n <= u.len(),
        forall|k: int| 0 <= k < n ==> u[k] != 0,
        n == u.len() || u[n] == 0,
    ensures
        until_nul(u) == u.take(n),
    decreases u.len(),
{
    if u.len() == 0 {
        assert(u.take(n) =~= u);
    } else if u[0] == 0 {
        assert(u.take(n) =~= Seq::<u16>::empty());
    } else {
        lemma_until_nul_at(u.drop_first(), n - 1);
        assert(u.take(n) =~= seq![u[0]] + u.drop_first().take(n - 1));
    }
}

fn push_encoded(out: &mut Vec<u16>, c: char)
    ensures
        final(out)@ == old(out)@ + encode_char(c),
{
    let v = c as u32;
    if v < 0x10000 {
        out.push(v as u16);
    } else {
        let w = v - 0x10000;
        out.push((0xD800 + w / 1024) as u16);
        out.push((0xDC00 + w % 1024) as u16);
    }
}

/// `value.encode_utf16()` followed by a terminating NUL.
pub fn wide_null(value: &str) -> (r: Vec<u16>)
    ensures
        r@ == utf16_encode(value@).push(0),
{
    let chars = crate::text::chars_of(value);
    let mut out: Vec<u16> = Vec::new();
    let mut i: usize = 0;
    assert(value@.skip(0) =~= value@);
    assert(out@ + utf16_encode(value@) =~= utf16_encode(value@));
    while i < chars.len()
        invariant
            i <= chars.len(),
            chars@ == value@,
            utf16_encode(value@) == out@ + utf16_encode(value@.skip(i as int)),
        decreases chars.len() - i,
    {
        proof {
            assert(value@.skip(i as int).drop_first() =~= value@.skip(i + 1));
            assert(value@.skip(i as int)[0] == value@[i as int]);
        }
        let ghost before = out@;
        push_encoded(&mut out, chars[i]);
        assert(before + utf16_encode(value@.skip(i as int)) =~= out@ + utf16_encode(value@.skip(i + 1)));
        i = i + 1;
    }
    assert(value@.skip(i as int) =~= Seq::<char>::empty());
    assert(out@ + Seq::<u16>::empty() =~= out@);
    out.push(0);
    out
}

proof fn lemma_decode_char(c: char, t: Seq<u16>)
    ensures
        utf16_decode(encode_char(c) + t) == seq![c] + utf16_decode(t),
{
    let v = c as int;
    let e = encode_char(c) + t;
    if v < 0x10000 {
        assert(e[0] == v as u16);
        assert(!is_surrogate(e[0]));
        assert(e.drop_first() =~= t);
        assert(((v as u16) as int) as char == c);
    } else {
        let hi = (0xD800 + (v - 0x10000) / 1024) as u16;
        let lo = (0xDC00 + (v - 0x10000) % 1024) as u16;
        assert(e[0] == hi && e[1] == lo);
        assert(e.skip(2) =~= t);
        assert(pair_code(hi, lo) == v);
    }
}

/// Decoding the UTF-16 encoding of a text gives the text back.
pub proof fn law_utf16_round_trip(s: Seq<char>)
    ensures
        utf16_decode(utf16_encode(s)) == s,
    decreases s.len(),
{
    if s.len() > 0 {
        law_utf16_round_trip(s.drop_first());
        lemma_decode_char(s[0], utf16_encode(s.drop_first()));
        assert(s =~= seq![s[0]] + s.drop_first());
    } else {
        assert(utf16_encode(s) =~= Seq::<u16>::empty());
    }
}

proof fn lemma_char_range(c: char)
    ensures
        0 <= c as int <= 0x10FFFF,
        !(0xD800 <= c as int <= 0xDFFF),
        c != '\0' ==> c as int != 0,
{
}

proof fn lemma_until_nul_encoded(s: Seq<char>)
    requires
        forall|i: int| 0 <= i < s.len() ==> s[i] != '\0',
    ensures
        until_nul(utf16_encode(s).push(0)) == utf16_encode(s),
    decreases s.len(),
{
    if s.len() == 0 {
        assert(utf16_encode(s).push(0) =~= seq![0u16]);
        assert(seq![0u16].drop_first() =~= Seq::<u16>::empty());
    } else {
        let e = encode_char(s[0]);
        let rest = utf16_encode(s.drop_first());
        assert(s[0] != '\0');
        lemma_char_range(s[0]);
        assert((s[0] as int) != 0);
        assert(e[0] != 0);
        assert(e.len() == 2 ==> e[1] != 0);
        lemma_until_nul_encoded(s.drop_first());
        let x = e + rest.push(0);
        assert(utf16_encode(s).push(0) =~= x);
        assert(utf16_encode(s) == e + rest);
        assert(x[0] == e[0]);
        assert(until_nul(x) == seq![x[0]] + until_nul(x.drop_first()));
        if e.len() == 1 {
            assert(x.drop_first() =~= rest.push(0));
            assert(e + rest =~= seq![e[0]] + rest);
        } else {
            let tail = seq![e[1]] + rest.push(0);
            assert(x.drop_first() =~= tail);
            assert(tail[0] == e[1]);
            assert(until_nul(tail) == seq![tail[0]] + until_nul(tail.drop_first()));
            assert(tail.drop_first() =~= rest.push(0));
            assert(e + rest =~= seq![e[0]] + (seq![e[1]] + rest));
        }
    }
}

/// A name without NUL characters, written as a NUL-terminated wide string, is read back unchanged.
pub proof fn law_wide_name_round_trip(s: Seq<char>)
    requires
        forall|i: int| 0 <= i < s.len() ==> s[i] != '\0',
    ensures
        utf16_decode(until_nul(utf16_encode(s).push(0))) == s,
{
    lemma_until_nul_encoded(s);
    law_utf16_round_trip(s);
}

} // verus!
