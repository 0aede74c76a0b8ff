//! Decoding of the raw values in the system's TCP and UDP tables: port byte
//! order, connection states and the text form of IPv4 and IPv6 addresses.
use vstd::prelude::*;
use crate::text::{chars_of, decimal, decimal_chars, string_from_chars};

verus! {

/// The port in a table row: the low 16 bits of the word hold it in network
/// (big-endian) byte order, and the tables are read on a little-endian machine.
pub open spec fn port_of_dword(port: u32) -> nat {
    ((port % 256) * 256 + (port / 256) % 256) as nat
}

pub fn port_from_dword(port: u32) -> (r: u16)
    ensures
        r == port_of_dword(port),
{
    let lo: u32 = port % 256;
    let hi: u32 = (port / 256) % 256;
    (lo * 256 + hi) as u16
}

/// The name of a `MIB_TCP_STATE` value.
pub open spec fn tcp_state_text(state: u32) -> Seq<char> {
    if state == 1 {
        "CLOSED"@
    } else if state == 2 {
        "LISTENING"@
    } else if state == 3 {
        "SYN_SENT"@
    } else if state == 4 {
        "SYN_RECEIVED"@
    } else if state == 5 {
        "ESTABLISHED"@
    } else if state == 6 {
        "FIN_WAIT_1"@
    } else if state == 7 {
        "FIN_WAIT_2"@
    } else if state == 8 {
        "CLOSE_WAIT"@
    } else if state == 9 {
        "CLOSING"@
    } else if state == 10 {
        "LAST_ACK"@
    } else if state == 11 {
        "TIME_WAIT"@
    } else if state == 12 {
        "DELETE_TCB"@
    } else {
        "UNKNOWN"@
    }
}

pub fn tcp_state_name(state: u32) -> (r: &'static str)
    ensures
        r@ == tcp_state_text(state),
{
    if state == 1 {
        "CLOSED"
    } else if state == 2 {
        "LISTENING"
    } else if state == 3 {
        "SYN_SENT"
    } else if state == 4 {
        "SYN_RECEIVED"
    } else if state == 5 {
        "ESTABLISHED"
    } else if state == 6 {
        "FIN_WAIT_1"
    } else if state == 7 {
        "FIN_WAIT_2"
    } else if state == 8 {
        "CLOSE_WAIT"
    } else if state == 9 {
        "CLOSING"
    } else if state == 10 {
        "LAST_ACK"
    } else if state == 11 {
        "TIME_WAIT"
    } else if state == 12 {
        "DELETE_TCB"
    } else {
        "UNKNOWN"
    }
}

// ---------------------------------------------------------------------------
// IPv4
// ---------------------------------------------------------------------------

/// Byte `k` (0 = lowest) of a 32-bit word.
pub open spec fn byte_of(addr: u32, k: nat) -> nat {
    if k == 0 {
        (addr % 256) as nat
    } else if k == 1 {
        ((addr / 256) % 256) as nat
    } else if k == 2 {
        ((addr / 65536) % 256) as nat
    } else {
        ((addr / 16777216) % 256) as nat
    }
}

/// Dotted-decimal text of four octets.
pub open spec fn dotted(a: nat, b: nat, c: nat, d: nat) -> Seq<char> {
    decimal(a) + seq!['.'] + decimal(b) + seq!['.'] + decimal(c) + seq!['.'] + decimal(d)
}

/// The address in a table row: its octets in memory order, lowest byte first.
pub open spec fn ipv4_text(addr: u32) -> Seq<char> {
    dotted(byte_of(addr, 0), byte_of(addr, 1), byte_of(addr, 2), byte_of(addr, 3))
}

fn push_dotted(out: &mut Vec<char>, a: u32, b: u32, c: u32, d: u32)
    ensures
        final(out)@ == old(out)@ + dotted(a as nat, b as nat, c as nat, d as nat),
{
    let da = decimal_chars(a);
    let db = decimal_chars(b);
    let dc = decimal_chars(c);
    let dd = decimal_chars(d);
    let mut r: Vec<char> = Vec::new();
    append_chars(&mut r, da.as_slice());
    r.push('.');
    append_chars(&mut r, db.as_slice());
    r.push('.');
    append_chars(&mut r, dc.as_slice());
    r.push('.');
    append_chars(&mut r, dd.as_slice());
    assert(r@ =~= dotted(a as nat, b as nat, c as nat, d as nat));
    append_chars(out, r.as_slice());
}

pub fn ipv4_from_dword(addr: u32) -> (r: String)
    ensures
        r@ == ipv4_text(addr),
{
    let mut v: Vec<char> = Vec::new();
    push_dotted(&mut v, addr % 256, (addr / 256) % 256, (addr / 65536) % 256, (addr / 16777216) % 256);
    assert(v@ =~= ipv4_text(addr));
    string_from_chars(v.as_slice())
}

// ---------------------------------------------------------------------------
// IPv6 (RFC 5952 text, as `Display for Ipv6Addr` writes it)
// ---------------------------------------------------------------------------

/// The eight 16-bit segments of an address given as 16 bytes in network order.
pub open spec fn segment(addr: Seq<u8>, i: int) -> nat {
    (addr[2 * i] as nat) * 256 + (addr[2 * i + 1] as nat)
}

pub open spec fn segments(addr: Seq<u8>) -> Seq<nat> {
    Seq::new(8, |i: int| segment(addr, i))
}

pub open spec fn hex_char(d: nat) -> char {
    if d < 10 {
        (d + 48) as char
    } else {
        (d + 87) as char
    }
}

/// Lower-case hexadecimal digits of `n`, no leading zeros (`{:x}`).
pub open spec fn hex(n: nat) -> Seq<char>
    decreases n,
{
    if n < 16 {
        seq![hex_char(n)]
    } else {
        hex(n / 16).push(hex_char(n % 16))
    }
}

/// The segments in hexadecimal, separated by `:`.
pub open spec fn hex_join(s: Seq<nat>) -> Seq<char>
    decreases s.len(),
{
    if s.len() == 0 {
        Seq::empty()
    } else if s.len() == 1 {
        hex(s[0])
    } else {
        hex_join(s.drop_last()) + seq![':'] + hex(s.last())
    }
}

/// How many zero segments begin at position `i`.
pub open spec fn zero_run(s: Seq<nat>, i: int) -> nat
    decreases s.len() - i,
{
    if 0 <= i < s.len() && s[i] == 0 {
        1 + zero_run(s, i + 1)
    } else {
        0
    }
}

/// The first position, at or after `i`, where a longest run of zero segments begins.
pub open spec fn longest_zero_run_from(s: Seq<nat>, i: int) -> int
    decreases s.len() - i,
{
    if i >= s.len() {
        s.len() as int
    } else {
        let rest = longest_zero_run_from(s, i + 1);
        if zero_run(s, i) >= zero_run(s, rest) {
            i
        } else {
            rest
        }
    }
}

/// `::ffff:a.b.c.d`: an IPv4-mapped address.
pub open spec fn is_ipv4_mapped(s: Seq<nat>) -> bool {
    s[0] == 0 && s[1] == 0 && s[2] == 0 && s[3] == 0 && s[4] == 0 && s[5] == 0xffff
}

/// The text of an IPv6 address: IPv4-mapped addresses as `::ffff:` and dotted
/// decimal; otherwise hexadecimal segments, with the first longest run of two or
/// more zero segments written as `::`.
pub open spec fn ipv6_text(addr: Seq<u8>) -> Seq<char> {
    let s = segments(addr);
    if is_ipv4_mapped(s) {
        "::ffff:"@ + dotted(addr[12] as nat, addr[13] as nat, addr[14] as nat, addr[15] as nat)
    } else {
        let start = longest_zero_run_from(s, 0);
        let len = zero_run(s, start);
        if len > 1 {
            hex_join(s.subrange(0, start)) + seq![':', ':'] + hex_join(s.subrange(start + len, 8))
        } else {
            hex_join(s)
        }
    }
}

/// The text of an address with its zone: `addr%scope` when the scope is not 0.
pub open spec fn ipv6_scoped_text(addr: Seq<u8>, scope_id: u32) -> Seq<char> {
    if scope_id == 0 {
        ipv6_text(addr)
    } else {
        ipv6_text(addr) + seq!['%'] + decimal(scope_id as nat)
    }
}

pub fn append_chars(out: &mut Vec<char>, v: &[char])
    ensures
        final(out)@ == old(out)@ + v@,
{
    let mut i: usize = 0;
    while i < v.len()
        invariant
            i <= v.len(),
            out@ =~= old(out)@ + v@.take(i as int),
        decreases v.len() - i,
    {
        out.push(v[i]);
        i = i + 1;
    }
    assert(v@.take(v.len() as int) =~= v@);
}

fn hex_chars(n: u32) -> (r: Vec<char>)
    ensures
        r@ == hex(n as nat),
{
    let mut m: u32 = n;
    let mut tail: Vec<char> = Vec::new();
    while m >= 16
        invariant
            hex(n as nat) == hex(m as nat) + tail@,
        decreases m,
    {
        let d: u8 = (m % 16) as u8;
        let c = if d < 10 {
            (d + 48) as char
        } else {
            (d + 87) as char
        };
        proof {
            assert(hex(m as nat) == hex((m / 16) as nat).push(hex_char((m % 16) as nat)));
            assert(hex(m as nat) + tail@ =~= hex((m / 16) as nat) + seq![c] + tail@);
        }
        let ghost prev = tail@;
        tail.insert(0, c);
        assert(tail@ =~= seq![c] + prev);
        m = m / 16;
    }
    let d: u8 = m as u8;
    let c = if d < 10 {
        (d + 48) as char
    } else {
        (d + 87) as char
    };
    let mut r: Vec<char> = Vec::new();
    r.push(c);
    append_chars(&mut r, tail.as_slice());
    r
}

fn push_hex_join(out: &mut Vec<char>, segs: &[u32], from: usize, to: usize)
    requires
        from <= to <= segs.len(),
    ensures
        final(out)@ == old(out)@ + hex_join(segs@.subrange(from as int, to as int).map_values(|x: u32| x as nat)),
{
    let ghost f = |x: u32| x as nat;
    let mut i: usize = from;
    while i < to
        invariant
            from <= i <= to <= segs.len(),
            out@ == old(out)@ + hex_join(segs@.subrange(from as int, i as int).map_values(f)),
            f == (|x: u32| x as nat),
        decreases to - i,
    {
        let ghost before = segs@.subrange(from as int, i as int).map_values(f);
        let ghost after = segs@.subrange(from as int, i + 1).map_values(f);
        assert(after.drop_last() =~= before);
        assert(after.last() == segs@[i as int] as nat);
        if i > from {
            out.push(':');
        } else {
            assert(before.len() == 0);
        }
        let h = hex_chars(segs[i]);
        append_chars(out, h.as_slice());
        proof {
            if i > from {
                assert(hex_join(after) == hex_join(before) + seq![':'] + hex(after.last()));
                assert(out@ =~= old(out)@ + hex_join(after));
            } else {
                assert(after.len() == 1);
                assert(out@ =~= old(out)@ + hex_join(after));
            }
        }
        i = i + 1;
    }
}

proof fn lemma_zero_run_bound(s: Seq<nat>, i: int)
    requires
        0 <= i,
    ensures
        i + zero_run(s, i) <= s.len() || zero_run(s, i) == 0,
        zero_run(s, i) > 0 ==> i < s.len(),
    decreases s.len() - i,
{
    if 0 <= i < s.len() && s[i] == 0 {
        lemma_zero_run_bound(s, i + 1);
    }
}

proof fn lemma_longest_bound(s: Seq<nat>, i: int)
    requires
        0 <= i <= s.len(),
    ensures
        i <= longest_zero_run_from(s, i) <= s.len(),
    decreases s.len() - i,
{
    if i < s.len() {
        lemma_longest_bound(s, i + 1);
    }
}

pub fn ipv6_to_string(addr: [u8; 16], scope_id: u32) -> (r: String)
    ensures
        r@ == ipv6_scoped_text(addr@, scope_id),
{
    let mut segs: Vec<u32> = Vec::new();
    let mut i: usize = 0;
    while i < 8
        invariant
            i <= 8,
            segs@.len() == i,
            forall|k: int| 0 <= k < i ==> segs@[k] as nat == segment(addr@, k),
        decreases 8 - i,
    {
        segs.push(addr[2 * i] as u32 * 256 + addr[2 * i + 1] as u32);
        i = i + 1;
    }
    let ghost s = segments(addr@);
    let ghost f = |x: u32| x as nat;
    assert(segs@.map_values(f) =~= s);
    let mut out: Vec<char> = Vec::new();
    if segs[0] == 0 && segs[1] == 0 && segs[2] == 0 && segs[3] == 0 && segs[4] == 0 && segs[5]
        == 0xffff {
        let prefix = chars_of("::ffff:");
        append_chars(&mut out, prefix.as_slice());
        push_dotted(&mut out, addr[12] as u32, addr[13] as u32, addr[14] as u32, addr[15] as u32);
    } else {
        // Find the first longest run of zero segments, scanning from the end so that
        // the earliest of equally long runs wins.
        let mut best: usize = 8;
        let mut best_len: usize = 0;
        let mut run: usize = 0;
        let mut j: usize = 8;
        while j > 0
            invariant
                j <= 8,
                segs@.len() == 8,
                s == segs@.map_values(f),
                f == (|x: u32| x as nat),
                run == zero_run(s, j as int),
                run + j <= 8,
                best == longest_zero_run_from(s, j as int),
                best_len == zero_run(s, best as int),
                best <= 8,
            decreases j,
        {
            j = j - 1;
            if segs[j] == 0 {
                run = run + 1;
            } else {
                run = 0;
            }
            proof {
                lemma_zero_run_bound(s, j as int);
            }
            if run >= best_len {
                best = j;
                best_len = run;
            }
        }
        proof {
            lemma_longest_bound(s, 0);
            lemma_zero_run_bound(s, best as int);
        }
        if best_len > 1 {
            push_hex_join(&mut out, segs.as_slice(), 0, best);
            out.push(':');
            out.push(':');
            push_hex_join(&mut out, segs.as_slice(), best + best_len, 8);
            assert(segs@.subrange(0, best as int).map_values(f) =~= s.subrange(0, best as int));
            assert(segs@.subrange(best + best_len, 8).map_values(f) =~= s.subrange(
                best + best_len,
                8,
            ));
        } else {
            push_hex_join(&mut out, segs.as_slice(), 0, 8);
            assert(segs@.subrange(0, 8) =~= segs@);
        }
    }
    if scope_id != 0 {
        out.push('%');
        let d = decimal_chars(scope_id);
        append_chars(&mut out, d.as_slice());
    }
    assert(out@ =~= ipv6_scoped_text(addr@, scope_id));
    string_from_chars(out.as_slice())
}

} // verus!
