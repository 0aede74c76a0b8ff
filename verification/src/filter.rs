//! Selecting the endpoints that a `PortFilter` asks for.
use vstd::prelude::*;
use crate::classify::{kind_label, process_type_label};
use crate::model::{PortEntry, PortFilter};
use crate::text::{
    ascii_lower, ascii_upper, chars_of, contains_exec, contains_text, decimal, decimal_chars,
    eq_chars, eq_ignore_case, eq_ignore_case_exec, lower_chars, lower_of, trim_chars, trimmed,
    upper_chars,
};

verus! {

broadcast use vstd::seq_lib::group_seq_properties;

pub open spec fn text_or(o: Option<String>, default: Seq<char>) -> Seq<char> {
    match o {
        Some(s) => s@,
        None => default,
    }
}

/// The protocol asked for, lowered; `"all"` when none is given.
pub open spec fn wanted_protocol(f: PortFilter) -> Seq<char> {
    ascii_lower(text_or(f.protocol, "all"@))
}

/// The state asked for, upper-cased; empty when none is given.
pub open spec fn wanted_state(f: PortFilter) -> Seq<char> {
    ascii_upper(text_or(f.state, Seq::empty()))
}

/// The search text, trimmed and lowered; empty when none is given.
pub open spec fn wanted_query(f: PortFilter) -> Seq<char> {
    ascii_lower(trimmed(text_or(f.query, Seq::empty())))
}

/// The search text occurs in one of the entry's fields: the ports and the pid in
/// decimal, or the (lowered) process, path, user, command, kind label, kind,
/// addresses and state. An empty search text matches every entry.
pub open spec fn query_matches(e: PortEntry, q: Seq<char>) -> bool {
    ||| q.len() == 0
    ||| contains_text(decimal(e.local_port as nat), q)
    ||| contains_text(decimal(e.remote_port as nat), q)
    ||| contains_text(decimal(e.pid as nat), q)
    ||| contains_text(ascii_lower(e.process@), q)
    ||| contains_text(ascii_lower(e.path@), q)
    ||| contains_text(ascii_lower(e.user@), q)
    ||| contains_text(ascii_lower(e.command@), q)
    ||| contains_text(ascii_lower(kind_label(e.process_type@)), q)
    ||| contains_text(ascii_lower(e.process_type@), q)
    ||| contains_text(ascii_lower(e.local_addr@), q)
    ||| contains_text(ascii_lower(e.remote_addr@), q)
    ||| contains_text(ascii_lower(e.state@), q)
}

/// An entry passes the filter: protocol (unless `all` or empty), state (unless
/// empty), listeners only (UDP rows and rows in state LISTENING), port and search text.
pub open spec fn entry_matches(e: PortEntry, f: PortFilter) -> bool {
    let protocol = wanted_protocol(f);
    let state = wanted_state(f);
    &&& protocol == "all"@ || protocol.len() == 0 || eq_ignore_case(e.protocol@, protocol)
    &&& state.len() == 0 || eq_ignore_case(e.state@, state)
    &&& !f.listeners_only || e.protocol@ == "UDP"@ || eq_ignore_case(e.state@, "LISTENING"@)
    &&& match f.port {
        Some(p) => e.local_port == p,
        None => true,
    }
    &&& query_matches(e, wanted_query(f))
}

/// The entries that pass the filter, in their order.
pub open spec fn filtered(entries: Seq<PortEntry>, f: PortFilter) -> Seq<PortEntry> {
    entries.filter(|e: PortEntry| entry_matches(e, f))
}

fn text_or_exec(o: &Option<String>, default: &str) -> (r: Vec<char>)
    ensures
        r@ == text_or(*o, default@),
{
    match o {
        Some(s) => chars_of(s.as_str()),
        None => chars_of(default),
    }
}

fn contains_lowered(field: &str, q: &Vec<char>) -> (r: bool)
    ensures
        r == contains_text(ascii_lower(field@), q@),
{
    let l = lower_of(field);
    contains_exec(l.as_slice(), q.as_slice())
}

fn contains_decimal(n: u32, q: &Vec<char>) -> (r: bool)
    ensures
        r == contains_text(decimal(n as nat), q@),
{
    let d = decimal_chars(n);
    contains_exec(d.as_slice(), q.as_slice())
}

fn query_matches_exec(e: &PortEntry, q: &Vec<char>) -> (r: bool)
    ensures
        r == query_matches(*e, q@),
{
    if q.len() == 0 {
        return true;
    }
    let label = process_type_label(e.process_type.as_str());
    contains_decimal(e.local_port as u32, q) || contains_decimal(e.remote_port as u32, q)
        || contains_decimal(e.pid, q) || contains_lowered(e.process.as_str(), q)
        || contains_lowered(e.path.as_str(), q) || contains_lowered(e.user.as_str(), q)
        || contains_lowered(e.command.as_str(), q) || contains_lowered(label, q)
        || contains_lowered(e.process_type.as_str(), q) || contains_lowered(e.local_addr.as_str(), q)
        || contains_lowered(e.remote_addr.as_str(), q) || contains_lowered(e.state.as_str(), q)
}

fn entry_matches_exec(
    e: &PortEntry,
    f: &PortFilter,
    protocol: &Vec<char>,
    state: &Vec<char>,
    query: &Vec<char>,
) -> (r: bool)
    requires
        protocol@ == wanted_protocol(*f),
        state@ == wanted_state(*f),
        query@ == wanted_query(*f),
    ensures
        r == entry_matches(*e, *f),
{
    let all = chars_of("all");
    let proto_ok = eq_chars(protocol.as_slice(), all.as_slice()) || protocol.len() == 0 || {
        let p = chars_of(e.protocol.as_str());
        eq_ignore_case_exec(p.as_slice(), protocol.as_slice())
    };
    if !proto_ok {
        return false;
    }
    let st = chars_of(e.state.as_str());
    let state_ok = state.len() == 0 || eq_ignore_case_exec(st.as_slice(), state.as_slice());
    if !state_ok {
        return false;
    }
    let listen_ok = !f.listeners_only || {
        let p = chars_of(e.protocol.as_str());
        let udp = chars_of("UDP");
        eq_chars(p.as_slice(), udp.as_slice())
    } || {
        let listening = chars_of("LISTENING");
        eq_ignore_case_exec(st.as_slice(), listening.as_slice())
    };
    if !listen_ok {
        return false;
    }
    let port_ok = match f.port {
        Some(p) => e.local_port == p,
        None => true,
    };
    if !port_ok {
        return false;
    }
    query_matches_exec(e, query)
}

pub fn apply_filter(entries: Vec<PortEntry>, filter: &PortFilter) -> (r: Vec<PortEntry>)
    ensures
        r@ == filtered(entries@, *filter),
{
    let p = text_or_exec(&filter.protocol, "all");
    let protocol = lower_chars(p.as_slice());
    let s = text_or_exec(&filter.state, "");
    let state = upper_chars(s.as_slice());
    let q = text_or_exec(&filter.query, "");
    let qt = trim_chars(q.as_slice());
    let query = lower_chars(qt.as_slice());
    proof {
        reveal_strlit("");
        assert(""@ =~= Seq::<char>::empty());
    }
    let ghost pred = |e: PortEntry| entry_matches(e, *filter);
    let mut out: Vec<PortEntry> = Vec::new();
    let mut i: usize = 0;
    while i < entries.len()
        invariant
            i <= entries.len(),
            protocol@ == wanted_protocol(*filter),
            state@ == wanted_state(*filter),
            query@ == wanted_query(*filter),
            pred == (|e: PortEntry| entry_matches(e, *filter)),
            out@ == entries@.take(i as int).filter(pred),
        decreases entries.len() - i,
    {
        assert(entries@.take(i + 1) =~= entries@.take(i as int).push(entries@[i as int]));
        proof {
            entries@.take(i as int).lemma_filter_push(entries@[i as int], pred);
        }
        if entry_matches_exec(&entries[i], filter, &protocol, &state, &query) {
            out.push(entries[i].clone());
        }
        i = i + 1;
    }
    assert(entries@.take(entries.len() as int) =~= entries@);
    out
}

/// The listed entries that pass the filter; a failure to list is passed on.
pub fn list_filtered_ports(listed: Result<Vec<PortEntry>, String>, filter: &PortFilter) -> (r:
    Result<Vec<PortEntry>, String>)
    ensures
        match listed {
            Ok(entries) => r matches Ok(kept) && kept@ == filtered(entries@, *filter),
            Err(e) => r == Err::<Vec<PortEntry>, String>(e),
        },
{
    match listed {
        Ok(entries) => Ok(apply_filter(entries, filter)),
        Err(e) => Err(e),
    }
}

} // verus!
