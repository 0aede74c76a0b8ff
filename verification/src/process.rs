//! Processes behind the endpoints: which may be ended, how a process is
//! described from what the system reports, how endpoint rows are assembled,
//! and the owner and command-line details asked for on demand.
use vstd::prelude::*;
use std::collections::HashMap;
use crate::classify::{detect_process_type, process_kind};
use crate::model::{PortEntry, ProcessDetailRequest, ProcessDetails, ProcessInfo};
use crate::text::{chars_of, concat2, decimal, decimal_string, owned, push_chars, string_from_chars};
use crate::utf16::{process_entry_name, until_nul, utf16_decode};
use crate::winpath::{file_name, file_name_text};

verus! {

broadcast use vstd::std_specs::hash::group_hash_axioms;

// ---------------------------------------------------------------------------
// Ending processes
// ---------------------------------------------------------------------------

/// Why a process may not be ended: the idle process (pid 0), the System
/// process (pid 4) and this program itself are protected.
pub open spec fn deny_text(pid: u32, current_pid: u32) -> Option<Seq<char>> {
    if pid == 0 {
        Some("PID 0 是系统 Idle 进程，不允许结束。"@)
    } else if pid == 4 {
        Some("PID 4 是 Windows System 进程，不允许结束。"@)
    } else if pid == current_pid {
        Some("不允许结束 portKill 自己的进程。"@)
    } else {
        None
    }
}

pub fn termination_deny_reason(pid: u32, current_pid: u32) -> (r: Option<String>)
    ensures
        match r {
            Some(s) => deny_text(pid, current_pid) == Some(s@),
            None => deny_text(pid, current_pid) is None,
        },
{
    if pid == 0 {
        Some(owned("PID 0 是系统 Idle 进程，不允许结束。"))
    } else if pid == 4 {
        Some(owned("PID 4 是 Windows System 进程，不允许结束。"))
    } else if pid == current_pid {
        Some(owned("不允许结束 portKill 自己的进程。"))
    } else {
        None
    }
}

// ---------------------------------------------------------------------------
// Describing a process
// ---------------------------------------------------------------------------

/// The name shown for a process other than pid 0 and 4: the file name of its
/// image path, else the name from the process snapshot, else `PID <pid>`.
pub open spec fn shown_name(pid: u32, image_path: Seq<char>, names: Map<u32, String>) -> Seq<char> {
    match file_name_text(image_path) {
        Some(n) => n,
        None => if names.contains_key(pid) {
            names[pid]@
        } else {
            "PID "@ + decimal(pid as nat)
        },
    }
}

/// `info` describes process `pid`, given the image path the system reported
/// (empty when it could not be read) and the snapshot names.
pub open spec fn info_is(info: ProcessInfo, pid: u32, image_path: Seq<char>, names: Map<u32, String>) -> bool {
    if pid == 0 {
        &&& info.process@ == "Idle"@
        &&& info.path@ == Seq::<char>::empty()
        &&& info.user@ == Seq::<char>::empty()
        &&& info.command@ == Seq::<char>::empty()
    } else if pid == 4 {
        &&& info.process@ == "System"@
        &&& info.path@ == Seq::<char>::empty()
        &&& info.user@ == "NT AUTHORITY\\SYSTEM"@
        &&& info.command@ == Seq::<char>::empty()
    } else {
        &&& info.process@ == shown_name(pid, image_path, names)
        &&& info.path@ == image_path
        &&& info.user@ == Seq::<char>::empty()
        &&& info.command@ == Seq::<char>::empty()
    }
}

pub fn query_process_info(pid: u32, image_path: String, process_names: &HashMap<u32, String>) -> (r:
    ProcessInfo)
    ensures
        info_is(r, pid, image_path@, process_names@),
{
    if pid == 0 {
        return ProcessInfo {
            process: owned("Idle"),
            path: String::new(),
            user: String::new(),
            command: String::new(),
        };
    }
    if pid == 4 {
        return ProcessInfo {
            process: owned("System"),
            path: String::new(),
            user: owned("NT AUTHORITY\\SYSTEM"),
            command: String::new(),
        };
    }
    let process = match file_name(image_path.as_str()) {
        Some(n) => n,
        None => match process_names.get(&pid) {
            Some(n) => n.clone(),
            None => {
                let d = decimal_string(pid);
                concat2("PID ", d.as_str())
            },
        },
    };
    ProcessInfo { process, path: image_path, user: String::new(), command: String::new() }
}

/// Keeps the description of process `pid` unless one is already known: each
/// process is asked about once per listing.
pub fn remember_process_info(cache: &mut HashMap<u32, ProcessInfo>, pid: u32, info: ProcessInfo)
    ensures
        old(cache)@.contains_key(pid) ==> final(cache)@ == old(cache)@,
        !old(cache)@.contains_key(pid) ==> final(cache)@ == old(cache)@.insert(pid, info),
{
    if !cache.contains_key(&pid) {
        cache.insert(pid, info);
    }
}

/// The pids of `pids` that have no description in `known`, each once, in order of
/// first occurrence: the processes still to ask about.
pub open spec fn fresh_pids(pids: Seq<u32>, known: Map<u32, ProcessInfo>) -> Seq<u32>
    decreases pids.len(),
{
    if pids.len() == 0 {
        Seq::empty()
    } else {
        let prev = fresh_pids(pids.drop_last(), known);
        let p = pids.last();
        if known.contains_key(p) || prev.contains(p) {
            prev
        } else {
            prev.push(p)
        }
    }
}

fn holds(v: &Vec<u32>, p: u32) -> (r: bool)
    ensures
        r == v@.contains(p),
{
    let mut i: usize = 0;
    while i < v.len()
        invariant
            i <= v.len(),
            forall|k: int| 0 <= k < i ==> v@[k] != p,
        decreases v.len() - i,
    {
        if v[i] == p {
            return true;
        }
        i = i + 1;
    }
    false
}

pub fn pids_to_describe(cache: &HashMap<u32, ProcessInfo>, pids: &[u32]) -> (r: Vec<u32>)
    ensures
        r@ == fresh_pids(pids@, cache@),
{
    let mut out: Vec<u32> = Vec::new();
    let mut i: usize = 0;
    assert(pids@.take(0) =~= Seq::<u32>::empty());
    while i < pids.len()
        invariant
            i <= pids.len(),
            out@ == fresh_pids(pids@.take(i as int), cache@),
        decreases pids.len() - i,
    {
        let p = pids[i];
        assert(pids@.take(i + 1).drop_last() =~= pids@.take(i as int));
        assert(pids@.take(i + 1).last() == p);
        if !cache.contains_key(&p) && !holds(&out, p) {
            out.push(p);
        }
        i = i + 1;
    }
    assert(pids@.take(pids.len() as int) =~= pids@);
    out
}

/// Records the name from one process snapshot entry, unless it is empty.
pub fn record_process_name(names: &mut HashMap<u32, String>, pid: u32, exe_file: &[u16])
    ensures
        utf16_decode(until_nul(exe_file@)).len() == 0 ==> final(names)@ == old(names)@,
        utf16_decode(until_nul(exe_file@)).len() != 0 ==> {
            &&& final(names)@ == old(names)@.insert(pid, final(names)@[pid])
            &&& final(names)@[pid]@ == utf16_decode(until_nul(exe_file@))
        },
{
    let name = process_entry_name(exe_file);
    let v = chars_of(name.as_str());
    if v.len() != 0 {
        names.insert(pid, name);
    }
}

/// `domain\account`, or the account alone when there is no domain.
pub open spec fn account_text(domain: Seq<char>, account: Seq<char>) -> Seq<char> {
    if domain.len() == 0 {
        account
    } else {
        domain + seq!['\\'] + account
    }
}

pub fn account_name(domain: &str, account: &str) -> (r: String)
    ensures
        r@ == account_text(domain@, account@),
{
    let d = chars_of(domain);
    if d.len() == 0 {
        owned(account)
    } else {
        let mut r = string_from_chars(d.as_slice());
        let sep = chars_of("\\");
        proof {
            reveal_strlit("\\");
        }
        push_chars(&mut r, sep.as_slice());
        let a = chars_of(account);
        push_chars(&mut r, a.as_slice());
        r
    }
}

/// The WQL query for a process's command line.
pub open spec fn command_query_text(pid: u32) -> Seq<char> {
    "SELECT CommandLine FROM Win32_Process WHERE ProcessId = "@ + decimal(pid as nat)
}

pub fn command_line_query(pid: u32) -> (r: String)
    ensures
        r@ == command_query_text(pid),
{
    let d = decimal_string(pid);
    concat2("SELECT CommandLine FROM Win32_Process WHERE ProcessId = ", d.as_str())
}

/// A text value the system returned; an empty one counts as absent.
pub fn non_empty_text(value: String) -> (r: Option<String>)
    ensures
        match r {
            Some(s) => s@ == value@ && value@.len() > 0,
            None => value@.len() == 0,
        },
{
    let v = chars_of(value.as_str());
    if v.len() == 0 {
        None
    } else {
        Some(value)
    }
}

// ---------------------------------------------------------------------------
// Endpoint rows
// ---------------------------------------------------------------------------

pub open spec fn deny_or_empty(pid: u32, current_pid: u32) -> Seq<char> {
    match deny_text(pid, current_pid) {
        Some(t) => t,
        None => Seq::empty(),
    }
}

/// `e` is the row for an endpoint with these values, owned by the process `info` describes.
pub open spec fn entry_is(
    e: PortEntry,
    protocol: Seq<char>,
    local_addr: Seq<char>,
    local_port: u16,
    remote_addr: Seq<char>,
    remote_port: u16,
    state: Seq<char>,
    pid: u32,
    current_pid: u32,
    info: ProcessInfo,
) -> bool {
    &&& e.protocol@ == protocol
    &&& e.local_addr@ == local_addr
    &&& e.local_port == local_port
    &&& e.remote_addr@ == remote_addr
    &&& e.remote_port == remote_port
    &&& e.state@ == state
    &&& e.pid == pid
    &&& e.process@ == info.process@
    &&& e.path@ == info.path@
    &&& e.user@ == info.user@
    &&& e.command@ == info.command@
    &&& e.process_type@ == process_kind(info.process@, info.path@, info.command@)
    &&& e.deny_reason@ == deny_or_empty(pid, current_pid)
    &&& e.can_terminate == (deny_text(pid, current_pid) is None)
}

proof fn lemma_deny_texts_not_empty()
    ensures
        "PID 0 是系统 Idle 进程，不允许结束。"@.len() > 0,
        "PID 4 是 Windows System 进程，不允许结束。"@.len() > 0,
        "不允许结束 portKill 自己的进程。"@.len() > 0,
{
    reveal_strlit("PID 0 是系统 Idle 进程，不允许结束。");
    reveal_strlit("PID 4 是 Windows System 进程，不允许结束。");
    reveal_strlit("不允许结束 portKill 自己的进程。");
}

#[allow(clippy::too_many_arguments)]
pub fn push_entry(
    entries: &mut Vec<PortEntry>,
    protocol: &str,
    local_addr: String,
    local_port: u16,
    remote_addr: String,
    remote_port: u16,
    state: String,
    pid: u32,
    current_pid: u32,
    info: &ProcessInfo,
)
    ensures
        final(entries)@.len() == old(entries)@.len() + 1,
        final(entries)@.take(old(entries)@.len() as int) == old(entries)@,
        entry_is(
            final(entries)@.last(),
            protocol@,
            local_addr@,
            local_port,
            remote_addr@,
            remote_port,
            state@,
            pid,
            current_pid,
            *info,
        ),
{
    let process_info = info.clone();
    let deny_reason = match termination_deny_reason(pid, current_pid) {
        Some(s) => s,
        None => String::new(),
    };
    let reason_chars = chars_of(deny_reason.as_str());
    proof {
        lemma_deny_texts_not_empty();
    }
    let can_terminate = reason_chars.len() == 0;
    let process_type = detect_process_type(
        process_info.process.as_str(),
        process_info.path.as_str(),
        process_info.command.as_str(),
    );
    let ghost before = entries@;
    entries.push(
        PortEntry {
            protocol: owned(protocol),
            local_addr,
            local_port,
            remote_addr,
            remote_port,
            state,
            pid,
            process: process_info.process,
            path: process_info.path,
            user: process_info.user,
            command: process_info.command,
            process_type,
            can_terminate,
            deny_reason,
        },
    );
    assert(entries@.take(before.len() as int) =~= before);
}

// ---------------------------------------------------------------------------
// Details on demand
// ---------------------------------------------------------------------------

/// What the system reported for one process: its owner and its command line.
#[derive(Debug, Default, PartialEq, Eq)]
pub struct ProcessLookup {
    pub user: Option<String>,
    pub command: Option<String>,
}

pub open spec fn pid_seen(reqs: Seq<ProcessDetailRequest>, n: int, pid: u32) -> bool {
    exists|j: int| 0 <= j < n && (#[trigger] reqs[j]).pid == pid
}

/// The requests whose pid did not occur earlier, in order.
pub open spec fn first_requests(reqs: Seq<ProcessDetailRequest>) -> Seq<ProcessDetailRequest>
    decreases reqs.len(),
{
    if reqs.len() == 0 {
        Seq::empty()
    } else {
        let prev = first_requests(reqs.drop_last());
        if pid_seen(reqs, reqs.len() - 1, reqs.last().pid) {
            prev
        } else {
            prev.push(reqs.last())
        }
    }
}

pub open spec fn opt_text(o: Option<String>) -> Seq<char> {
    match o {
        Some(s) => s@,
        None => Seq::empty(),
    }
}

/// The owner shown for a process: none for pid 0, the System account for pid 4,
/// otherwise what was looked up (empty when nothing was found).
pub open spec fn user_text(pid: u32, lookups: Map<u32, ProcessLookup>) -> Seq<char> {
    if pid == 0 {
        Seq::empty()
    } else if pid == 4 {
        "NT AUTHORITY\\SYSTEM"@
    } else if lookups.contains_key(pid) {
        opt_text(lookups[pid].user)
    } else {
        Seq::empty()
    }
}

/// The command line shown: none for pid 0 and 4, otherwise what was looked up.
pub open spec fn command_text(pid: u32, lookups: Map<u32, ProcessLookup>) -> Seq<char> {
    if pid == 0 || pid == 4 {
        Seq::empty()
    } else if lookups.contains_key(pid) {
        opt_text(lookups[pid].command)
    } else {
        Seq::empty()
    }
}

pub open spec fn detail_is(d: ProcessDetails, r: ProcessDetailRequest, lookups: Map<u32, ProcessLookup>) -> bool {
    &&& d.pid == r.pid
    &&& d.user@ == user_text(r.pid, lookups)
    &&& d.command@ == command_text(r.pid, lookups)
    &&& d.process_type@ == process_kind(r.process@, r.path@, command_text(r.pid, lookups))
}

/// The pids whose owner and command line must be looked up: each pid once, in
/// order of first request, without 0 and 4.
pub open spec fn lookup_pids(reqs: Seq<ProcessDetailRequest>) -> Seq<u32> {
    first_requests(reqs).map_values(|r: ProcessDetailRequest| r.pid).filter(
        |p: u32| p != 0 && p != 4,
    )
}

proof fn lemma_first_requests_step(reqs: Seq<ProcessDetailRequest>, i: int)
    requires
        0 <= i < reqs.len(),
    ensures
        first_requests(reqs.take(i + 1)) == if pid_seen(reqs, i, reqs[i].pid) {
            first_requests(reqs.take(i))
        } else {
            first_requests(reqs.take(i)).push(reqs[i])
        },
{
    let t = reqs.take(i + 1);
    assert(t.drop_last() =~= reqs.take(i));
    assert(t.last() == reqs[i]);
    if pid_seen(reqs, i, reqs[i].pid) {
        let j = choose|j: int| 0 <= j < i && (#[trigger] reqs[j]).pid == reqs[i].pid;
        assert(t[j] == reqs[j]);
        assert(pid_seen(t, i, t.last().pid));
    } else {
        assert forall|j: int| 0 <= j < i implies (#[trigger] t[j]).pid != t.last().pid by {
            assert(t[j] == reqs[j]);
        }
    }
}

pub fn query_process_details(
    requests: &[ProcessDetailRequest],
    lookups: &HashMap<u32, ProcessLookup>,
) -> (r: Vec<ProcessDetails>)
    ensures
        r@.len() == first_requests(requests@).len(),
        forall|k: int|
            0 <= k < r@.len() ==> detail_is(#[trigger] r@[k], first_requests(requests@)[k], lookups@),
{
    let mut seen: HashMap<u32, bool> = HashMap::new();
    let mut details: Vec<ProcessDetails> = Vec::new();
    let mut i: usize = 0;
    while i < requests.len()
        invariant
            i <= requests.len(),
            forall|p: u32| #[trigger] seen@.contains_key(p) <==> pid_seen(requests@, i as int, p),
            details@.len() == first_requests(requests@.take(i as int)).len(),
            forall|k: int|
                0 <= k < details@.len() ==> detail_is(
                    #[trigger] details@[k],
                    first_requests(requests@.take(i as int))[k],
                    lookups@,
                ),
        decreases requests.len() - i,
    {
        let request = &requests[i];
        proof {
            lemma_first_requests_step(requests@, i as int);
        }
        let already = seen.insert(request.pid, true);
        proof {
            assert forall|p: u32| #[trigger] seen@.contains_key(p) <==> pid_seen(requests@, i + 1, p) by {
                if p == request.pid {
                    assert(requests@[i as int].pid == p);
                } else if pid_seen(requests@, i + 1, p) {
                    let j = choose|j: int| 0 <= j < i + 1 && (#[trigger] requests@[j]).pid == p;
                    assert(j < i);
                }
            }
        }
        if already.is_some() {
            assert(pid_seen(requests@, i as int, request.pid));
        } else {
            assert(!pid_seen(requests@, i as int, request.pid));
            let pid = request.pid;
            let found = lookups.get(&pid);
            let user = if pid == 0 {
                String::new()
            } else if pid == 4 {
                owned("NT AUTHORITY\\SYSTEM")
            } else {
                match found {
                    Some(l) => match &l.user {
                        Some(u) => u.clone(),
                        None => String::new(),
                    },
                    None => String::new(),
                }
            };
            let command = if pid == 0 || pid == 4 {
                String::new()
            } else {
                match found {
                    Some(l) => match &l.command {
                        Some(c) => c.clone(),
                        None => String::new(),
                    },
                    None => String::new(),
                }
            };
            let process_type = detect_process_type(
                request.process.as_str(),
                request.path.as_str(),
                command.as_str(),
            );
            details.push(ProcessDetails { pid, user, command, process_type });
        }
        i = i + 1;
    }
    assert(requests@.take(requests.len() as int) =~= requests@);
    details
}

pub fn pids_to_look_up(requests: &[ProcessDetailRequest]) -> (r: Vec<u32>)
    ensures
        r@ == lookup_pids(requests@),
{
    let ghost get_pid = |r: ProcessDetailRequest| r.pid;
    let ghost wanted = |p: u32| p != 0 && p != 4;
    let mut seen: HashMap<u32, bool> = HashMap::new();
    let mut out: Vec<u32> = Vec::new();
    let mut i: usize = 0;
    assert(first_requests(requests@.take(0)) =~= Seq::<ProcessDetailRequest>::empty());
    assert(out@ =~= first_requests(requests@.take(0)).map_values(get_pid).filter(wanted)) by {
        reveal(Seq::filter);
    }
    while i < requests.len()
        invariant
            i <= requests.len(),
            get_pid == (|r: ProcessDetailRequest| r.pid),
            wanted == (|p: u32| p != 0 && p != 4),
            forall|p: u32| #[trigger] seen@.contains_key(p) <==> pid_seen(requests@, i as int, p),
            out@ == first_requests(requests@.take(i as int)).map_values(get_pid).filter(wanted),
        decreases requests.len() - i,
    {
        let pid = requests[i].pid;
        proof {
            lemma_first_requests_step(requests@, i as int);
        }
        let already = seen.insert(pid, true);
        proof {
            assert forall|p: u32| #[trigger] seen@.contains_key(p) <==> pid_seen(requests@, i + 1, p) by {
                if p == pid {
                    assert(requests@[i as int].pid == p);
                } else if pid_seen(requests@, i + 1, p) {
                    let j = choose|j: int| 0 <= j < i + 1 && (#[trigger] requests@[j]).pid == p;
                    assert(j < i);
                }
            }
        }
        let ghost prev = first_requests(requests@.take(i as int));
        if already.is_none() {
            proof {
                assert(prev.push(requests@[i as int]).map_values(get_pid) =~= prev.map_values(
                    get_pid,
                ).push(pid));
                prev.map_values(get_pid).lemma_filter_push(pid, wanted);
            }
            if pid != 0 && pid != 4 {
                out.push(pid);
            }
        }
        i = i + 1;
    }
    assert(requests@.take(requests.len() as int) =~= requests@);
    out
}

} // verus!
