//! Properties that relate several calls or hold of every input.
use vstd::prelude::*;
use crate::cli::{port_invalid, required_number};
use crate::filter::{entry_matches, filtered, wanted_protocol, wanted_query, wanted_state, text_or};
use crate::group::{
    group_key, is_grouping, key_before, key_of_group, lemma_key_order, members, member_pred,
};
use crate::model::{
    PortEntry, PortFilter, ProcessDetailRequest, ProcessDetails, ProcessGroup, ProcessInfo,
};
use crate::net::port_of_dword;
use crate::order::{entry_before, key_pred, lemma_stable_sorted_unique, same_key, stable_sorted, with_key};
use crate::process::{deny_text, detail_is, entry_is, first_requests, pid_seen, ProcessLookup};
use crate::text::{
    ascii_lower, ascii_upper, contains_text, lower_char, upper_char, decimal, law_decimal_round_trip, lemma_text_lt_irreflexive, text_lt,
    trim_back, trim_front, trimmed,
};
use crate::classify::{
    database_names, development_names, kind_label, process_kind, system_names, web_server_names,
};

verus! {

broadcast use vstd::seq_lib::group_seq_properties, vstd::seq_lib::group_filter_ensures;

proof fn lemma_filter_twice<A>(s: Seq<A>, p: spec_fn(A) -> bool)
    ensures
        s.filter(p).filter(p) == s.filter(p),
    decreases s.len(),
{
    reveal(Seq::filter);
    if s.len() > 0 {
        lemma_filter_twice(s.drop_last(), p);
        if p(s.last()) {
            s.drop_last().filter(p).lemma_filter_push(s.last(), p);
        }
    }
}

proof fn lemma_filter_all<A>(s: Seq<A>, p: spec_fn(A) -> bool)
    requires
        forall|x: A| #[trigger] p(x),
    ensures
        s.filter(p) == s,
    decreases s.len(),
{
    reveal(Seq::filter);
    if s.len() > 0 {
        lemma_filter_all(s.drop_last(), p);
        assert(s.drop_last().push(s.last()) =~= s);
    }
}

/// Filtering what a filter kept, with the same filter, keeps everything.
pub proof fn law_filter_idempotent(entries: Seq<PortEntry>, f: PortFilter)
    ensures
        filtered(filtered(entries, f), f) == filtered(entries, f),
{
    lemma_filter_twice(entries, |e: PortEntry| entry_matches(e, f));
}

/// Filtering keeps only given entries, in their order, never adding any.
pub proof fn law_filter_keeps_subset(entries: Seq<PortEntry>, f: PortFilter, e: PortEntry)
    ensures
        filtered(entries, f).len() <= entries.len(),
        filtered(entries, f).contains(e) <==> entries.contains(e) && entry_matches(e, f),
{
    let p = |x: PortEntry| entry_matches(x, f);
    if filtered(entries, f).contains(e) {
        entries.lemma_filter_contains_rev(p, e);
        let i = choose|i: int| 0 <= i < entries.filter(p).len() && entries.filter(p)[i] == e;
        entries.lemma_filter_pred(p, i);
    }
    if entries.contains(e) && entry_matches(e, f) {
        let i = choose|i: int| 0 <= i < entries.len() && entries[i] == e;
        entries.lemma_filter_contains(p, i);
    }
}

/// A filter that asks for nothing (no protocol or `all`, no state, no search
/// text, not listeners only, no port) keeps every entry.
pub proof fn law_open_filter_keeps_all(entries: Seq<PortEntry>, f: PortFilter)
    requires
        f.protocol is None || text_or(f.protocol, "all"@) == "all"@,
        f.state is None,
        f.query is None,
        !f.listeners_only,
        f.port is None,
    ensures
        filtered(entries, f) == entries,
{
    reveal_strlit("all");
    assert(wanted_protocol(f) =~= "all"@);
    assert(wanted_state(f) =~= Seq::<char>::empty());
    assert(trim_front(Seq::<char>::empty()) == Seq::<char>::empty());
    assert(trim_back(Seq::<char>::empty()) == Seq::<char>::empty());
    assert(wanted_query(f) =~= Seq::<char>::empty());
    let p = |x: PortEntry| entry_matches(x, f);
    assert forall|x: PortEntry| #[trigger] p(x) by {}
    lemma_filter_all(entries, p);
}

/// With only "listeners only" asked for, an entry is kept exactly when it is a
/// UDP row or its state is LISTENING (in any case).
pub proof fn law_listeners_only(entries: Seq<PortEntry>, f: PortFilter, e: PortEntry)
    requires
        f.protocol is None,
        f.state is None,
        f.query is None,
        f.listeners_only,
        f.port is None,
    ensures
        filtered(entries, f).contains(e) <==> entries.contains(e) && (e.protocol@ == "UDP"@
            || ascii_lower(e.state@) == ascii_lower("LISTENING"@)),
{
    reveal_strlit("all");
    assert(wanted_protocol(f) =~= "all"@);
    assert(wanted_state(f) =~= Seq::<char>::empty());
    assert(trim_front(Seq::<char>::empty()) == Seq::<char>::empty());
    assert(trim_back(Seq::<char>::empty()) == Seq::<char>::empty());
    assert(wanted_query(f) =~= Seq::<char>::empty());
    law_filter_keeps_subset(entries, f, e);
}

proof fn lemma_with_key_contains(s: Seq<PortEntry>, e: PortEntry)
    ensures
        with_key(s, e, false).contains(e) <==> s.contains(e),
{
    let p = key_pred(e, false);
    if with_key(s, e, false).contains(e) {
        s.lemma_filter_contains_rev(p, e);
    }
    if s.contains(e) {
        let i = choose|i: int| 0 <= i < s.len() && s[i] == e;
        s.lemma_filter_contains(p, i);
    }
}

proof fn lemma_members_contains(entries: Seq<PortEntry>, k: (Seq<char>, u32), e: PortEntry)
    ensures
        members(entries, k).contains(e) <==> entries.contains(e) && group_key(e) == k,
{
    let p = member_pred(k);
    if members(entries, k).contains(e) {
        entries.lemma_filter_contains_rev(p, e);
        let i = choose|i: int| 0 <= i < entries.filter(p).len() && entries.filter(p)[i] == e;
        entries.lemma_filter_pred(p, i);
    }
    if entries.contains(e) && group_key(e) == k {
        let i = choose|i: int| 0 <= i < entries.len() && entries[i] == e;
        entries.lemma_filter_contains(p, i);
    }
}

/// Every endpoint lands in exactly one process group: the one of its process
/// name and pid.
pub proof fn law_each_entry_in_one_group(groups: Seq<ProcessGroup>, entries: Seq<PortEntry>, e: PortEntry)
    requires
        is_grouping(groups, entries),
        entries.contains(e),
    ensures
        exists|i: int| 0 <= i < groups.len() && (#[trigger] groups[i]).ports@.contains(e),
        forall|i: int, j: int|
            0 <= i < groups.len() && 0 <= j < groups.len() && (#[trigger] groups[i]).ports@.contains(e)
                && (#[trigger] groups[j]).ports@.contains(e) ==> i == j,
        forall|i: int| 0 <= i < groups.len() && (#[trigger] groups[i]).ports@.contains(e) ==> key_of_group(groups[i]) == group_key(e),
{
    assert forall|i: int| 0 <= i < groups.len() && (#[trigger] groups[i]).ports@.contains(e) implies key_of_group(groups[i]) == group_key(e) by {
        let g = groups[i];
        lemma_with_key_contains(g.ports@, e);
        assert(with_key(g.ports@, e, false) == with_key(members(entries, key_of_group(g)), e, false));
        lemma_with_key_contains(members(entries, key_of_group(g)), e);
        lemma_members_contains(entries, key_of_group(g), e);
    }
    let i = choose|i: int| 0 <= i < groups.len() && key_of_group(#[trigger] groups[i]) == group_key(e);
    let g = groups[i];
    lemma_members_contains(entries, key_of_group(g), e);
    lemma_with_key_contains(members(entries, key_of_group(g)), e);
    assert(with_key(g.ports@, e, false) == with_key(members(entries, key_of_group(g)), e, false));
    lemma_with_key_contains(g.ports@, e);
    assert(groups[i].ports@.contains(e));
    assert forall|a: int, b: int|
        0 <= a < groups.len() && 0 <= b < groups.len() && (#[trigger] groups[a]).ports@.contains(e)
            && (#[trigger] groups[b]).ports@.contains(e) implies a == b by {
        if a < b {
            crate::text::lemma_text_lt_irreflexive(group_key(e).0);
            assert(key_before(key_of_group(groups[a]), key_of_group(groups[b])));
        } else if b < a {
            crate::text::lemma_text_lt_irreflexive(group_key(e).0);
            assert(key_before(key_of_group(groups[b]), key_of_group(groups[a])));
        }
    }
}

/// A stable sort has one outcome: two sequences that both are `inp` stably
/// sorted by the same key are equal.
pub proof fn law_stable_sort_unique(a: Seq<PortEntry>, b: Seq<PortEntry>, inp: Seq<PortEntry>, with_pid: bool)
    requires
        stable_sorted(a, inp, with_pid),
        stable_sorted(b, inp, with_pid),
    ensures
        a == b,
{
    lemma_stable_sorted_unique(a, b, with_pid);
}

/// Sorting a sorted listing again changes nothing.
pub proof fn law_sort_idempotent(once: Seq<PortEntry>, twice: Seq<PortEntry>, inp: Seq<PortEntry>, with_pid: bool)
    requires
        stable_sorted(once, inp, with_pid),
        stable_sorted(twice, once, with_pid),
    ensures
        twice == once,
{
    lemma_stable_sorted_unique(twice, once, with_pid);
}

/// `a` and `b` agree on everything grouping and sorting look at.
pub open spec fn same_place(a: PortEntry, b: PortEntry) -> bool {
    group_key(a) == group_key(b) && same_key(a, b, false)
}

proof fn lemma_filter_and<A>(s: Seq<A>, p: spec_fn(A) -> bool, q: spec_fn(A) -> bool)
    ensures
        s.filter(p).filter(q) == s.filter(|x: A| p(x) && q(x)),
    decreases s.len(),
{
    let pq = |x: A| p(x) && q(x);
    reveal(Seq::filter);
    if s.len() > 0 {
        lemma_filter_and(s.drop_last(), p, q);
        if p(s.last()) {
            s.drop_last().filter(p).lemma_filter_push(s.last(), q);
        }
    }
}

/// Filtering for a predicate that only one value `e`, occurring at most once, meets.
proof fn lemma_filter_one_value<A>(s: Seq<A>, p: spec_fn(A) -> bool, e: A)
    requires
        forall|x: A| s.contains(x) && #[trigger] p(x) ==> x == e,
        s.to_multiset().count(e) <= 1,
    ensures
        s.filter(p) == (if s.contains(e) && p(e) {
            seq![e]
        } else {
            Seq::<A>::empty()
        }),
    decreases s.len(),
{
    reveal(Seq::filter);
    if s.len() == 0 {
        assert(!s.contains(e));
    } else {
        let t = s.drop_last();
        let x = s.last();
        assert(s =~= t.push(x));
        t.to_multiset_ensures();
        assert(s.to_multiset() =~= t.to_multiset().insert(x));
        assert forall|y: A| t.contains(y) && #[trigger] p(y) implies y == e by {
            let k = choose|k: int| 0 <= k < t.len() && t[k] == y;
            assert(s[k] == y);
        }
        lemma_filter_one_value(t, p, e);
        if p(x) {
            assert(s[s.len() - 1] == x);
            assert(x == e);
            assert(t.to_multiset().count(e) == 0);
            assert(!t.contains(e));
            assert(s.filter(p) =~= seq![e]);
        } else {
            if s.contains(e) && p(e) {
                let k = choose|k: int| 0 <= k < s.len() && s[k] == e;
                assert(k != s.len() - 1);
                assert(t[k] == e);
            }
            if t.contains(e) {
                let k = choose|k: int| 0 <= k < t.len() && t[k] == e;
                assert(s[k] == e);
            }
        }
    }
}

proof fn lemma_group_key_present(groups: Seq<ProcessGroup>, entries: Seq<PortEntry>, i: int)
    requires
        is_grouping(groups, entries),
        0 <= i < groups.len(),
    ensures
        entries.contains(groups[i].ports@[0]),
        group_key(groups[i].ports@[0]) == key_of_group(groups[i]),
{
    let g = groups[i];
    let e = g.ports@[0];
    let m = members(entries, key_of_group(g));
    g.ports@.lemma_filter_contains(key_pred(e, false), 0);
    assert(with_key(g.ports@, e, false) == with_key(m, e, false));
    m.lemma_filter_contains_rev(key_pred(e, false), e);
    lemma_members_contains(entries, key_of_group(g), e);
}

proof fn lemma_sorted_keys_unique(a: Seq<(Seq<char>, u32)>, b: Seq<(Seq<char>, u32)>)
    requires
        forall|i: int, j: int| 0 <= i < j < a.len() ==> key_before(#[trigger] a[i], #[trigger] a[j]),
        forall|i: int, j: int| 0 <= i < j < b.len() ==> key_before(#[trigger] b[i], #[trigger] b[j]),
        forall|k: (Seq<char>, u32)| a.contains(k) <==> b.contains(k),
    ensures
        a == b,
    decreases a.len(),
{
    if a.len() == 0 || b.len() == 0 {
        if a.len() > 0 {
            assert(a.contains(a[0]));
        }
        if b.len() > 0 {
            assert(b.contains(b[0]));
        }
        assert(a =~= b);
    } else {
        assert(a.contains(a[0]) && b.contains(b[0]));
        let j = choose|j: int| 0 <= j < a.len() && a[j] == b[0];
        let m = choose|m: int| 0 <= m < b.len() && b[m] == a[0];
        lemma_key_order(a[0], b[0], a[0]);
        lemma_key_order(b[0], a[0], b[0]);
        if j > 0 {
            assert(key_before(a[0], a[j]));
        }
        if m > 0 {
            assert(key_before(b[0], b[m]));
        }
        assert(a[0] == b[0]);
        let ta = a.drop_first();
        let tb = b.drop_first();
        assert forall|k: (Seq<char>, u32)| ta.contains(k) <==> tb.contains(k) by {
            if ta.contains(k) {
                let x = choose|x: int| 0 <= x < ta.len() && ta[x] == k;
                assert(a[x + 1] == k);
                assert(key_before(a[0], a[x + 1]));
                lemma_key_order(a[0], a[0], a[0]);
                assert(b.contains(k));
                let y = choose|y: int| 0 <= y < b.len() && b[y] == k;
                assert(y != 0);
                assert(tb[y - 1] == k);
            }
            if tb.contains(k) {
                let x = choose|x: int| 0 <= x < tb.len() && tb[x] == k;
                assert(b[x + 1] == k);
                assert(key_before(b[0], b[x + 1]));
                lemma_key_order(b[0], b[0], b[0]);
                assert(a.contains(k));
                let y = choose|y: int| 0 <= y < a.len() && a[y] == k;
                assert(y != 0);
                assert(ta[y - 1] == k);
            }
        }
        assert forall|i: int, j: int| 0 <= i < j < ta.len() implies key_before(#[trigger] ta[i], #[trigger] ta[j]) by {
            assert(ta[i] == a[i + 1] && ta[j] == a[j + 1]);
        }
        assert forall|i: int, j: int| 0 <= i < j < tb.len() implies key_before(#[trigger] tb[i], #[trigger] tb[j]) by {
            assert(tb[i] == b[i + 1] && tb[j] == b[j + 1]);
        }
        lemma_sorted_keys_unique(ta, tb);
        assert(a =~= seq![a[0]] + ta);
        assert(b =~= seq![b[0]] + tb);
    }
}

pub open spec fn group_keys(groups: Seq<ProcessGroup>) -> Seq<(Seq<char>, u32)> {
    Seq::new(groups.len(), |i: int| key_of_group(groups[i]))
}

/// The groups do not depend on the order of the entries: for a reordering of
/// entries of which no two are in the same place (same process name, pid,
/// port, protocol and state), the groups are the same, with the same endpoints
/// in the same order.
pub proof fn law_grouping_ignores_input_order(
    g1: Seq<ProcessGroup>,
    entries: Seq<PortEntry>,
    g2: Seq<ProcessGroup>,
    perm: Seq<PortEntry>,
)
    requires
        is_grouping(g1, entries),
        is_grouping(g2, perm),
        perm.to_multiset() == entries.to_multiset(),
        forall|e: PortEntry| entries.to_multiset().count(e) <= 1,
        forall|a: PortEntry, b: PortEntry|
            entries.contains(a) && entries.contains(b) && #[trigger] same_place(a, b) ==> a == b,
    ensures
        g1.len() == g2.len(),
        forall|i: int|
            0 <= i < g1.len() ==> (#[trigger] g1[i]).ports@ == g2[i].ports@ && g1[i].pid == g2[i].pid
                && g1[i].process == g2[i].process && g1[i].path == g2[i].path && g1[i].user
                == g2[i].user && g1[i].command == g2[i].command && g1[i].process_type
                == g2[i].process_type,
{
    entries.to_multiset_ensures();
    perm.to_multiset_ensures();
    assert forall|e: PortEntry| #[trigger] entries.contains(e) <==> perm.contains(e) by {
        assert(entries.contains(e) <==> entries.to_multiset().count(e) > 0);
        assert(perm.contains(e) <==> perm.to_multiset().count(e) > 0);
    }
    // the same keys, in the same order
    let k1 = group_keys(g1);
    let k2 = group_keys(g2);
    assert forall|k: (Seq<char>, u32)| k1.contains(k) <==> k2.contains(k) by {
        if k1.contains(k) {
            let i = choose|i: int| 0 <= i < k1.len() && k1[i] == k;
            lemma_group_key_present(g1, entries, i);
            let e = g1[i].ports@[0];
            assert(perm.contains(e));
            let j = choose|j: int| 0 <= j < g2.len() && key_of_group(#[trigger] g2[j]) == group_key(e);
            assert(k2[j] == k);
        }
        if k2.contains(k) {
            let i = choose|i: int| 0 <= i < k2.len() && k2[i] == k;
            lemma_group_key_present(g2, perm, i);
            let e = g2[i].ports@[0];
            assert(entries.contains(e));
            let j = choose|j: int| 0 <= j < g1.len() && key_of_group(#[trigger] g1[j]) == group_key(e);
            assert(k1[j] == k);
        }
    }
    assert forall|i: int, j: int| 0 <= i < j < k1.len() implies key_before(#[trigger] k1[i], #[trigger] k1[j]) by {
        assert(key_before(key_of_group(g1[i]), key_of_group(g1[j])));
    }
    assert forall|i: int, j: int| 0 <= i < j < k2.len() implies key_before(#[trigger] k2[i], #[trigger] k2[j]) by {
        assert(key_before(key_of_group(g2[i]), key_of_group(g2[j])));
    }
    lemma_sorted_keys_unique(k1, k2);
    assert(g1.len() == k1.len() && g2.len() == k2.len());
    // the same endpoints in each group
    assert forall|i: int| 0 <= i < g1.len() implies (#[trigger] g1[i]).ports@ == g2[i].ports@ by {
        assert(k1[i] == k2[i]);
        let k = key_of_group(g1[i]);
        assert(key_of_group(g2[i]) == k);
        assert forall|x: PortEntry| #[trigger] with_key(g1[i].ports@, x, false) == with_key(g2[i].ports@, x, false) by {
            let p = member_pred(k);
            let q = key_pred(x, false);
            let pq = |y: PortEntry| p(y) && q(y);
            lemma_filter_and(entries, p, q);
            lemma_filter_and(perm, p, q);
            let e = choose|y: PortEntry| entries.contains(y) && pq(y);
            assert forall|y: PortEntry| entries.contains(y) && #[trigger] pq(y) implies y == e by {
                assert(same_place(y, e));
            }
            assert forall|y: PortEntry| perm.contains(y) && #[trigger] pq(y) implies y == e by {
                assert(entries.contains(y));
                assert(same_place(y, e));
            }
            assert(perm.to_multiset().count(e) <= 1);
            lemma_filter_one_value(entries, pq, e);
            lemma_filter_one_value(perm, pq, e);
            assert(with_key(g1[i].ports@, x, false) == with_key(members(entries, k), x, false));
            assert(with_key(g2[i].ports@, x, false) == with_key(members(perm, k), x, false));
        }
        lemma_stable_sorted_unique(g1[i].ports@, g2[i].ports@, false);
    }
}

/// Ending a process is refused exactly for pid 0, pid 4 and this program itself.
pub proof fn law_protected_pids(pid: u32, current_pid: u32)
    ensures
        deny_text(pid, current_pid) is Some <==> (pid == 0 || pid == 4 || pid == current_pid),
{
}

/// A row may be ended exactly when it carries no reason for refusal.
#[allow(clippy::too_many_arguments)]
pub proof fn law_can_terminate_iff_no_reason(
    e: PortEntry,
    protocol: Seq<char>,
    local_addr: Seq<char>,
    local_port: u16,
    remote_addr: Seq<char>,
    remote_port: u16,
    state: Seq<char>,
    pid: u32,
    current_pid: u32,
    info: ProcessInfo,
)
    requires
        entry_is(e, protocol, local_addr, local_port, remote_addr, remote_port, state, pid, current_pid, info),
    ensures
        e.can_terminate <==> e.deny_reason@.len() == 0,
{
    reveal_strlit("PID 0 是系统 Idle 进程，不允许结束。");
    reveal_strlit("PID 4 是 Windows System 进程，不允许结束。");
    reveal_strlit("不允许结束 portKill 自己的进程。");
}

/// Swapping the bytes of a port twice gives it back: a port written in network
/// order into a table row is read back unchanged.
pub proof fn law_port_round_trip(port: u16)
    ensures
        port_of_dword((((port % 256) * 256) + port / 256) as u32) == port,
{
    let w = (((port % 256) * 256) + port / 256) as u32;
    assert(w % 256 == port / 256);
    assert(w / 256 == port % 256);
}

/// A port number written in decimal is read back as that port by the
/// command line.
pub proof fn law_port_text_round_trip(port: u16, name: Seq<char>)
    ensures
        required_number(Some(decimal(port as nat)), name, 65535, port_invalid()) == Ok::<nat, Seq<char>>(port as nat),
{
    law_decimal_round_trip(port as nat, 65535);
}

/// Details are given once per pid: the requests kept have pairwise different
/// pids, and every requested pid is among them.
pub proof fn law_details_once_per_pid(reqs: Seq<ProcessDetailRequest>)
    ensures
        forall|i: int, j: int|
            0 <= i < j < first_requests(reqs).len() ==> (#[trigger] first_requests(reqs)[i]).pid
                != (#[trigger] first_requests(reqs)[j]).pid,
        forall|i: int|
            0 <= i < reqs.len() ==> exists|j: int|
                0 <= j < first_requests(reqs).len() && (#[trigger] first_requests(reqs)[j]).pid
                    == (#[trigger] reqs[i]).pid,
    decreases reqs.len(),
{
    if reqs.len() > 0 {
        let prev = reqs.drop_last();
        law_details_once_per_pid(prev);
        let last = reqs.last();
        let fr = first_requests(reqs);
        let fp = first_requests(prev);
        if pid_seen(reqs, reqs.len() - 1, last.pid) {
            assert(fr == fp);
            assert forall|i: int| 0 <= i < reqs.len() implies exists|j: int|
                0 <= j < fr.len() && (#[trigger] fr[j]).pid == (#[trigger] reqs[i]).pid by {
                if i < reqs.len() - 1 {
                    assert(prev[i] == reqs[i]);
                } else {
                    let k = choose|k: int| 0 <= k < reqs.len() - 1 && (#[trigger] reqs[k]).pid == last.pid;
                    assert(prev[k] == reqs[k]);
                }
            }
        } else {
            assert(fr == fp.push(last));
            assert forall|i: int, j: int| 0 <= i < j < fr.len() implies (#[trigger] fr[i]).pid
                != (#[trigger] fr[j]).pid by {
                if j == fr.len() - 1 {
                    assert(fr[i] == fp[i]);
                    // fp[i]'s pid occurs among the earlier requests
                    lemma_first_requests_from(prev, i);
                    let k = choose|k: int| 0 <= k < prev.len() && (#[trigger] prev[k]).pid == fp[i].pid;
                    assert(reqs[k] == prev[k]);
                } else {
                    assert(fr[i] == fp[i] && fr[j] == fp[j]);
                }
            }
            assert forall|i: int| 0 <= i < reqs.len() implies exists|j: int|
                0 <= j < fr.len() && (#[trigger] fr[j]).pid == (#[trigger] reqs[i]).pid by {
                if i < reqs.len() - 1 {
                    assert(prev[i] == reqs[i]);
                    let j = choose|j: int| 0 <= j < fp.len() && (#[trigger] fp[j]).pid == (#[trigger] prev[i]).pid;
                    assert(fr[j] == fp[j]);
                } else {
                    assert(fr[fr.len() - 1] == last);
                }
            }
        }
    }
}

proof fn lemma_first_requests_from(reqs: Seq<ProcessDetailRequest>, i: int)
    requires
        0 <= i < first_requests(reqs).len(),
    ensures
        exists|k: int| 0 <= k < reqs.len() && (#[trigger] reqs[k]).pid == first_requests(reqs)[i].pid,
    decreases reqs.len(),
{
    let prev = reqs.drop_last();
    let fp = first_requests(prev);
    if i < fp.len() {
        assert(first_requests(reqs)[i] == fp[i]);
        lemma_first_requests_from(prev, i);
        let k = choose|k: int| 0 <= k < prev.len() && (#[trigger] prev[k]).pid == fp[i].pid;
        assert(reqs[k] == prev[k]);
    } else {
        assert(first_requests(reqs)[i] == reqs.last());
        assert(reqs[reqs.len() - 1] == reqs.last());
    }
}

/// A port filter looks at the local port only: whatever else is asked, every
/// kept entry has that local port; and with nothing else asked, an entry is
/// kept exactly when its local port is the one asked for, whatever its remote port.
pub proof fn law_port_filter_is_local(entries: Seq<PortEntry>, f: PortFilter, e: PortEntry, p: u16)
    requires
        f.port == Some(p),
    ensures
        filtered(entries, f).contains(e) ==> entries.contains(e) && e.local_port == p,
        f.protocol is None && f.state is None && f.query is None && !f.listeners_only ==> (
        filtered(entries, f).contains(e) <==> entries.contains(e) && e.local_port == p),
{
    reveal_strlit("all");
    law_filter_keeps_subset(entries, f, e);
    if f.protocol is None && f.state is None && f.query is None && !f.listeners_only {
        assert(wanted_protocol(f) =~= "all"@);
        assert(wanted_state(f) =~= Seq::<char>::empty());
        assert(trim_front(Seq::<char>::empty()) == Seq::<char>::empty());
        assert(trim_back(Seq::<char>::empty()) == Seq::<char>::empty());
        assert(wanted_query(f) =~= Seq::<char>::empty());
    }
}

/// With only a search text asked for, an entry is kept exactly when the text,
/// trimmed and lower-cased, is empty or occurs in one of: its local or remote
/// port or its pid in decimal, or the lower-cased process name, path, user,
/// command line, kind label, kind, local or remote address, or state.
pub proof fn law_search_fields(entries: Seq<PortEntry>, f: PortFilter, e: PortEntry, text: String)
    requires
        f.query == Some(text),
        f.protocol is None,
        f.state is None,
        !f.listeners_only,
        f.port is None,
    ensures
        ({
            let q = ascii_lower(trimmed(text@));
            filtered(entries, f).contains(e) <==> entries.contains(e) && (q.len() == 0
                || contains_text(decimal(e.local_port as nat), q)
                || contains_text(decimal(e.remote_port as nat), q)
                || contains_text(decimal(e.pid as nat), q)
                || contains_text(ascii_lower(e.process@), q)
                || contains_text(ascii_lower(e.path@), q)
                || contains_text(ascii_lower(e.user@), q)
                || contains_text(ascii_lower(e.command@), q)
                || contains_text(ascii_lower(kind_label(e.process_type@)), q)
                || contains_text(ascii_lower(e.process_type@), q)
                || contains_text(ascii_lower(e.local_addr@), q)
                || contains_text(ascii_lower(e.remote_addr@), q)
                || contains_text(ascii_lower(e.state@), q))
        }),
{
    reveal_strlit("all");
    assert(wanted_protocol(f) =~= "all"@);
    assert(wanted_state(f) =~= Seq::<char>::empty());
    law_filter_keeps_subset(entries, f, e);
}

/// The kind of a process is decided by the lower-cased text
/// `"{process} {path} {command}"`, in this order of precedence: a web-server
/// name gives "web_server"; else a database name gives "database", whether or
/// not a development name occurs too; else a development name gives
/// "development"; else a system name gives "system"; else "other".
pub proof fn law_kind_precedence(process: Seq<char>, path: Seq<char>, command: Seq<char>)
    ensures
        ({
            let h = ascii_lower(process + seq![' '] + path + seq![' '] + command);
            let web = exists|i: int| 0 <= i < web_server_names().len() && contains_text(h, #[trigger] web_server_names()[i]);
            let db = exists|i: int| 0 <= i < database_names().len() && contains_text(h, #[trigger] database_names()[i]);
            let dev = exists|i: int| 0 <= i < development_names().len() && contains_text(h, #[trigger] development_names()[i]);
            let sys = exists|i: int| 0 <= i < system_names().len() && contains_text(h, #[trigger] system_names()[i]);
            let kind = process_kind(process, path, command);
            &&& web ==> kind == "web_server"@
            &&& !web && db ==> kind == "database"@
            &&& !web && !db && dev ==> kind == "development"@
            &&& !web && !db && !dev && sys ==> kind == "system"@
            &&& !web && !db && !dev && !sys ==> kind == "other"@
        }),
{
}

/// Details give the owner and command line that were looked up, except for the
/// two system pids: pid 0 has neither an owner nor a command line, and pid 4
/// is owned by the System account and has no command line.
pub proof fn law_detail_owner(d: ProcessDetails, r: ProcessDetailRequest, lookups: Map<u32, ProcessLookup>)
    requires
        detail_is(d, r, lookups),
    ensures
        d.pid == r.pid,
        r.pid == 0 ==> d.user@ == Seq::<char>::empty() && d.command@ == Seq::<char>::empty(),
        r.pid == 4 ==> d.user@ == "NT AUTHORITY\\SYSTEM"@ && d.command@ == Seq::<char>::empty(),
        r.pid != 0 && r.pid != 4 && lookups.contains_key(r.pid) ==> (match lookups[r.pid].user {
            Some(u) => d.user@ == u@,
            None => d.user@ == Seq::<char>::empty(),
        }) && (match lookups[r.pid].command {
            Some(c) => d.command@ == c@,
            None => d.command@ == Seq::<char>::empty(),
        }),
        r.pid != 0 && r.pid != 4 && !lookups.contains_key(r.pid) ==> d.user@ == Seq::<char>::empty()
            && d.command@ == Seq::<char>::empty(),
{
}

/// A sorted listing orders its entries by local port, then protocol, then
/// state (each text by its characters), then pid: an entry before another
/// never has a larger key at the first field where they differ.
pub proof fn law_listing_order(out: Seq<PortEntry>, inp: Seq<PortEntry>, i: int, j: int)
    requires
        stable_sorted(out, inp, true),
        0 <= i < j < out.len(),
    ensures
        out[i].local_port <= out[j].local_port,
        out[i].local_port == out[j].local_port ==> !text_lt(out[j].protocol@, out[i].protocol@),
        out[i].local_port == out[j].local_port && out[i].protocol@ == out[j].protocol@
            ==> !text_lt(out[j].state@, out[i].state@),
        out[i].local_port == out[j].local_port && out[i].protocol@ == out[j].protocol@
            && out[i].state@ == out[j].state@ ==> out[i].pid <= out[j].pid,
{
    assert(!entry_before(out[j], out[i], true));
}

/// In a sorted listing, of two entries with the same local port and protocol
/// and different states, the one whose state comes first as text is listed
/// first, whatever their pids.
pub proof fn law_state_before_pid(out: Seq<PortEntry>, inp: Seq<PortEntry>, i: int, j: int)
    requires
        stable_sorted(out, inp, true),
        0 <= i < out.len(),
        0 <= j < out.len(),
        out[i].local_port == out[j].local_port,
        out[i].protocol@ == out[j].protocol@,
        text_lt(out[i].state@, out[j].state@),
    ensures
        i < j,
{
    lemma_text_lt_irreflexive(out[i].state@);
    if j < i {
        assert(!entry_before(out[i], out[j], true));
    }
}

proof fn lemma_lower_of_case(t: Seq<char>)
    ensures
        ascii_lower(ascii_upper(t)) == ascii_lower(t),
        ascii_lower(ascii_lower(t)) == ascii_lower(t),
{
    assert forall|i: int| 0 <= i < t.len() implies lower_char(upper_char(t[i])) == lower_char(t[i])
        && lower_char(lower_char(t[i])) == lower_char(t[i]) by {
        let c = t[i];
        if 'a' <= c && c <= 'z' {
            assert(upper_char(c) as int == c as int - 32);
        }
        if 'A' <= c && c <= 'Z' {
            assert(lower_char(c) as int == c as int + 32);
        }
    }
    assert(ascii_lower(ascii_upper(t)) =~= ascii_lower(t));
    assert(ascii_lower(ascii_lower(t)) =~= ascii_lower(t));
}

/// With only a protocol asked for, an entry is kept exactly when the protocol
/// is empty or `all` (in any case) or equals the entry's protocol, ignoring
/// ASCII case.
pub proof fn law_protocol_filter(entries: Seq<PortEntry>, f: PortFilter, e: PortEntry, t: String)
    requires
        f.protocol == Some(t),
        f.state is None,
        f.query is None,
        !f.listeners_only,
        f.port is None,
    ensures
        filtered(entries, f).contains(e) <==> entries.contains(e) && (t@.len() == 0 || ascii_lower(t@)
            == "all"@ || ascii_lower(e.protocol@) == ascii_lower(t@)),
{
    lemma_lower_of_case(t@);
    assert(wanted_state(f) =~= Seq::<char>::empty());
    assert(trim_front(Seq::<char>::empty()) == Seq::<char>::empty());
    assert(trim_back(Seq::<char>::empty()) == Seq::<char>::empty());
    assert(wanted_query(f) =~= Seq::<char>::empty());
    law_filter_keeps_subset(entries, f, e);
}

/// With only a state asked for, an entry is kept exactly when the state asked
/// for is empty or equals the entry's state, ignoring ASCII case.
pub proof fn law_state_filter(entries: Seq<PortEntry>, f: PortFilter, e: PortEntry, t: String)
    requires
        f.state == Some(t),
        f.protocol is None,
        f.query is None,
        !f.listeners_only,
        f.port is None,
    ensures
        filtered(entries, f).contains(e) <==> entries.contains(e) && (t@.len() == 0 || ascii_lower(
            e.state@,
        ) == ascii_lower(t@)),
{
    reveal_strlit("all");
    lemma_lower_of_case(t@);
    assert(wanted_protocol(f) =~= "all"@);
    assert(trim_front(Seq::<char>::empty()) == Seq::<char>::empty());
    assert(trim_back(Seq::<char>::empty()) == Seq::<char>::empty());
    assert(wanted_query(f) =~= Seq::<char>::empty());
    law_filter_keeps_subset(entries, f, e);
}

} // verus!
