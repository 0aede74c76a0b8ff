//! Grouping endpoints by owning process: one group per (lower-cased process
//! name, pid), groups in ascending order of that key, each group's endpoints
//! in list order (local port, protocol, state).
use vstd::prelude::*;
use crate::model::{PortEntry, ProcessGroup};
use crate::order::{sort_stable, stable_sorted};
use crate::text::{
    ascii_lower, eq_chars, lemma_text_lt_asymmetric, lemma_text_lt_irreflexive,
    lemma_text_lt_total, lemma_text_lt_transitive, lower_of, text_lt, text_lt_exec,
};

verus! {

broadcast use vstd::seq_lib::group_seq_properties;

/// The key a process group is formed by.
pub open spec fn group_key(e: PortEntry) -> (Seq<char>, u32) {
    (ascii_lower(e.process@), e.pid)
}

/// The order of group keys: by name as a string, then by pid.
pub open spec fn key_before(a: (Seq<char>, u32), b: (Seq<char>, u32)) -> bool {
    text_lt(a.0, b.0) || (a.0 == b.0 && a.1 < b.1)
}

pub open spec fn member_pred(k: (Seq<char>, u32)) -> spec_fn(PortEntry) -> bool {
    |e: PortEntry| group_key(e) == k
}

/// The entries with group key `k`, in their order.
pub open spec fn members(entries: Seq<PortEntry>, k: (Seq<char>, u32)) -> Seq<PortEntry> {
    entries.filter(member_pred(k))
}

/// The key of a group: that of its first endpoint.
pub open spec fn key_of_group(g: ProcessGroup) -> (Seq<char>, u32) {
    group_key(g.ports@[0])
}

/// A group's description is that of its first endpoint.
pub open spec fn describes_first(g: ProcessGroup) -> bool {
    let first = g.ports@[0];
    &&& g.pid == first.pid
    &&& g.process == first.process
    &&& g.path == first.path
    &&& g.user == first.user
    &&& g.command == first.command
    &&& g.process_type == first.process_type
}

/// `groups` is the grouping of `entries`: one non-empty group per key present, in
/// ascending key order, each holding exactly the entries of its key, sorted
/// stably by local port, protocol and state.
pub open spec fn is_grouping(groups: Seq<ProcessGroup>, entries: Seq<PortEntry>) -> bool {
    &&& forall|i: int|
        0 <= i < groups.len() ==> {
            &&& (#[trigger] groups[i]).ports@.len() > 0
            &&& describes_first(groups[i])
            &&& stable_sorted(groups[i].ports@, members(entries, key_of_group(groups[i])), false)
        }
    &&& forall|i: int, j: int|
        0 <= i < j < groups.len() ==> key_before(
            key_of_group(#[trigger] groups[i]),
            key_of_group(#[trigger] groups[j]),
        )
    &&& forall|e: PortEntry|
        #[trigger] entries.contains(e) ==> exists|i: int|
            0 <= i < groups.len() && key_of_group(#[trigger] groups[i]) == group_key(e)
}

pub(crate) proof fn lemma_key_order(a: (Seq<char>, u32), b: (Seq<char>, u32), c: (Seq<char>, u32))
    ensures
        !key_before(a, a),
        key_before(a, b) ==> !key_before(b, a),
        a == b || key_before(a, b) || key_before(b, a),
        key_before(a, b) && key_before(b, c) ==> key_before(a, c),
{
    lemma_text_lt_irreflexive(a.0);
    lemma_text_lt_total(a.0, b.0);
    if text_lt(a.0, b.0) {
        lemma_text_lt_asymmetric(a.0, b.0);
    }
    if text_lt(b.0, a.0) {
        lemma_text_lt_asymmetric(b.0, a.0);
    }
    if text_lt(a.0, b.0) && text_lt(b.0, c.0) {
        lemma_text_lt_transitive(a.0, b.0, c.0);
    }
}

fn key_before_exec(a: &PortEntry, b: &PortEntry) -> (r: bool)
    ensures
        r == key_before(group_key(*a), group_key(*b)),
{
    let la = lower_of(a.process.as_str());
    let lb = lower_of(b.process.as_str());
    if eq_chars(la.as_slice(), lb.as_slice()) {
        proof {
            lemma_text_lt_irreflexive(la@);
        }
        a.pid < b.pid
    } else {
        text_lt_exec(la.as_slice(), lb.as_slice())
    }
}

fn same_group_exec(a: &PortEntry, b: &PortEntry) -> (r: bool)
    ensures
        r == (group_key(*a) == group_key(*b)),
{
    let la = lower_of(a.process.as_str());
    let lb = lower_of(b.process.as_str());
    eq_chars(la.as_slice(), lb.as_slice()) && a.pid == b.pid
}

pub open spec fn keys_ascending(reps: Seq<PortEntry>) -> bool {
    forall|i: int, j: int|
        0 <= i < j < reps.len() ==> key_before(group_key(#[trigger] reps[i]), group_key(#[trigger] reps[j]))
}

proof fn lemma_insert_rep(reps: Seq<PortEntry>, x: PortEntry, p: int)
    requires
        0 <= p <= reps.len(),
        keys_ascending(reps),
        forall|t: int| 0 <= t < p ==> key_before(group_key(#[trigger] reps[t]), group_key(x)),
        p < reps.len() ==> key_before(group_key(x), group_key(reps[p])),
    ensures
        keys_ascending(reps.insert(p, x)),
{
    let n = reps.insert(p, x);
    reps.insert_ensures(p, x);
    assert forall|a: int, b: int| 0 <= a < b < n.len() implies key_before(
        group_key(#[trigger] n[a]),
        group_key(#[trigger] n[b]),
    ) by {
        if b < p {
            assert(n[a] == reps[a] && n[b] == reps[b]);
        } else if b == p {
            assert(n[a] == reps[a]);
        } else if a == p {
            assert(n[b] == reps[b - 1]);
            if b - 1 > p {
                lemma_key_order(group_key(x), group_key(reps[p]), group_key(reps[b - 1]));
            }
        } else if a < p {
            assert(n[a] == reps[a] && n[b] == reps[b - 1]);
        } else {
            assert(n[a] == reps[a - 1] && n[b] == reps[b - 1]);
        }
    }
}

/// One entry of each group key present, in ascending key order.
fn group_representatives(entries: &[PortEntry]) -> (reps: Vec<PortEntry>)
    ensures
        keys_ascending(reps@),
        forall|t: int| 0 <= t < reps@.len() ==> entries@.contains(#[trigger] reps@[t]),
        forall|e: PortEntry|
            #[trigger] entries@.contains(e) ==> exists|t: int|
                0 <= t < reps@.len() && group_key(#[trigger] reps@[t]) == group_key(e),
{
    let mut reps: Vec<PortEntry> = Vec::new();
    let mut i: usize = 0;
    while i < entries.len()
        invariant
            i <= entries.len(),
            keys_ascending(reps@),
            forall|t: int| 0 <= t < reps@.len() ==> entries@.contains(#[trigger] reps@[t]),
            forall|q: int|
                0 <= q < i ==> exists|t: int|
                    0 <= t < reps@.len() && group_key(#[trigger] reps@[t]) == group_key(
                        #[trigger] entries@[q],
                    ),
        decreases entries.len() - i,
    {
        let x = entries[i].clone();
        let mut p: usize = 0;
        while p < reps.len() && key_before_exec(&reps[p], &x)
            invariant
                p <= reps.len(),
                forall|t: int| 0 <= t < p ==> key_before(group_key(#[trigger] reps@[t]), group_key(x)),
            decreases reps.len() - p,
        {
            p = p + 1;
        }
        if p < reps.len() && same_group_exec(&reps[p], &x) {
            assert(group_key(reps@[p as int]) == group_key(entries@[i as int]));
        } else {
            proof {
                if p < reps.len() {
                    lemma_key_order(group_key(x), group_key(reps@[p as int]), group_key(x));
                }
            }
            let ghost old_reps = reps@;
            proof {
                lemma_insert_rep(old_reps, x, p as int);
                old_reps.insert_ensures(p as int, x);
            }
            reps.insert(p, x);
            proof {
                assert(reps@ == old_reps.insert(p as int, x));
                assert(reps@[p as int] == entries@[i as int]);
                assert forall|t: int| 0 <= t < reps@.len() implies entries@.contains(#[trigger] reps@[t]) by {
                    if t < p {
                        assert(reps@[t] == old_reps[t]);
                    } else if t > p {
                        assert(reps@[t] == old_reps[t - 1]);
                    }
                }
                assert forall|q: int| 0 <= q <= i implies exists|t: int|
                    0 <= t < reps@.len() && group_key(#[trigger] reps@[t]) == group_key(
                        #[trigger] entries@[q],
                    ) by {
                    if q < i {
                        let t = choose|t: int|
                            0 <= t < old_reps.len() && group_key(#[trigger] old_reps[t]) == group_key(
                                entries@[q],
                            );
                        if t < p {
                            assert(reps@[t] == old_reps[t]);
                        } else {
                            assert(reps@[t + 1] == old_reps[t]);
                        }
                    } else {
                        assert(group_key(reps@[p as int]) == group_key(entries@[q]));
                    }
                }
            }
        }
        i = i + 1;
    }
    assert forall|e: PortEntry| #[trigger] entries@.contains(e) implies exists|t: int|
        0 <= t < reps@.len() && group_key(#[trigger] reps@[t]) == group_key(e) by {
        let q = choose|q: int| 0 <= q < entries@.len() && entries@[q] == e;
        assert(group_key(entries@[q]) == group_key(e));
    }
    reps
}

/// The entries with the key of `rep`, in their order.
fn collect_members(entries: &[PortEntry], rep: &PortEntry) -> (r: Vec<PortEntry>)
    ensures
        r@ == members(entries@, group_key(*rep)),
{
    let ghost pred = member_pred(group_key(*rep));
    let mut out: Vec<PortEntry> = Vec::new();
    let mut i: usize = 0;
    while i < entries.len()
        invariant
            i <= entries.len(),
            pred == member_pred(group_key(*rep)),
            out@ == entries@.take(i as int).filter(pred),
        decreases entries.len() - i,
    {
        assert(entries@.take(i + 1) =~= entries@.take(i as int).push(entries@[i as int]));
        proof {
            entries@.take(i as int).lemma_filter_push(entries@[i as int], pred);
        }
        if same_group_exec(&entries[i], rep) {
            out.push(entries[i].clone());
        }
        i = i + 1;
    }
    assert(entries@.take(entries.len() as int) =~= entries@);
    out
}

pub fn group_by_process(entries: &[PortEntry]) -> (groups: Vec<ProcessGroup>)
    ensures
        is_grouping(groups@, entries@),
{
    let reps = group_representatives(entries);
    let mut groups: Vec<ProcessGroup> = Vec::new();
    let mut g: usize = 0;
    while g < reps.len()
        invariant
            g <= reps.len(),
            groups@.len() == g,
            keys_ascending(reps@),
            forall|t: int| 0 <= t < reps@.len() ==> entries@.contains(#[trigger] reps@[t]),
            forall|t: int|
                0 <= t < g ==> {
                    &&& (#[trigger] groups@[t]).ports@.len() > 0
                    &&& describes_first(groups@[t])
                    &&& key_of_group(groups@[t]) == group_key(reps@[t])
                    &&& stable_sorted(groups@[t].ports@, members(entries@, key_of_group(groups@[t])), false)
                },
        decreases reps.len() - g,
    {
        let rep = &reps[g];
        let ghost k = group_key(*rep);
        let found = collect_members(entries, rep);
        let ports = sort_stable(found.as_slice(), false);
        proof {
            let pred = member_pred(k);
            assert(entries@.contains(reps@[g as int]));
            let q = choose|q: int| 0 <= q < entries@.len() && entries@[q] == reps@[g as int];
            entries@.lemma_filter_contains(pred, q);
            assert(found@.contains(*rep));
            found@.to_multiset_ensures();
            ports@.to_multiset_ensures();
            assert(found@.to_multiset().count(*rep) > 0);
            assert(ports@.len() > 0);
            assert(ports@.contains(ports@[0]));
            assert(ports@.to_multiset().count(ports@[0]) > 0);
            assert(found@.to_multiset().count(ports@[0]) > 0);
            assert(found@.contains(ports@[0]));
            let w = choose|w: int| 0 <= w < found@.len() && found@[w] == ports@[0];
            entries@.lemma_filter_pred(pred, w);
            assert(group_key(ports@[0]) == k);
        }
        let first = &ports[0];
        let group = ProcessGroup {
            pid: first.pid,
            process: first.process.clone(),
            path: first.path.clone(),
            user: first.user.clone(),
            command: first.command.clone(),
            process_type: first.process_type.clone(),
            ports: ports,
        };
        groups.push(group);
        proof {
            assert(groups@[g as int].ports@ == ports@);
        }
        g = g + 1;
    }
    proof {
        assert forall|i: int, j: int| 0 <= i < j < groups@.len() implies key_before(
            key_of_group(#[trigger] groups@[i]),
            key_of_group(#[trigger] groups@[j]),
        ) by {
            assert(key_before(group_key(reps@[i]), group_key(reps@[j])));
        }
        assert forall|e: PortEntry| #[trigger] entries@.contains(e) implies exists|i: int|
            0 <= i < groups@.len() && key_of_group(#[trigger] groups@[i]) == group_key(e) by {
            let t = choose|t: int| 0 <= t < reps@.len() && group_key(#[trigger] reps@[t]) == group_key(e);
            assert(key_of_group(groups@[t]) == group_key(e));
        }
    }
    groups
}

} // verus!
