//! The order in which endpoints are listed: by local port, then protocol, then
//! state (as strings), then optionally pid; sorting keeps the input order of
//! entries whose keys are equal.
use vstd::prelude::*;
use crate::model::PortEntry;
use crate::text::{
    chars_of, eq_chars, lemma_text_lt_asymmetric, lemma_text_lt_irreflexive, lemma_text_lt_total,
    lemma_text_lt_transitive, text_lt, text_lt_exec,
};

verus! {

broadcast use vstd::seq_lib::group_seq_properties;

/// `a` comes strictly before `b`: by local port, protocol, state and, when
/// `with_pid`, pid.
pub open spec fn entry_before(a: PortEntry, b: PortEntry, with_pid: bool) -> bool {
    ||| a.local_port < b.local_port
    ||| a.local_port == b.local_port && text_lt(a.protocol@, b.protocol@)
    ||| a.local_port == b.local_port && a.protocol@ == b.protocol@ && text_lt(a.state@, b.state@)
    ||| a.local_port == b.local_port && a.protocol@ == b.protocol@ && a.state@ == b.state@
        && with_pid && a.pid < b.pid
}

/// `a` and `b` have the same sort key.
pub open spec fn same_key(a: PortEntry, b: PortEntry, with_pid: bool) -> bool {
    &&& a.local_port == b.local_port
    &&& a.protocol@ == b.protocol@
    &&& a.state@ == b.state@
    &&& with_pid ==> a.pid == b.pid
}

pub open spec fn sorted_by_key(s: Seq<PortEntry>, with_pid: bool) -> bool {
    forall|i: int, j: int| 0 <= i < j < s.len() ==> !entry_before(#[trigger] s[j], #[trigger] s[i], with_pid)
}

/// The entries of `s` whose key is that of `k`, in their order.
pub open spec fn with_key(s: Seq<PortEntry>, k: PortEntry, with_pid: bool) -> Seq<PortEntry> {
    s.filter(key_pred(k, with_pid))
}

pub open spec fn key_pred(k: PortEntry, with_pid: bool) -> spec_fn(PortEntry) -> bool {
    |e: PortEntry| same_key(e, k, with_pid)
}

/// `out` is `inp` sorted by key, with entries of equal key in their input order
/// (what a stable sort gives; `lemma_stable_sorted_unique` shows that no other
/// sequence meets this).
pub open spec fn stable_sorted(out: Seq<PortEntry>, inp: Seq<PortEntry>, with_pid: bool) -> bool {
    &&& sorted_by_key(out, with_pid)
    &&& forall|k: PortEntry| #[trigger] with_key(out, k, with_pid) == with_key(inp, k, with_pid)
}

proof fn lemma_key_facts(a: PortEntry, b: PortEntry, wp: bool)
    ensures
        !entry_before(a, a, wp),
        entry_before(a, b, wp) ==> !entry_before(b, a, wp),
        entry_before(a, b, wp) ==> !same_key(a, b, wp),
        !entry_before(a, b, wp) && !entry_before(b, a, wp) ==> same_key(a, b, wp),
{
    lemma_text_lt_irreflexive(a.protocol@);
    lemma_text_lt_irreflexive(a.state@);
    lemma_text_lt_irreflexive(b.protocol@);
    lemma_text_lt_irreflexive(b.state@);
    lemma_text_lt_total(a.protocol@, b.protocol@);
    lemma_text_lt_total(a.state@, b.state@);
    if text_lt(a.protocol@, b.protocol@) {
        lemma_text_lt_asymmetric(a.protocol@, b.protocol@);
    }
    if text_lt(b.protocol@, a.protocol@) {
        lemma_text_lt_asymmetric(b.protocol@, a.protocol@);
    }
    if text_lt(a.state@, b.state@) {
        lemma_text_lt_asymmetric(a.state@, b.state@);
    }
    if text_lt(b.state@, a.state@) {
        lemma_text_lt_asymmetric(b.state@, a.state@);
    }
}

proof fn lemma_text_trans_cases(x: Seq<char>, y: Seq<char>, z: Seq<char>)
    ensures
        text_lt(x, y) && text_lt(y, z) ==> text_lt(x, z),
{
    if text_lt(x, y) && text_lt(y, z) {
        lemma_text_lt_transitive(x, y, z);
    }
}

proof fn lemma_before_transitive(a: PortEntry, b: PortEntry, c: PortEntry, wp: bool)
    requires
        entry_before(a, b, wp),
        entry_before(b, c, wp),
    ensures
        entry_before(a, c, wp),
{
    lemma_text_trans_cases(a.protocol@, b.protocol@, c.protocol@);
    lemma_text_trans_cases(a.state@, b.state@, c.state@);
}

/// Not-before is transitive: if `c` comes before `a`, then `c` comes before `b` or `b` before `a`.
proof fn lemma_before_split(a: PortEntry, b: PortEntry, c: PortEntry, wp: bool)
    requires
        entry_before(c, a, wp),
    ensures
        entry_before(c, b, wp) || entry_before(b, a, wp),
{
    lemma_key_facts(a, b, wp);
    lemma_key_facts(b, c, wp);
    lemma_key_facts(a, c, wp);
    if !entry_before(c, b, wp) && !entry_before(b, a, wp) {
        if entry_before(a, b, wp) && entry_before(b, c, wp) {
            lemma_before_transitive(a, b, c, wp);
        }
    }
}

proof fn lemma_same_key_before(a: PortEntry, b: PortEntry, c: PortEntry, wp: bool)
    requires
        same_key(a, b, wp),
    ensures
        entry_before(a, c, wp) == entry_before(b, c, wp),
        entry_before(c, a, wp) == entry_before(c, b, wp),
{
}

/// `entry_before`, computed.
pub fn entry_before_exec(a: &PortEntry, b: &PortEntry, with_pid: bool) -> (r: bool)
    ensures
        r == entry_before(*a, *b, with_pid),
{
    if a.local_port != b.local_port {
        return a.local_port < b.local_port;
    }
    let ap = chars_of(a.protocol.as_str());
    let bp = chars_of(b.protocol.as_str());
    if !eq_chars(ap.as_slice(), bp.as_slice()) {
        return text_lt_exec(ap.as_slice(), bp.as_slice());
    }
    proof {
        lemma_text_lt_irreflexive(a.protocol@);
    }
    let ast = chars_of(a.state.as_str());
    let bst = chars_of(b.state.as_str());
    if !eq_chars(ast.as_slice(), bst.as_slice()) {
        return text_lt_exec(ast.as_slice(), bst.as_slice());
    }
    proof {
        lemma_text_lt_irreflexive(a.state@);
    }
    with_pid && a.pid < b.pid
}

proof fn lemma_filter_insert(s: Seq<PortEntry>, p: int, x: PortEntry, pred: spec_fn(PortEntry) -> bool)
    requires
        0 <= p <= s.len(),
    ensures
        s.insert(p, x).filter(pred) == s.subrange(0, p).filter(pred) + seq![x].filter(pred) + s.subrange(
            p,
            s.len() as int,
        ).filter(pred),
        s.filter(pred) == s.subrange(0, p).filter(pred) + s.subrange(p, s.len() as int).filter(pred),
{
    let a = s.subrange(0, p);
    let b = s.subrange(p, s.len() as int);
    assert(s.insert(p, x) =~= (a + seq![x]) + b);
    assert(s =~= a + b);
    Seq::filter_distributes_over_add(a + seq![x], b, pred);
    Seq::filter_distributes_over_add(a, seq![x], pred);
    Seq::filter_distributes_over_add(a, b, pred);
}

proof fn lemma_filter_none(s: Seq<PortEntry>, pred: spec_fn(PortEntry) -> bool)
    requires
        forall|i: int| 0 <= i < s.len() ==> !pred(#[trigger] s[i]),
    ensures
        s.filter(pred) == Seq::<PortEntry>::empty(),
{
    assert(s.all(|x: PortEntry| !pred(x)));
    s.lemma_all_neg_filter_empty(pred);
    assert(s.filter(pred) =~= Seq::<PortEntry>::empty());
}

proof fn lemma_filter_single(x: PortEntry, pred: spec_fn(PortEntry) -> bool)
    ensures
        seq![x].filter(pred) == (if pred(x) {
            seq![x]
        } else {
            Seq::<PortEntry>::empty()
        }),
{
    Seq::<PortEntry>::empty().lemma_filter_push(x, pred);
    assert(Seq::<PortEntry>::empty().push(x) =~= seq![x]);
    assert(Seq::<PortEntry>::empty().filter(pred) =~= Seq::<PortEntry>::empty()) by {
        reveal(Seq::filter);
    }
}

proof fn lemma_insert_sorted(old_out: Seq<PortEntry>, x: PortEntry, p: int, wp: bool)
    requires
        0 <= p <= old_out.len(),
        sorted_by_key(old_out, wp),
        forall|q: int| 0 <= q < p ==> !entry_before(x, #[trigger] old_out[q], wp),
        forall|q: int| p <= q < old_out.len() ==> entry_before(x, #[trigger] old_out[q], wp),
    ensures
        sorted_by_key(old_out.insert(p, x), wp),
{
    let new_out = old_out.insert(p, x);
    old_out.insert_ensures(p, x);
    assert forall|a: int, b: int| 0 <= a < b < new_out.len() implies !entry_before(
        #[trigger] new_out[b],
        #[trigger] new_out[a],
        wp,
    ) by {
        if b < p {
            assert(new_out[a] == old_out[a] && new_out[b] == old_out[b]);
        } else if b == p {
            assert(new_out[a] == old_out[a]);
            lemma_key_facts(x, old_out[a], wp);
        } else if a == p {
            assert(new_out[b] == old_out[b - 1]);
            lemma_key_facts(x, old_out[b - 1], wp);
        } else if a < p {
            assert(new_out[a] == old_out[a] && new_out[b] == old_out[b - 1]);
        } else {
            assert(new_out[a] == old_out[a - 1] && new_out[b] == old_out[b - 1]);
        }
    }
}

proof fn lemma_insert_keys(old_out: Seq<PortEntry>, prefix: Seq<PortEntry>, x: PortEntry, p: int, wp: bool)
    requires
        0 <= p <= old_out.len(),
        forall|k: PortEntry| #[trigger] with_key(old_out, k, wp) == with_key(prefix, k, wp),
        forall|q: int| p <= q < old_out.len() ==> entry_before(x, #[trigger] old_out[q], wp),
    ensures
        forall|k: PortEntry| #[trigger] with_key(old_out.insert(p, x), k, wp) == with_key(prefix.push(x), k, wp),
{
    assert forall|k: PortEntry| #[trigger] with_key(old_out.insert(p, x), k, wp) == with_key(prefix.push(x), k, wp) by {
        let pred = key_pred(k, wp);
        let tail = old_out.subrange(p, old_out.len() as int);
        lemma_filter_insert(old_out, p, x, pred);
        lemma_filter_single(x, pred);
        prefix.lemma_filter_push(x, pred);
        assert(with_key(old_out, k, wp) == with_key(prefix, k, wp));
        if pred(x) {
            assert forall|q: int| 0 <= q < tail.len() implies !pred(#[trigger] tail[q]) by {
                let e = old_out[p + q];
                assert(tail[q] == e);
                lemma_key_facts(x, e, wp);
                if same_key(e, k, wp) {
                    lemma_key_facts(x, k, wp);
                    lemma_same_key_before(e, k, x, wp);
                    lemma_same_key_before(x, k, e, wp);
                    lemma_key_facts(k, e, wp);
                }
            }
            lemma_filter_none(tail, pred);
            assert(old_out.insert(p, x).filter(pred) =~= prefix.push(x).filter(pred));
        } else {
            assert(old_out.insert(p, x).filter(pred) =~= prefix.push(x).filter(pred));
        }
    }
}

proof fn lemma_insert_multiset(old_out: Seq<PortEntry>, prefix: Seq<PortEntry>, x: PortEntry, p: int)
    requires
        0 <= p <= old_out.len(),
        old_out.to_multiset() == prefix.to_multiset(),
    ensures
        old_out.insert(p, x).to_multiset() == prefix.push(x).to_multiset(),
{
    let new_out = old_out.insert(p, x);
    old_out.insert_ensures(p, x);
    assert(new_out.remove(p) =~= old_out);
    new_out.to_multiset_ensures();
    prefix.to_multiset_ensures();
    assert(new_out.to_multiset().count(x) > 0);
    assert(new_out.to_multiset() =~= old_out.to_multiset().insert(x));
}

/// The entries of `entries`, stably sorted by key.
pub fn sort_stable(entries: &[PortEntry], with_pid: bool) -> (r: Vec<PortEntry>)
    ensures
        stable_sorted(r@, entries@, with_pid),
        r@.to_multiset() == entries@.to_multiset(),
{
    let mut out: Vec<PortEntry> = Vec::new();
    let mut i: usize = 0;
    proof {
        assert forall|k: PortEntry| #[trigger] with_key(out@, k, with_pid) == with_key(
            entries@.take(0),
            k,
            with_pid,
        ) by {
            assert(out@ =~= entries@.take(0));
        }
        assert(out@ =~= entries@.take(0));
    }
    while i < entries.len()
        invariant
            i <= entries.len(),
            sorted_by_key(out@, with_pid),
            forall|k: PortEntry| #[trigger]
                with_key(out@, k, with_pid) == with_key(entries@.take(i as int), k, with_pid),
            out@.to_multiset() == entries@.take(i as int).to_multiset(),
        decreases entries.len() - i,
    {
        let x = entries[i].clone();
        let mut p: usize = out.len();
        while p > 0 && entry_before_exec(&x, &out[p - 1], with_pid)
            invariant
                p <= out.len(),
                forall|q: int| p <= q < out.len() ==> entry_before(x, #[trigger] out@[q], with_pid),
            decreases p,
        {
            p = p - 1;
        }
        let ghost old_out = out@;
        let ghost prefix = entries@.take(i as int);
        proof {
            // Everything before `p` is not after `x`.
            assert forall|q: int| 0 <= q < p implies !entry_before(x, #[trigger] old_out[q], with_pid) by {
                if entry_before(x, old_out[q], with_pid) {
                    if q < p - 1 {
                        lemma_before_split(old_out[q], old_out[p - 1], x, with_pid);
                    }
                }
            }
        }
        out.insert(p, x);
        proof {
            assert(entries@.take(i + 1) =~= prefix.push(x));
            lemma_insert_sorted(old_out, x, p as int, with_pid);
            lemma_insert_keys(old_out, prefix, x, p as int, with_pid);
            lemma_insert_multiset(old_out, prefix, x, p as int);
        }
        i = i + 1;
    }
    assert(entries@.take(entries.len() as int) =~= entries@);
    out
}

proof fn lemma_sorted_tail(s: Seq<PortEntry>, wp: bool)
    requires
        s.len() > 0,
        sorted_by_key(s, wp),
    ensures
        sorted_by_key(s.drop_first(), wp),
{
    let t = s.drop_first();
    assert forall|i: int, j: int| 0 <= i < j < t.len() implies !entry_before(#[trigger] t[j], #[trigger] t[i], wp) by {
        assert(t[i] == s[i + 1] && t[j] == s[j + 1]);
    }
}

proof fn lemma_with_key_prepend(s: Seq<PortEntry>, k: PortEntry, wp: bool)
    requires
        s.len() > 0,
    ensures
        with_key(s, k, wp) == (if same_key(s[0], k, wp) {
            seq![s[0]]
        } else {
            Seq::<PortEntry>::empty()
        }) + with_key(s.drop_first(), k, wp),
{
    assert(s =~= seq![s[0]] + s.drop_first());
    s.drop_first().lemma_filter_prepend(s[0], key_pred(k, wp));
}

proof fn lemma_own_key_in(s: Seq<PortEntry>, i: int, wp: bool)
    requires
        0 <= i < s.len(),
    ensures
        with_key(s, s[i], wp).contains(s[i]),
{
    s.lemma_filter_contains(key_pred(s[i], wp), i);
}

proof fn lemma_in_with_key(s: Seq<PortEntry>, k: PortEntry, e: PortEntry, wp: bool)
    requires
        with_key(s, k, wp).contains(e),
    ensures
        s.contains(e),
{
    s.lemma_filter_contains_rev(key_pred(k, wp), e);
}

/// Two sequences sorted by key whose entries of each key come in the same order are equal.
pub proof fn lemma_stable_sorted_unique(a: Seq<PortEntry>, b: Seq<PortEntry>, wp: bool)
    requires
        sorted_by_key(a, wp),
        sorted_by_key(b, wp),
        forall|k: PortEntry| #[trigger] with_key(a, k, wp) == with_key(b, k, wp),
    ensures
        a == b,
    decreases a.len(),
{
    if a.len() == 0 || b.len() == 0 {
        if a.len() > 0 {
            lemma_own_key_in(a, 0, wp);
            assert(with_key(a, a[0], wp) == with_key(b, a[0], wp));
            lemma_in_with_key(b, a[0], a[0], wp);
        }
        if b.len() > 0 {
            lemma_own_key_in(b, 0, wp);
            assert(with_key(a, b[0], wp) == with_key(b, b[0], wp));
            lemma_in_with_key(a, b[0], b[0], wp);
        }
        assert(a =~= b);
    } else {
        let x = a[0];
        let y = b[0];
        // y occurs in a, so it is not before x; and x occurs in b, so it is not before y
        lemma_own_key_in(b, 0, wp);
        assert(with_key(a, y, wp) == with_key(b, y, wp));
        lemma_in_with_key(a, y, y, wp);
        let j = choose|j: int| 0 <= j < a.len() && a[j] == y;
        if j > 0 {
            assert(!entry_before(a[j], a[0], wp));
        }
        lemma_own_key_in(a, 0, wp);
        assert(with_key(a, x, wp) == with_key(b, x, wp));
        lemma_in_with_key(b, x, x, wp);
        let m = choose|m: int| 0 <= m < b.len() && b[m] == x;
        if m > 0 {
            assert(!entry_before(b[m], b[0], wp));
        }
        lemma_key_facts(x, y, wp);
        lemma_key_facts(x, x, wp);
        lemma_key_facts(y, y, wp);
        let ta = a.drop_first();
        let tb = b.drop_first();
        lemma_with_key_prepend(a, x, wp);
        lemma_with_key_prepend(b, x, wp);
        assert(same_key(y, x, wp));
        assert(with_key(a, x, wp)[0] == x);
        assert(with_key(b, x, wp)[0] == y);
        assert(x == y);
        assert forall|k: PortEntry| #[trigger] with_key(ta, k, wp) == with_key(tb, k, wp) by {
            lemma_with_key_prepend(a, k, wp);
            lemma_with_key_prepend(b, k, wp);
            assert(with_key(a, k, wp) == with_key(b, k, wp));
            if same_key(x, k, wp) {
                assert(with_key(ta, k, wp) =~= with_key(a, k, wp).drop_first());
                assert(with_key(tb, k, wp) =~= with_key(b, k, wp).drop_first());
            } else {
                assert(with_key(ta, k, wp) =~= with_key(a, k, wp));
                assert(with_key(tb, k, wp) =~= with_key(b, k, wp));
            }
        }
        lemma_sorted_tail(a, wp);
        lemma_sorted_tail(b, wp);
        lemma_stable_sorted_unique(ta, tb, wp);
        assert(a =~= seq![x] + ta);
        assert(b =~= seq![y] + tb);
    }
}

/// The order of `list_ports`: local port, protocol, state, pid; equal rows keep their order.
pub fn sort_entries(entries: Vec<PortEntry>) -> (r: Vec<PortEntry>)
    ensures
        stable_sorted(r@, entries@, true),
        r@.to_multiset() == entries@.to_multiset(),
{
    sort_stable(entries.as_slice(), true)
}

} // verus!
