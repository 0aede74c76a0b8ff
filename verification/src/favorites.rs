//! Favorite ports: kept as a set, stored in ascending order without repeats.
use vstd::prelude::*;
use crate::model::PortableSettings;

verus! {

/// `r` is `favs` as a set: strictly ascending, holding exactly the ports of `favs`.
pub open spec fn normal_form_of(r: Seq<u16>, favs: Seq<u16>) -> bool {
    &&& forall|i: int, j: int| 0 <= i < j < r.len() ==> r[i] < r[j]
    &&& forall|p: u16| r.contains(p) <==> favs.contains(p)
}

/// `favorites` sorted and with repeats removed (`sort_unstable` then `dedup`).
pub fn normalize_favorites(favorites: &[u16]) -> (r: Vec<u16>)
    ensures
        normal_form_of(r@, favorites@),
{
    let mut out: Vec<u16> = Vec::new();
    let mut i: usize = 0;
    while i < favorites.len()
        invariant
            i <= favorites.len(),
            normal_form_of(out@, favorites@.take(i as int)),
        decreases favorites.len() - i,
    {
        let x = favorites[i];
        let mut p: usize = 0;
        while p < out.len() && out[p] < x
            invariant
                p <= out.len(),
                forall|q: int| 0 <= q < p ==> out@[q] < x,
            decreases out.len() - p,
        {
            p = p + 1;
        }
        let ghost prev = out@;
        if p < out.len() && out[p] == x {
        } else {
            out.insert(p, x);
            proof {
                prev.insert_ensures(p as int, x);
                assert forall|a: int, b: int| 0 <= a < b < out@.len() implies out@[a] < out@[b] by {
                    if b < p {
                        assert(out@[a] == prev[a] && out@[b] == prev[b]);
                    } else if b == p {
                        assert(out@[a] == prev[a]);
                    } else if a == p {
                        assert(out@[b] == prev[b - 1]);
                        assert(prev[p as int] > x);
                        if b - 1 > p {
                            assert(prev[p as int] < prev[b - 1]);
                        }
                    } else if a < p {
                        assert(out@[a] == prev[a] && out@[b] == prev[b - 1]);
                    } else {
                        assert(out@[a] == prev[a - 1] && out@[b] == prev[b - 1]);
                    }
                }
                assert forall|y: u16| out@.contains(y) <==> prev.contains(y) || y == x by {
                    if out@.contains(y) {
                        let k = choose|k: int| 0 <= k < out@.len() && out@[k] == y;
                        if k < p {
                            assert(prev[k] == y);
                        } else if k > p {
                            assert(prev[k - 1] == y);
                        }
                    }
                    if prev.contains(y) {
                        let k = choose|k: int| 0 <= k < prev.len() && prev[k] == y;
                        if k < p {
                            assert(out@[k] == y);
                        } else {
                            assert(out@[k + 1] == y);
                        }
                    }
                    if y == x {
                        assert(out@[p as int] == x);
                    }
                }
            }
        }
        proof {
            let t = favorites@.take(i + 1);
            assert(t =~= favorites@.take(i as int).push(x));
            assert forall|y: u16| t.contains(y) <==> favorites@.take(i as int).contains(y) || y == x by {
                if t.contains(y) {
                    let k = choose|k: int| 0 <= k < t.len() && t[k] == y;
                    if k < i {
                        assert(favorites@.take(i as int)[k] == y);
                    }
                }
                if favorites@.take(i as int).contains(y) {
                    let k = choose|k: int| 0 <= k < i && favorites@.take(i as int)[k] == y;
                    assert(t[k] == y);
                }
                if y == x {
                    assert(t[i as int] == x);
                }
            }
            if p < prev.len() && prev[p as int] == x {
                assert(prev.contains(x));
            }
        }
        i = i + 1;
    }
    assert(favorites@.take(favorites.len() as int) =~= favorites@);
    out
}

/// The favorites read from the settings file: none when there is no file or it
/// does not hold settings, otherwise its ports as a set.
pub open spec fn loaded_favorites(r: Seq<u16>, stored: Option<PortableSettings>) -> bool {
    match stored {
        None => r.len() == 0,
        Some(s) => normal_form_of(r, s.favorites@),
    }
}

pub fn load_favorites(stored: Option<PortableSettings>) -> (r: Vec<u16>)
    ensures
        loaded_favorites(r@, stored),
{
    match stored {
        None => Vec::new(),
        Some(settings) => normalize_favorites(settings.favorites.as_slice()),
    }
}

/// The settings written for a list of favorites: its ports as a set.
pub fn save_favorites(favorites: &[u16]) -> (r: PortableSettings)
    ensures
        normal_form_of(r.favorites@, favorites@),
{
    PortableSettings { favorites: normalize_favorites(favorites) }
}

proof fn lemma_normal_form_unique(a: Seq<u16>, b: Seq<u16>, favs: Seq<u16>)
    requires
        normal_form_of(a, favs),
        normal_form_of(b, favs),
    ensures
        a == b,
    decreases a.len() + b.len(),
{
    if a.len() == 0 || b.len() == 0 {
        if a.len() > 0 {
            assert(a.contains(a[0]));
            assert(b.contains(a[0]));
        }
        if b.len() > 0 {
            assert(b.contains(b[0]));
            assert(a.contains(b[0]));
        }
        assert(a =~= b);
    } else {
        // both start with the least port
        assert(a.contains(a[0]) && b.contains(a[0]));
        assert(b.contains(b[0]) && a.contains(b[0]));
        let ka = choose|k: int| 0 <= k < b.len() && b[k] == a[0];
        let kb = choose|k: int| 0 <= k < a.len() && a[k] == b[0];
        if ka > 0 {
            assert(b[0] < b[ka]);
        }
        if kb > 0 {
            assert(a[0] < a[kb]);
        }
        assert(a[0] == b[0]);
        let ta = a.drop_first();
        let tb = b.drop_first();
        assert forall|p: u16| ta.contains(p) <==> tb.contains(p) by {
            if ta.contains(p) {
                let k = choose|k: int| 0 <= k < ta.len() && ta[k] == p;
                assert(a[k + 1] == p);
                assert(a[0] < a[k + 1]);
                assert(b.contains(p));
                let m = choose|m: int| 0 <= m < b.len() && b[m] == p;
                assert(m != 0);
                assert(tb[m - 1] == p);
            }
            if tb.contains(p) {
                let k = choose|k: int| 0 <= k < tb.len() && tb[k] == p;
                assert(b[k + 1] == p);
                assert(b[0] < b[k + 1]);
                assert(a.contains(p));
                let m = choose|m: int| 0 <= m < a.len() && a[m] == p;
                assert(m != 0);
                assert(ta[m - 1] == p);
            }
        }
        lemma_normal_form_unique(ta, tb, ta);
        assert(a =~= seq![a[0]] + ta);
        assert(b =~= seq![b[0]] + tb);
    }
}

/// Saving favorites and loading them back gives the saved ports as a set; and
/// loading what was loaded and saved again changes nothing.
pub proof fn law_favorites_round_trip(favorites: Seq<u16>, saved: PortableSettings, loaded: Seq<u16>)
    requires
        normal_form_of(saved.favorites@, favorites),
        loaded_favorites(loaded, Some(saved)),
    ensures
        loaded == saved.favorites@,
        normal_form_of(loaded, favorites),
{
    assert forall|p: u16| loaded.contains(p) <==> favorites.contains(p) by {
    }
    lemma_normal_form_unique(loaded, saved.favorites@, favorites);
}

} // verus!
