//! What hiding and showing workspaces keep: each changes one (endpoint, workspace) pair and
//! nothing else, showing undoes hiding, focus only ever moves to a visible workspace, a
//! real focus change shows the focused workspace, pruning keeps what still exists, and the
//! hidden tree lists every hidden workspace of every endpoint.
use vstd::prelude::*;

use crate::seq_search;
use crate::text;
use crate::workspace_visibility::{
    entry_index, focus_target, focusable, focusable_in, hidden_wf, in_seq, is_hidden, key_is,
    offers_focus, first_focusable, snapshot_ids, spec_hide_workspace, spec_insert_hidden,
    spec_reconcile, spec_remove_hidden, spec_retain_hidden, EndpointModel, HiddenModel,
    HideOutcome, SnapshotModel, VisibilityModel, hidden_rows, hidden_pairs, hidden_of_endpoint,
    hidden_in_snapshot, pair_row, RowModel,
};

verus! {

/// Two models with the same keys in the same places find the same entry for every key.
proof fn lemma_entry_index_same_keys(h: HiddenModel, h2: HiddenModel, key: Seq<char>)
    requires
        h.len() == h2.len(),
        forall|a: int| 0 <= a < h.len() ==> (#[trigger] h[a]).0 == h2[a].0,
    ensures
        entry_index(h2, key) == entry_index(h, key),
{
    let p = key_is(key);
    seq_search::lemma_first_where(h, p);
    match entry_index(h, key) {
        Some(i) => {
            assert forall|k: int| 0 <= k < i implies !p(#[trigger] h2[k]) by {
                assert(h[k].0 == h2[k].0);
                assert(!p(h[k]));
            }
            assert(h[i].0 == h2[i].0);
            seq_search::lemma_first_where_at(h2, p, i);
        },
        None => {
            assert forall|k: int| 0 <= k < h2.len() implies !p(#[trigger] h2[k]) by {
                assert(h[k].0 == h2[k].0);
                assert(!p(h[k]));
            }
            seq_search::lemma_first_where_none(h2, p);
        },
    }
}

/// Pushing an entry with a new key leaves every other key's entry where it was.
proof fn lemma_entry_index_push(h: HiddenModel, e: (Seq<char>, Seq<Seq<char>>), key: Seq<char>)
    requires
        entry_index(h, e.0) is None,
    ensures
        entry_index(h.push(e), key) == (if key == e.0 {
            Some(h.len() as int)
        } else {
            entry_index(h, key)
        }),
{
    let p = key_is(key);
    let h2 = h.push(e);
    seq_search::lemma_first_where(h, p);
    seq_search::lemma_first_where(h, key_is(e.0));
    assert(h2.drop_last() =~= h);
    assert(h2.last() == e);
}

/// Whether `s` holds `x` after removing its element at `c`, when nothing occurs twice.
proof fn lemma_remove_contains(s: Seq<Seq<char>>, c: int, x: Seq<char>)
    requires
        s.no_duplicates(),
        0 <= c < s.len(),
    ensures
        s.remove(c).contains(x) == (s.contains(x) && x != s[c]),
{
    let t = s.remove(c);
    if t.contains(x) {
        let j = choose|j: int| 0 <= j < t.len() && t[j] == x;
        let j2 = if j < c { j } else { j + 1 };
        assert(s[j2] == x);
    }
    if s.contains(x) && x != s[c] {
        let j = choose|j: int| 0 <= j < s.len() && s[j] == x;
        if j < c {
            assert(t[j] == x);
        } else {
            assert(j != c);
            assert(t[j - 1] == x);
        }
    }
}

/// Hiding `id` for endpoint `key` reports whether it was visible, hides it, keeps the model
/// well formed, and leaves every other (endpoint, workspace) pair as it was.
pub proof fn lemma_insert_hidden(h: HiddenModel, key: Seq<char>, id: Seq<char>)
    requires
        hidden_wf(h),
    ensures
        ({
            let (added, h2) = spec_insert_hidden(h, key, id);
            &&& added == !is_hidden(h, key, id)
            &&& hidden_wf(h2)
            &&& is_hidden(h2, key, id)
            &&& forall|k: Seq<char>, x: Seq<char>|
                (k, x) != (key, id) ==> #[trigger] is_hidden(h2, k, x) == is_hidden(h, k, x)
        }),
{
    let h2 = spec_insert_hidden(h, key, id).1;
    seq_search::lemma_first_where(h, key_is(key));
    match entry_index(h, key) {
        Some(i) => {
            if !h[i].1.contains(id) {
                assert forall|a: int| 0 <= a < h.len() implies (#[trigger] h[a]).0 == h2[a].0 by {}
                assert forall|k: Seq<char>| #[trigger] entry_index(h2, k) == entry_index(h, k) by {
                    lemma_entry_index_same_keys(h, h2, k);
                }
                let ids = h[i].1;
                assert forall|a: int, b: int|
                    0 <= a < ids.push(id).len() && 0 <= b < ids.push(id).len() && a != b implies
                    ids.push(id)[a] != ids.push(id)[b] by {
                    if a == ids.len() {
                        assert(ids[b] == ids.push(id)[b]);
                    } else if b == ids.len() {
                        assert(ids[a] == ids.push(id)[a]);
                    }
                }
                assert forall|a: int| 0 <= a < h2.len() implies (#[trigger] h2[a]).1.no_duplicates() by {
                    if a != i {
                        assert(h2[a] == h[a]);
                    }
                }
                assert(h2[i].1 == ids.push(id));
                assert(ids.push(id)[ids.len() as int] == id);
                assert forall|k: Seq<char>, x: Seq<char>| (k, x) != (key, id) implies #[trigger] is_hidden(h2, k, x) == is_hidden(h, k, x) by {
                    if k == key {
                        if ids.push(id).contains(x) {
                            let j = choose|j: int| 0 <= j < ids.push(id).len() && ids.push(id)[j] == x;
                            assert(j < ids.len());
                            assert(ids[j] == x);
                        }
                        if ids.contains(x) {
                            let j = choose|j: int| 0 <= j < ids.len() && ids[j] == x;
                            assert(ids.push(id)[j] == x);
                        }
                    } else {
                        match entry_index(h, k) {
                            Some(j) => {
                                seq_search::lemma_first_where(h, key_is(k));
                                assert(j != i);
                            },
                            None => {},
                        }
                    }
                }
            }
        },
        None => {
            let e = (key, seq![id]);
            assert forall|k: Seq<char>| #[trigger] entry_index(h2, k) == (if k == key {
                Some(h.len() as int)
            } else {
                entry_index(h, k)
            }) by {
                lemma_entry_index_push(h, e, k);
            }
            assert(h2[h.len() as int] == e);
            assert(seq![id][0] == id);
            assert forall|a: int, b: int| 0 <= a < b < h2.len() implies h2[a].0 != h2[b].0 by {
                if b == h.len() {
                    assert(!key_is(key)(h[a]));
                }
            }
            assert forall|a: int| 0 <= a < h2.len() implies (#[trigger] h2[a]).1.no_duplicates() by {
                if a < h.len() {
                    assert(h2[a] == h[a]);
                }
            }
            assert forall|k: Seq<char>, x: Seq<char>| (k, x) != (key, id) implies #[trigger] is_hidden(h2, k, x) == is_hidden(h, k, x) by {
                if k == key {
                    if seq![id].contains(x) {
                        let j = choose|j: int| 0 <= j < 1 && seq![id][j] == x;
                    }
                } else {
                    match entry_index(h, k) {
                        Some(j) => {
                            seq_search::lemma_first_where(h, key_is(k));
                            assert(h2[j] == h[j]);
                        },
                        None => {},
                    }
                }
            }
        },
    }
}

/// Showing `id` of endpoint `key` again reports whether it was hidden, shows it, keeps the
/// model well formed, and leaves every other (endpoint, workspace) pair as it was.
pub proof fn lemma_remove_hidden(h: HiddenModel, key: Seq<char>, id: Seq<char>)
    requires
        hidden_wf(h),
    ensures
        ({
            let (removed, h2) = spec_remove_hidden(h, key, id);
            &&& removed == is_hidden(h, key, id)
            &&& hidden_wf(h2)
            &&& !is_hidden(h2, key, id)
            &&& forall|k: Seq<char>, x: Seq<char>|
                (k, x) != (key, id) ==> #[trigger] is_hidden(h2, k, x) == is_hidden(h, k, x)
        }),
{
    let h2 = spec_remove_hidden(h, key, id).1;
    seq_search::lemma_first_where(h, key_is(key));
    match entry_index(h, key) {
        Some(i) => {
            let ids = h[i].1;
            text::lemma_first_index_of(ids, id);
            match text::first_index_of(ids, id) {
                Some(c) => {
                    assert forall|a: int| 0 <= a < h.len() implies (#[trigger] h[a]).0 == h2[a].0 by {}
                    assert forall|k: Seq<char>| #[trigger] entry_index(h2, k) == entry_index(h, k) by {
                        lemma_entry_index_same_keys(h, h2, k);
                    }
                    assert(h[i].1.no_duplicates());
                    assert(h2[i].1 == ids.remove(c));
                    assert forall|a: int, b: int|
                        0 <= a < ids.remove(c).len() && 0 <= b < ids.remove(c).len() && a != b implies
                        ids.remove(c)[a] != ids.remove(c)[b] by {
                        let a2 = if a < c { a } else { a + 1 };
                        let b2 = if b < c { b } else { b + 1 };
                        assert(ids.remove(c)[a] == ids[a2]);
                        assert(ids.remove(c)[b] == ids[b2]);
                    }
                    assert forall|a: int| 0 <= a < h2.len() implies (#[trigger] h2[a]).1.no_duplicates() by {
                        if a != i {
                            assert(h2[a] == h[a]);
                        }
                    }
                    lemma_remove_contains(ids, c, id);
                    assert forall|k: Seq<char>, x: Seq<char>| (k, x) != (key, id) implies #[trigger] is_hidden(h2, k, x) == is_hidden(h, k, x) by {
                        if k == key {
                            lemma_remove_contains(ids, c, x);
                        } else {
                            match entry_index(h, k) {
                                Some(j) => {
                                    seq_search::lemma_first_where(h, key_is(k));
                                    assert(j != i);
                                },
                                None => {},
                            }
                        }
                    }
                },
                None => {
                    if ids.contains(id) {
                        let j = choose|j: int| 0 <= j < ids.len() && ids[j] == id;
                    }
                },
            }
        },
        None => {},
    }
}

/// Showing a workspace right after hiding it leaves every (endpoint, workspace) pair hidden
/// or visible exactly as before, when it was visible before.
pub proof fn lemma_restore_undoes_hide(h: HiddenModel, key: Seq<char>, id: Seq<char>)
    requires
        hidden_wf(h),
        !is_hidden(h, key, id),
    ensures
        forall|k: Seq<char>, x: Seq<char>|
            #[trigger] is_hidden(
                spec_remove_hidden(spec_insert_hidden(h, key, id).1, key, id).1,
                k,
                x,
            ) == is_hidden(h, k, x),
{
    let h1 = spec_insert_hidden(h, key, id).1;
    lemma_insert_hidden(h, key, id);
    lemma_remove_hidden(h1, key, id);
}

/// Where focus goes is a workspace that is not hidden, not the excluded one, and shown by
/// an online endpoint's snapshot.
pub proof fn lemma_focus_target_is_visible(
    h: HiddenModel,
    eps: Seq<EndpointModel>,
    excluded: Option<(Seq<char>, Seq<char>)>,
)
    ensures
        focus_target(h, eps, excluded) matches Some(t) ==> {
            &&& focusable(h, t.0, t.1, excluded)
            &&& exists|e: int|
                0 <= e < eps.len() && (#[trigger] eps[e]).online && eps[e].key == t.0
                    && eps[e].snapshot is Some && snapshot_ids(eps[e].snapshot.unwrap()).contains(
                    t.1,
                )
        },
{
    let p = offers_focus(h, excluded);
    seq_search::lemma_first_where(eps, p);
    if let Some(i) = seq_search::first_where(eps, p) {
        let e = eps[i];
        let s = e.snapshot.unwrap();
        let q = focusable_in(h, e.key, excluded);
        seq_search::lemma_first_where(s.workspaces, q);
        let j = first_focusable(h, e, excluded).unwrap();
        assert(q(s.workspaces[j]));
        assert(snapshot_ids(s)[j] == s.workspaces[j].0);
    }
}

/// Hiding never hides the last workspace that can take focus: it hides only while another
/// visible workspace remains on an online endpoint, otherwise it waits for a new default
/// workspace; and the workspace it moves focus to is visible and not the one being hidden.
pub proof fn lemma_hide_keeps_a_visible_workspace(m: VisibilityModel, id: Seq<char>)
    requires
        hidden_wf(m.hidden),
    ensures
        ({
            let (outcome, m2) = spec_hide_workspace(m, id);
            &&& outcome is Hidden ==> is_hidden(m2.hidden, m.active, id) && focus_target(
                m2.hidden,
                m2.endpoints,
                None,
            ) is Some
            &&& outcome matches HideOutcome::Focus(k, w) ==> !is_hidden(m.hidden, k, w) && (k, w)
                != (m.active, id) && m2.hidden == m.hidden
            &&& outcome is CreateDefault ==> m2.hidden == m.hidden && focus_target(
                m.hidden,
                m.endpoints,
                Some((m.active, id)),
            ) is None
        }),
{
    let (outcome, m2) = spec_hide_workspace(m, id);
    let excl = Some((m.active, id));
    lemma_focus_target_is_visible(m.hidden, m.endpoints, excl);
    if outcome is Hidden {
        let t = focus_target(m.hidden, m.endpoints, excl).unwrap();
        lemma_insert_hidden(m.hidden, m.active, id);
        let h2 = m2.hidden;
        assert(!is_hidden(h2, t.0, t.1));
        let e = choose|e: int|
            0 <= e < m.endpoints.len() && (#[trigger] m.endpoints[e]).online && m.endpoints[e].key
                == t.0 && m.endpoints[e].snapshot is Some && snapshot_ids(
                m.endpoints[e].snapshot.unwrap(),
            ).contains(t.1);
        let s = m.endpoints[e].snapshot.unwrap();
        let j = choose|j: int| 0 <= j < snapshot_ids(s).len() && snapshot_ids(s)[j] == t.1;
        let q = focusable_in(h2, t.0, None);
        assert(s.workspaces[j].0 == t.1);
        assert(q(s.workspaces[j]));
        seq_search::lemma_first_where_some(s.workspaces, q, j);
        assert(offers_focus(h2, None)(m2.endpoints[e]));
        seq_search::lemma_first_where_some(m2.endpoints, offers_focus(h2, None), e);
    }
}

/// A real focus change shows the newly focused workspace of the active endpoint.
pub proof fn lemma_focus_change_shows_focused(m: VisibilityModel)
    requires
        hidden_wf(m.hidden),
    ensures
        m.snapshot matches Some(s) ==> (s.focused matches Some(f) ==> !is_hidden(
            spec_reconcile(m, true).1.hidden,
            m.active,
            f,
        )),
{
    if let Some(s) = m.snapshot {
        if let Some(f) = s.focused {
            let settle = match m.pending {
                Some(pending) => pending.0 != m.active || s.focused != Some(pending.1),
                None => false,
            };
            let h1 = if settle {
                lemma_insert_hidden(m.hidden, m.pending.unwrap().0, m.pending.unwrap().1);
                spec_insert_hidden(m.hidden, m.pending.unwrap().0, m.pending.unwrap().1).1
            } else {
                m.hidden
            };
            lemma_remove_hidden(h1, m.active, f);
        }
    }
}

/// Pruning endpoint `key` against a snapshot keeps hidden exactly those of its workspaces
/// that were hidden and still exist, and leaves every other endpoint as it was.
pub proof fn lemma_prune_keeps_existing(h: HiddenModel, key: Seq<char>, s: SnapshotModel)
    requires
        hidden_wf(h),
    ensures
        ({
            let h2 = spec_retain_hidden(h, key, snapshot_ids(s)).1;
            &&& hidden_wf(h2)
            &&& forall|x: Seq<char>|
                #[trigger] is_hidden(h2, key, x) == (is_hidden(h, key, x) && snapshot_ids(
                    s,
                ).contains(x))
            &&& forall|k: Seq<char>, x: Seq<char>|
                k != key ==> #[trigger] is_hidden(h2, k, x) == is_hidden(h, k, x)
        }),
{
    let existing = snapshot_ids(s);
    let h2 = spec_retain_hidden(h, key, existing).1;
    let p = in_seq(existing);
    seq_search::lemma_first_where(h, key_is(key));
    if let Some(i) = entry_index(h, key) {
        let ids = h[i].1;
        assert forall|a: int| 0 <= a < h.len() implies (#[trigger] h[a]).0 == h2[a].0 by {}
        assert forall|k: Seq<char>| #[trigger] entry_index(h2, k) == entry_index(h, k) by {
            lemma_entry_index_same_keys(h, h2, k);
        }
        crate::workspace_visibility::lemma_filter_keeps_no_duplicates(ids, p);
        assert forall|a: int| 0 <= a < h2.len() implies (#[trigger] h2[a]).1.no_duplicates() by {
            if a != i {
                assert(h2[a] == h[a]);
            }
        }
        assert forall|x: Seq<char>| #[trigger] is_hidden(h2, key, x) == (is_hidden(h, key, x)
            && existing.contains(x)) by {
            if ids.filter(p).contains(x) {
                ids.lemma_filter_contains_rev(p, x);
            }
            if ids.contains(x) && existing.contains(x) {
                let j = choose|j: int| 0 <= j < ids.len() && ids[j] == x;
                assert(p(ids[j]));
                ids.lemma_filter_contains(p, j);
            }
        }
        assert forall|k: Seq<char>, x: Seq<char>| k != key implies #[trigger] is_hidden(h2, k, x)
            == is_hidden(h, k, x) by {
            match entry_index(h, k) {
                Some(j) => {
                    seq_search::lemma_first_where(h, key_is(k));
                    assert(j != i);
                },
                None => {},
            }
        }
    }
}


/// Workspace `w` of endpoint `e` is in the endpoint's snapshot and hidden for it.
pub open spec fn hidden_at(h: HiddenModel, eps: Seq<EndpointModel>, e: int, w: int) -> bool {
    &&& 0 <= e < eps.len()
    &&& eps[e].snapshot is Some
    &&& 0 <= w < eps[e].snapshot.unwrap().workspaces.len()
    &&& is_hidden(h, eps[e].key, eps[e].snapshot.unwrap().workspaces[w].0)
}

/// (endpoint, workspace) pairs in endpoint order, then workspace order.
pub open spec fn pair_before(p: (int, int), q: (int, int)) -> bool {
    p.0 < q.0 || (p.0 == q.0 && p.1 < q.1)
}

proof fn lemma_hidden_in_snapshot_lists(
    h: HiddenModel,
    key: Seq<char>,
    ws: Seq<(Seq<char>, Seq<char>)>,
    ei: int,
    n: nat,
)
    requires
        n <= ws.len(),
    ensures
        ({
            let s = hidden_in_snapshot(h, key, ws, ei, n);
            &&& forall|k: int| 0 <= k < s.len() ==> (#[trigger] s[k]).0 == ei && 0 <= s[k].1 < n
                && is_hidden(h, key, ws[s[k].1].0)
            &&& forall|w: int| 0 <= w < n && is_hidden(h, key, ws[w].0) ==> #[trigger] s.contains((ei, w))
            &&& forall|a: int, b: int| 0 <= a < b < s.len() ==> #[trigger] s[a].1 < #[trigger] s[b].1
        }),
    decreases n,
{
    if n > 0 {
        lemma_hidden_in_snapshot_lists(h, key, ws, ei, (n - 1) as nat);
        let rest = hidden_in_snapshot(h, key, ws, ei, (n - 1) as nat);
        let s = hidden_in_snapshot(h, key, ws, ei, n);
        if is_hidden(h, key, ws[n - 1].0) {
            assert(s == rest.push((ei, n - 1)));
            assert forall|k: int| 0 <= k < s.len() implies (#[trigger] s[k]).0 == ei && 0 <= s[k].1 < n
                && is_hidden(h, key, ws[s[k].1].0) by {
                if k < rest.len() {
                    assert(s[k] == rest[k]);
                }
            }
            assert forall|w: int| 0 <= w < n && is_hidden(h, key, ws[w].0) implies #[trigger] s.contains((ei, w)) by {
                if w < n - 1 {
                    assert(rest.contains((ei, w)));
                    let j = choose|j: int| 0 <= j < rest.len() && rest[j] == (ei, w);
                    assert(s[j] == (ei, w));
                } else {
                    assert(s[rest.len() as int] == (ei, w));
                }
            }
            assert forall|a: int, b: int| 0 <= a < b < s.len() implies #[trigger] s[a].1 < #[trigger] s[b].1 by {
                assert(s[a] == rest[a]);
                if b < rest.len() {
                    assert(s[b] == rest[b]);
                }
            }
        } else {
            assert forall|w: int| 0 <= w < n && is_hidden(h, key, ws[w].0) implies #[trigger] s.contains((ei, w)) by {
                assert(w < n - 1);
                assert(rest.contains((ei, w)));
            }
        }
    }
}

proof fn lemma_hidden_pairs_lists(h: HiddenModel, eps: Seq<EndpointModel>, n: nat)
    requires
        n <= eps.len(),
    ensures
        ({
            let s = hidden_pairs(h, eps, n);
            &&& forall|p: (int, int)| #[trigger] s.contains(p) <==> (p.0 < n && hidden_at(h, eps, p.0, p.1))
            &&& forall|a: int, b: int| 0 <= a < b < s.len() ==> pair_before(#[trigger] s[a], #[trigger] s[b])
            &&& forall|k: int| 0 <= k < s.len() ==> (#[trigger] s[k]).0 < n
        }),
    decreases n,
{
    if n > 0 {
        lemma_hidden_pairs_lists(h, eps, (n - 1) as nat);
        let base = hidden_pairs(h, eps, (n - 1) as nat);
        let e = eps[n - 1];
        let more = hidden_of_endpoint(h, e, n - 1);
        let s = base + more;
        assert(s == hidden_pairs(h, eps, n));
        match e.snapshot {
            Some(snap) => {
                lemma_hidden_in_snapshot_lists(h, e.key, snap.workspaces, n - 1, snap.workspaces.len());
            },
            None => {
                assert(more =~= Seq::<(int, int)>::empty());
            },
        }
        assert forall|k: int| 0 <= k < more.len() implies (#[trigger] more[k]).0 == n - 1 && hidden_at(
            h,
            eps,
            more[k].0,
            more[k].1,
        ) by {}
        assert forall|p: (int, int)| #[trigger] s.contains(p) <==> (p.0 < n && hidden_at(h, eps, p.0, p.1)) by {
            if s.contains(p) {
                let j = choose|j: int| 0 <= j < s.len() && s[j] == p;
                if j < base.len() {
                    assert(base[j] == p);
                    assert(base.contains(p));
                } else {
                    assert(more[j - base.len()] == p);
                }
            }
            if p.0 < n && hidden_at(h, eps, p.0, p.1) {
                if p.0 < n - 1 {
                    assert(base.contains(p));
                    let j = choose|j: int| 0 <= j < base.len() && base[j] == p;
                    assert(s[j] == p);
                } else {
                    let snap = e.snapshot.unwrap();
                    assert(more.contains((n - 1, p.1)));
                    let j = choose|j: int| 0 <= j < more.len() && more[j] == (n - 1, p.1);
                    assert(s[base.len() + j] == p);
                }
            }
        }
        assert forall|a: int, b: int| 0 <= a < b < s.len() implies pair_before(#[trigger] s[a], #[trigger] s[b]) by {
            if b < base.len() {
                assert(s[a] == base[a] && s[b] == base[b]);
            } else if a < base.len() {
                assert(s[a] == base[a]);
                assert(s[b] == more[b - base.len()]);
            } else {
                assert(s[a] == more[a - base.len()]);
                assert(s[b] == more[b - base.len()]);
            }
        }
        assert forall|k: int| 0 <= k < s.len() implies (#[trigger] s[k]).0 < n by {
            if k < base.len() {
                assert(s[k] == base[k]);
            } else {
                assert(s[k] == more[k - base.len()]);
            }
        }
    }
}

/// The hidden tree covers every endpoint: expanded, it lists each (endpoint, workspace)
/// pair whose workspace is in the endpoint's snapshot and hidden for that endpoint, and
/// nothing else, in endpoint order and then snapshot order, under a header that counts
/// them; there is no tree when nothing is hidden; folded, only the header is left.
pub proof fn lemma_hidden_rows_list_every_hidden_workspace(h: HiddenModel, eps: Seq<EndpointModel>)
    ensures
        ({
            let rows = hidden_rows(h, eps, true);
            &&& forall|e: int, w: int| #[trigger] rows.contains(RowModel::Workspace(e, w)) <==> hidden_at(h, eps, e, w)
            &&& (rows.len() == 0) == (forall|e: int, w: int| !#[trigger] hidden_at(h, eps, e, w))
            &&& rows.len() > 0 ==> rows[0] == RowModel::Header((rows.len() - 1) as nat)
            &&& forall|a: int, b: int| 1 <= a < b < rows.len() ==> {
                &&& #[trigger] rows[a] matches RowModel::Workspace(e1, w1)
                &&& #[trigger] rows[b] matches RowModel::Workspace(e2, w2)
                &&& pair_before((e1, w1), (e2, w2))
            }
            &&& hidden_rows(h, eps, false) == if rows.len() == 0 {
                Seq::<RowModel>::empty()
            } else {
                seq![rows[0]]
            }
        }),
{
    let pairs = hidden_pairs(h, eps, eps.len());
    lemma_hidden_pairs_lists(h, eps, eps.len());
    let rows = hidden_rows(h, eps, true);
    let mapped = pairs.map_values(|p: (int, int)| pair_row(p));
    if pairs.len() == 0 {
        assert(rows =~= Seq::<RowModel>::empty());
        assert forall|e: int, w: int| !#[trigger] hidden_at(h, eps, e, w) by {
            if hidden_at(h, eps, e, w) {
                assert(pairs.contains((e, w)));
            }
        }
        assert(hidden_rows(h, eps, false) =~= Seq::<RowModel>::empty());
    } else {
        assert(rows == seq![RowModel::Header(pairs.len())] + mapped);
        assert(rows.len() == pairs.len() + 1);
        assert forall|k: int| 1 <= k < rows.len() implies #[trigger] rows[k] == pair_row(pairs[k - 1]) by {
            assert(rows[k] == mapped[k - 1]);
        }
        assert forall|e: int, w: int| #[trigger] rows.contains(RowModel::Workspace(e, w)) <==> hidden_at(h, eps, e, w) by {
            if rows.contains(RowModel::Workspace(e, w)) {
                let j = choose|j: int| 0 <= j < rows.len() && rows[j] == RowModel::Workspace(e, w);
                assert(j != 0);
                assert(rows[j] == pair_row(pairs[j - 1]));
                assert(pairs[j - 1] == (e, w));
                assert(pairs.contains((e, w)));
            }
            if hidden_at(h, eps, e, w) {
                assert(pairs.contains((e, w)));
                let j = choose|j: int| 0 <= j < pairs.len() && pairs[j] == (e, w);
                assert(rows[j + 1] == pair_row(pairs[j]));
            }
        }
        let p0 = pairs[0];
        assert(pairs.contains(p0));
        assert(hidden_at(h, eps, p0.0, p0.1));
        assert forall|a: int, b: int| 1 <= a < b < rows.len() implies {
            &&& #[trigger] rows[a] matches RowModel::Workspace(e1, w1)
            &&& #[trigger] rows[b] matches RowModel::Workspace(e2, w2)
            &&& pair_before((e1, w1), (e2, w2))
        } by {
            assert(rows[a] == pair_row(pairs[a - 1]));
            assert(rows[b] == pair_row(pairs[b - 1]));
            assert(pair_before(pairs[a - 1], pairs[b - 1]));
        }
        assert(hidden_rows(h, eps, false) =~= seq![rows[0]]);
    }
}

} // verus!
