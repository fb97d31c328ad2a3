//! What the layout operations keep: normalizing lists each workspace once, keeps the old
//! order and the folders, and changes nothing a second time; deleting a folder keeps the
//! workspace order; removing and placing a workspace move it alone, to where it was asked
//! to go; folder ids are fresh.
use vstd::multiset::Multiset;
use vstd::prelude::*;

use crate::text;
use crate::seq_search;
use crate::workspace_layout::{
    append_missing, entry_ids, filter_members, folder_of, members_of, normalize_items,
    ordered_ids, spec_delete_folder, folder_id_number, folder_id_string, folder_index,
    is_folder_with_id, max_folder_number, reserved_next, spec_normalize, spec_place_workspace, spec_remove_at,
    spec_remove_workspace,
    with_members, workspace_entries, workspace_position, entry_holds, FolderModel, LayoutEntry,
    WorkspaceLayoutError,
};

verus! {

/// The ids of the folders of a layout, in order.
pub open spec fn folder_ids_of(items: Seq<LayoutEntry>) -> Seq<Seq<char>>
    decreases items.len(),
{
    if items.len() == 0 {
        Seq::empty()
    } else {
        folder_ids_of(items.drop_last()) + match items.last() {
            LayoutEntry::Folder(f) => seq![f.id],
            LayoutEntry::Workspace(_) => Seq::empty(),
        }
    }
}

pub proof fn lemma_ordered_ids_push(items: Seq<LayoutEntry>, e: LayoutEntry)
    ensures
        ordered_ids(items.push(e)) == ordered_ids(items) + entry_ids(e),
        folder_ids_of(items.push(e)) == folder_ids_of(items) + match e {
            LayoutEntry::Folder(f) => seq![f.id],
            LayoutEntry::Workspace(_) => Seq::<Seq<char>>::empty(),
        },
{
    assert(items.push(e).drop_last() =~= items);
}

proof fn lemma_push_no_duplicates(s: Seq<Seq<char>>, w: Seq<char>)
    requires
        s.no_duplicates(),
        !s.contains(w),
    ensures
        s.push(w).no_duplicates(),
{
    let t = s.push(w);
    assert forall|i: int, j: int| 0 <= i < t.len() && 0 <= j < t.len() && i != j implies t[i]
        != t[j] by {
        if i == s.len() {
            assert(s[j] == t[j]);
        } else if j == s.len() {
            assert(s[i] == t[i]);
        }
    }
}

proof fn lemma_filter_members(
    members: Seq<Seq<char>>,
    valid: Seq<Seq<char>>,
    seen: Seq<Seq<char>>,
    n: nat,
)
    requires
        n <= members.len(),
        seen.no_duplicates(),
    ensures
        filter_members(members, valid, seen, n).1 == seen + filter_members(members, valid, seen, n).0,
        filter_members(members, valid, seen, n).1.no_duplicates(),
        forall|k: int|
            0 <= k < filter_members(members, valid, seen, n).0.len() ==> valid.contains(
                #[trigger] filter_members(members, valid, seen, n).0[k],
            ),
    decreases n,
{
    if n > 0 {
        lemma_filter_members(members, valid, seen, (n - 1) as nat);
        let (kept, s) = filter_members(members, valid, seen, (n - 1) as nat);
        let w = members[n - 1];
        if valid.contains(w) && !s.contains(w) {
            lemma_push_no_duplicates(s, w);
            assert(s.push(w) =~= seen + kept.push(w));
            assert forall|k: int| 0 <= k < kept.push(w).len() implies valid.contains(
                #[trigger] kept.push(w)[k],
            ) by {
                if k < kept.len() {
                    assert(kept.push(w)[k] == kept[k]);
                }
            }
        }
    } else {
        assert(seen + Seq::<Seq<char>>::empty() =~= seen);
    }
}

proof fn lemma_normalize_items(items: Seq<LayoutEntry>, valid: Seq<Seq<char>>, n: nat)
    requires
        n <= items.len(),
    ensures
        ordered_ids(normalize_items(items, valid, n).0) == normalize_items(items, valid, n).1,
        normalize_items(items, valid, n).1.no_duplicates(),
        forall|w: Seq<char>| #[trigger]
            normalize_items(items, valid, n).1.contains(w) ==> valid.contains(w),
        folder_ids_of(normalize_items(items, valid, n).0) == normalize_items(items, valid, n).2,
        normalize_items(items, valid, n).2.no_duplicates(),
    decreases n,
{
    if n == 0 {
        assert(ordered_ids(Seq::<LayoutEntry>::empty()) =~= Seq::<Seq<char>>::empty());
    } else {
        lemma_normalize_items(items, valid, (n - 1) as nat);
        let (kept, seen, folders) = normalize_items(items, valid, (n - 1) as nat);
        match items[n - 1] {
            LayoutEntry::Workspace(w) => {
                if valid.contains(w) && !seen.contains(w) {
                    lemma_ordered_ids_push(kept, LayoutEntry::Workspace(w));
                    lemma_push_no_duplicates(seen, w);
                    assert(seen + seq![w] =~= seen.push(w));
                    assert(folder_ids_of(kept) + Seq::<Seq<char>>::empty() =~= folder_ids_of(kept));
                    assert forall|x: Seq<char>| #[trigger] seen.push(w).contains(x) implies valid.contains(x) by {
                        if x != w {
                            let k = choose|k: int| 0 <= k < seen.push(w).len() && seen.push(w)[k] == x;
                            assert(seen[k] == x);
                            assert(seen.contains(x));
                        }
                    }
                }
            },
            LayoutEntry::Folder(f) => {
                if !folders.contains(f.id) {
                    lemma_filter_members(f.members, valid, seen, f.members.len());
                    let (members, seen2) = filter_members(f.members, valid, seen, f.members.len());
                    let e = LayoutEntry::Folder(FolderModel { members, ..f });
                    lemma_ordered_ids_push(kept, e);
                    lemma_push_no_duplicates(folders, f.id);
                    assert(folders + seq![f.id] =~= folders.push(f.id));
                    assert forall|x: Seq<char>| #[trigger] seen2.contains(x) implies valid.contains(x) by {
                        let k = choose|k: int| 0 <= k < seen2.len() && seen2[k] == x;
                        if k < seen.len() {
                            assert(seen[k] == x);
                            assert(seen.contains(x));
                        } else {
                            assert(members[k - seen.len()] == x);
                            assert(valid.contains(members[k - seen.len()]));
                        }
                    }
                }
            },
        }
    }
}

proof fn lemma_append_missing(
    items: Seq<LayoutEntry>,
    seen: Seq<Seq<char>>,
    ids: Seq<Seq<char>>,
    n: nat,
)
    requires
        n <= ids.len(),
        ordered_ids(items) == seen,
        seen.no_duplicates(),
    ensures
        ordered_ids(append_missing(items, seen, ids, n).0) == append_missing(items, seen, ids, n).1,
        append_missing(items, seen, ids, n).1.no_duplicates(),
        forall|w: Seq<char>| #[trigger]
            append_missing(items, seen, ids, n).1.contains(w) ==> seen.contains(w) || ids.contains(w),
        forall|k: int| 0 <= k < n ==> #[trigger] append_missing(items, seen, ids, n).1.contains(ids[k]),
        forall|w: Seq<char>| seen.contains(w) ==> #[trigger] append_missing(items, seen, ids, n).1.contains(w),
        folder_ids_of(append_missing(items, seen, ids, n).0) == folder_ids_of(items),
    decreases n,
{
    if n > 0 {
        lemma_append_missing(items, seen, ids, (n - 1) as nat);
        let (out, s) = append_missing(items, seen, ids, (n - 1) as nat);
        let w = ids[n - 1];
        if !s.contains(w) {
            lemma_ordered_ids_push(out, LayoutEntry::Workspace(w));
            lemma_push_no_duplicates(s, w);
            assert(s + seq![w] =~= s.push(w));
            assert(folder_ids_of(out) + Seq::<Seq<char>>::empty() =~= folder_ids_of(out));
            assert(s.push(w)[s.len() as int] == w);
            assert forall|x: Seq<char>| #[trigger] s.push(w).contains(x) implies seen.contains(x)
                || ids.contains(x) by {
                if x != w {
                    let k = choose|k: int| 0 <= k < s.push(w).len() && s.push(w)[k] == x;
                    assert(s[k] == x);
                    assert(s.contains(x));
                } else {
                    assert(ids[n - 1] == x);
                    assert(ids.contains(x));
                }
            }
            assert forall|k: int| 0 <= k < n implies #[trigger] s.push(w).contains(ids[k]) by {
                if k < n - 1 {
                    assert(s.contains(ids[k]));
                    let j = choose|j: int| 0 <= j < s.len() && s[j] == ids[k];
                    assert(s.push(w)[j] == ids[k]);
                }
            }
            assert forall|x: Seq<char>| seen.contains(x) implies #[trigger] s.push(w).contains(x) by {
                assert(s.contains(x));
                let j = choose|j: int| 0 <= j < s.len() && s[j] == x;
                assert(s.push(w)[j] == x);
            }
        }
    }
}

/// After normalizing against the existing workspaces `ids`, the sidebar lists each of
/// them exactly once and nothing else, and no two folders share an id.
pub proof fn lemma_normalize_lists_each_workspace_once(items: Seq<LayoutEntry>, ids: Seq<Seq<char>>)
    ensures
        ordered_ids(spec_normalize(items, ids)).no_duplicates(),
        forall|w: Seq<char>| #[trigger] ordered_ids(spec_normalize(items, ids)).contains(w) <==> ids.contains(w),
        folder_ids_of(spec_normalize(items, ids)).no_duplicates(),
{
    lemma_normalize_items(items, ids, items.len());
    let (kept, seen, folders) = normalize_items(items, ids, items.len());
    lemma_append_missing(kept, seen, ids, ids.len());
    let s = append_missing(kept, seen, ids, ids.len()).1;
    assert forall|w: Seq<char>| #[trigger] s.contains(w) <==> ids.contains(w) by {
        if ids.contains(w) {
            let k = choose|k: int| 0 <= k < ids.len() && ids[k] == w;
            assert(s.contains(ids[k]));
        }
    }
}


/// The sidebar order of two item lists one after the other.
pub proof fn lemma_ordered_ids_concat(a: Seq<LayoutEntry>, b: Seq<LayoutEntry>)
    ensures
        ordered_ids(a + b) == ordered_ids(a) + ordered_ids(b),
    decreases b.len(),
{
    if b.len() == 0 {
        assert(a + b =~= a);
        assert(ordered_ids(a) + Seq::<Seq<char>>::empty() =~= ordered_ids(a));
    } else {
        lemma_ordered_ids_concat(a, b.drop_last());
        assert((a + b).drop_last() =~= a + b.drop_last());
        assert((a + b).last() == b.last());
        assert(ordered_ids(a + b) =~= ordered_ids(a) + ordered_ids(b.drop_last()) + entry_ids(b.last()));
    }
}

/// Root workspace entries list exactly their ids.
pub proof fn lemma_ordered_ids_workspace_entries(ids: Seq<Seq<char>>)
    ensures
        ordered_ids(workspace_entries(ids)) == ids,
    decreases ids.len(),
{
    if ids.len() > 0 {
        lemma_ordered_ids_workspace_entries(ids.drop_last());
        assert(workspace_entries(ids).drop_last() =~= workspace_entries(ids.drop_last()));
        assert(ids.drop_last() + seq![ids.last()] =~= ids);
    } else {
        assert(workspace_entries(ids) =~= Seq::<LayoutEntry>::empty());
        assert(ids =~= Seq::<Seq<char>>::empty());
    }
}

proof fn lemma_ordered_ids_split(items: Seq<LayoutEntry>, i: int)
    requires
        0 <= i < items.len(),
    ensures
        ordered_ids(items) == ordered_ids(items.take(i)) + entry_ids(items[i]) + ordered_ids(
            items.skip(i + 1),
        ),
{
    let one = seq![items[i]];
    assert(items =~= items.take(i) + one + items.skip(i + 1));
    lemma_ordered_ids_concat(items.take(i) + one, items.skip(i + 1));
    lemma_ordered_ids_concat(items.take(i), one);
    assert(one.drop_last() =~= Seq::<LayoutEntry>::empty());
    assert(ordered_ids(Seq::<LayoutEntry>::empty()) == Seq::<Seq<char>>::empty());
    assert(ordered_ids(one) =~= entry_ids(items[i]));
}

/// Deleting a folder keeps every workspace, in the same sidebar order.
pub proof fn lemma_delete_folder_keeps_workspace_order(items: Seq<LayoutEntry>, id: Seq<char>)
    ensures
        ordered_ids(spec_delete_folder(items, id).1) == ordered_ids(items),
{
    if let Some(i) = crate::workspace_layout::folder_index(items, id) {
        seq_search::lemma_first_where(items, |e: LayoutEntry| crate::workspace_layout::is_folder_with_id(e, id));
        let members = folder_of(items[i]).members;
        lemma_ordered_ids_split(items, i);
        lemma_ordered_ids_workspace_entries(members);
        lemma_ordered_ids_concat(items.take(i) + workspace_entries(members), items.skip(i + 1));
        lemma_ordered_ids_concat(items.take(i), workspace_entries(members));
    }
}

/// The multiset of workspace ids of a layout.
pub open spec fn workspace_multiset(items: Seq<LayoutEntry>) -> Multiset<Seq<char>> {
    ordered_ids(items).to_multiset()
}

proof fn lemma_multiset_split(items: Seq<LayoutEntry>, i: int)
    requires
        0 <= i < items.len(),
    ensures
        workspace_multiset(items) == workspace_multiset(items.take(i)).add(
            entry_ids(items[i]).to_multiset(),
        ).add(workspace_multiset(items.skip(i + 1))),
{
    lemma_ordered_ids_split(items, i);
    vstd::seq_lib::lemma_multiset_commutative(
        ordered_ids(items.take(i)) + entry_ids(items[i]),
        ordered_ids(items.skip(i + 1)),
    );
    vstd::seq_lib::lemma_multiset_commutative(ordered_ids(items.take(i)), entry_ids(items[i]));
}

/// Taking workspace `w` out at its position removes one `w` from the multiset.
proof fn lemma_remove_at_multiset(items: Seq<LayoutEntry>, w: Seq<char>)
    requires
        workspace_position(items, w) is Some,
    ensures
        workspace_multiset(items).count(w) > 0,
        workspace_multiset(spec_remove_at(items, workspace_position(items, w).unwrap().0, workspace_position(items, w).unwrap().1))
            == workspace_multiset(items).remove(w),
{
    broadcast use vstd::multiset::group_multiset_axioms;
    broadcast use vstd::seq_lib::group_to_multiset_ensures;

    seq_search::lemma_first_where(items, |e: LayoutEntry| entry_holds(e, w));
    let (i, c) = workspace_position(items, w).unwrap();
    assert(entry_holds(items[i], w));
    text::lemma_first_index_of(members_of(items[i]), w);
    let removed = spec_remove_at(items, i, c);
    lemma_multiset_split(items, i);
    let pre = workspace_multiset(items.take(i));
    let post = workspace_multiset(items.skip(i + 1));
    let here = entry_ids(items[i]).to_multiset();
    match c {
        None => {
            assert(items[i] == LayoutEntry::Workspace(w));
            assert(entry_ids(items[i]) =~= seq![w]);
            assert(seq![w] =~= Seq::<Seq<char>>::empty().push(w));
            assert(here =~= Multiset::<Seq<char>>::empty().insert(w));
            assert(removed =~= items.take(i) + items.skip(i + 1));
            lemma_ordered_ids_concat(items.take(i), items.skip(i + 1));
            vstd::seq_lib::lemma_multiset_commutative(ordered_ids(items.take(i)), ordered_ids(items.skip(i + 1)));
            assert(workspace_multiset(removed) =~= workspace_multiset(items).remove(w));
        },
        Some(c) => {
            let members = members_of(items[i]);
            text::lemma_first_index_of(members, w);
            assert(members[c] == w);
            let e2 = with_members(items[i], members.remove(c));
            assert(entry_ids(e2) == members.remove(c));
            assert(entry_ids(items[i]) == members);
            lemma_multiset_split(removed, i);
            assert(removed.take(i) =~= items.take(i));
            assert(removed.skip(i + 1) =~= items.skip(i + 1));
            assert(removed[i] == e2);
            assert(members.remove(c).to_multiset() == members.to_multiset().remove(w));
            assert(here.count(w) > 0);
            assert(workspace_multiset(removed) =~= workspace_multiset(items).remove(w));
        },
    }
}

proof fn lemma_insert_member_multiset(items: Seq<LayoutEntry>, i: int, at: int, w: Seq<char>)
    requires
        0 <= i < items.len(),
        items[i] is Folder,
        0 <= at <= members_of(items[i]).len(),
    ensures
        workspace_multiset(items.update(i, with_members(items[i], members_of(items[i]).insert(at, w))))
            == workspace_multiset(items).insert(w),
{
    broadcast use vstd::multiset::group_multiset_axioms;
    broadcast use vstd::seq_lib::group_to_multiset_ensures;

    let members = members_of(items[i]);
    let e2 = with_members(items[i], members.insert(at, w));
    let placed = items.update(i, e2);
    lemma_multiset_split(items, i);
    lemma_multiset_split(placed, i);
    assert(placed.take(i) =~= items.take(i));
    assert(placed.skip(i + 1) =~= items.skip(i + 1));
    assert(placed[i] == e2);
    assert(entry_ids(e2) == members.insert(at, w));
    assert(entry_ids(items[i]) == members);
    assert(members.insert(at, w).to_multiset() == members.to_multiset().insert(w));
    assert(workspace_multiset(placed) =~= workspace_multiset(items).insert(w));
}

proof fn lemma_insert_root_multiset(items: Seq<LayoutEntry>, at: int, w: Seq<char>)
    requires
        0 <= at <= items.len(),
    ensures
        workspace_multiset(items.insert(at, LayoutEntry::Workspace(w))) == workspace_multiset(items).insert(w),
{
    broadcast use vstd::multiset::group_multiset_axioms;
    broadcast use vstd::seq_lib::group_to_multiset_ensures;

    let placed = items.insert(at, LayoutEntry::Workspace(w));
    let one = seq![LayoutEntry::Workspace(w)];
    assert(placed =~= items.take(at) + one + items.skip(at));
    assert(items =~= items.take(at) + items.skip(at));
    lemma_ordered_ids_concat(items.take(at) + one, items.skip(at));
    lemma_ordered_ids_concat(items.take(at), one);
    lemma_ordered_ids_concat(items.take(at), items.skip(at));
    assert(one.drop_last() =~= Seq::<LayoutEntry>::empty());
    assert(ordered_ids(Seq::<LayoutEntry>::empty()) == Seq::<Seq<char>>::empty());
    assert(ordered_ids(one) =~= seq![w]);
    assert(seq![w] =~= Seq::<Seq<char>>::empty().push(w));
    vstd::seq_lib::lemma_multiset_commutative(ordered_ids(items.take(at)) + seq![w], ordered_ids(items.skip(at)));
    vstd::seq_lib::lemma_multiset_commutative(ordered_ids(items.take(at)), seq![w]);
    vstd::seq_lib::lemma_multiset_commutative(ordered_ids(items.take(at)), ordered_ids(items.skip(at)));
    assert(workspace_multiset(placed) =~= workspace_multiset(items).insert(w));
}

proof fn lemma_insert_entry_multiset(items: Seq<LayoutEntry>, at: int, e: LayoutEntry)
    requires
        0 <= at <= items.len(),
    ensures
        workspace_multiset(items.insert(at, e)) == workspace_multiset(items).add(entry_ids(e).to_multiset()),
{
    broadcast use vstd::multiset::group_multiset_axioms;

    let placed = items.insert(at, e);
    let one = seq![e];
    assert(placed =~= items.take(at) + one + items.skip(at));
    assert(items =~= items.take(at) + items.skip(at));
    lemma_ordered_ids_concat(items.take(at) + one, items.skip(at));
    lemma_ordered_ids_concat(items.take(at), one);
    lemma_ordered_ids_concat(items.take(at), items.skip(at));
    assert(one.drop_last() =~= Seq::<LayoutEntry>::empty());
    assert(ordered_ids(Seq::<LayoutEntry>::empty()) == Seq::<Seq<char>>::empty());
    assert(ordered_ids(one) =~= entry_ids(e));
    vstd::seq_lib::lemma_multiset_commutative(ordered_ids(items.take(at)) + entry_ids(e), ordered_ids(items.skip(at)));
    vstd::seq_lib::lemma_multiset_commutative(ordered_ids(items.take(at)), entry_ids(e));
    vstd::seq_lib::lemma_multiset_commutative(ordered_ids(items.take(at)), ordered_ids(items.skip(at)));
    assert(workspace_multiset(placed) =~= workspace_multiset(items).add(entry_ids(e).to_multiset()));
}

/// Moving a folder reorders the items: the same items, and the same workspaces, as before.
pub proof fn lemma_move_folder_keeps_items(items: Seq<LayoutEntry>, id: Seq<char>, insert_index: int)
    requires
        0 <= insert_index,
    ensures
        crate::workspace_layout::spec_move_folder(items, id, insert_index).1.to_multiset() == items.to_multiset(),
        workspace_multiset(crate::workspace_layout::spec_move_folder(items, id, insert_index).1) == workspace_multiset(items),
{
    broadcast use vstd::multiset::group_multiset_axioms;
    broadcast use vstd::seq_lib::group_to_multiset_ensures;

    let (r, moved) = crate::workspace_layout::spec_move_folder(items, id, insert_index);
    if r is Ok && r.unwrap() {
        let source = crate::workspace_layout::folder_index(items, id).unwrap();
        seq_search::lemma_first_where(items, |e: LayoutEntry| crate::workspace_layout::is_folder_with_id(e, id));
        let target = if source < insert_index { insert_index - 1 } else { insert_index };
        let removed = items.remove(source);
        assert(moved == removed.insert(target, items[source]));
        assert(items.contains(items[source]));
        assert(items.to_multiset().count(items[source]) > 0);
        assert(removed.to_multiset() == items.to_multiset().remove(items[source]));
        assert(moved.to_multiset() == removed.to_multiset().insert(items[source]));
        assert(moved.to_multiset() =~= items.to_multiset());
        lemma_insert_entry_multiset(removed, target, items[source]);
        lemma_insert_entry_multiset(removed, source, items[source]);
        assert(removed.insert(source, items[source]) =~= items);
    }
}

/// Placing a workspace moves it: the layout holds the same workspace ids, each as often
/// as before.
pub proof fn lemma_place_workspace_keeps_workspaces(
    items: Seq<LayoutEntry>,
    w: Seq<char>,
    folder: Option<Seq<char>>,
    insert_index: int,
)
    requires
        0 <= insert_index,
    ensures
        workspace_multiset(spec_place_workspace(items, w, folder, insert_index).1)
            == workspace_multiset(items),
{
    broadcast use vstd::multiset::group_multiset_axioms;
    broadcast use vstd::seq_lib::group_to_multiset_ensures;

    let (r, placed) = spec_place_workspace(items, w, folder, insert_index);
    if r is Ok && r.unwrap() {
        let (si, sc) = workspace_position(items, w).unwrap();
        seq_search::lemma_first_where(items, |e: LayoutEntry| entry_holds(e, w));
        assert(entry_holds(items[si], w));
        text::lemma_first_index_of(members_of(items[si]), w);
        lemma_remove_at_multiset(items, w);
        let removed = spec_remove_at(items, si, sc);
        let m = workspace_multiset(items);
        match folder {
            Some(f) => {
                crate::workspace_layout::lemma_remove_keeps_folder(items, si, sc, f);
                let di = crate::workspace_layout::folder_index(removed, f).unwrap();
                seq_search::lemma_first_where(removed, |e: LayoutEntry| crate::workspace_layout::is_folder_with_id(e, f));
                let members = members_of(removed[di]);
                let target = if (sc is Some && crate::workspace_layout::is_folder_with_id(items[si], f) && sc.unwrap() < insert_index) {
                    insert_index - 1
                } else {
                    insert_index
                };
                let at = if target < members.len() { target } else { members.len() as int };
                assert(placed == removed.update(di, with_members(removed[di], members.insert(at, w))));
                lemma_insert_member_multiset(removed, di, at, w);
            },
            None => {
                let target = if (sc is None && si < insert_index) {
                    insert_index - 1
                } else {
                    insert_index
                };
                let at = if target < removed.len() { target } else { removed.len() as int };
                assert(placed == removed.insert(at, LayoutEntry::Workspace(w)));
                lemma_insert_root_multiset(removed, at, w);
            },
        }
        assert(m.remove(w).insert(w) =~= m);
    }
}


/// The folder id `f<n>` has number `n`.
pub proof fn lemma_folder_id_number(n: nat)
    requires
        n <= u64::MAX,
    ensures
        folder_id_number(folder_id_string(n)) == Some(n),
{
    text::lemma_dec_string_reads_back(n);
    let id = folder_id_string(n);
    assert(id.skip(1) =~= text::dec_string(n));
    assert(text::dec_string(n)[0] != '+');
}

/// No folder of a layout has a number above the largest.
proof fn lemma_max_folder_number(items: Seq<LayoutEntry>, k: int)
    requires
        0 <= k < items.len(),
        items[k] is Folder,
        folder_id_number(items[k]->Folder_0.id) is Some,
    ensures
        max_folder_number(items) is Some,
        folder_id_number(items[k]->Folder_0.id).unwrap() <= max_folder_number(items).unwrap(),
    decreases items.len(),
{
    if k < items.len() - 1 {
        assert(items.drop_last()[k] == items[k]);
        lemma_max_folder_number(items.drop_last(), k);
    }
}

/// After the counter has been moved past the folder numbers of a layout, the next
/// generated folder id names no folder of that layout (unless the largest number is
/// `u64::MAX`, which leaves no room).
pub proof fn lemma_reserved_id_is_fresh(items: Seq<LayoutEntry>, next: u64)
    requires
        max_folder_number(items) matches Some(m) ==> m < u64::MAX,
    ensures
        folder_index(items, folder_id_string(reserved_next(next, items) as nat)) is None,
{
    let n = reserved_next(next, items) as nat;
    let id = folder_id_string(n);
    lemma_folder_id_number(n);
    assert forall|k: int| 0 <= k < items.len() implies !is_folder_with_id(#[trigger] items[k], id) by {
        if is_folder_with_id(items[k], id) {
            lemma_max_folder_number(items, k);
        }
    }
    seq_search::lemma_first_where_none(items, |e: LayoutEntry| is_folder_with_id(e, id));
}


/// The sidebar order holds `w` exactly when some item holds it.
proof fn lemma_ordered_ids_contains(items: Seq<LayoutEntry>, w: Seq<char>)
    ensures
        ordered_ids(items).contains(w) == (exists|k: int|
            0 <= k < items.len() && entry_holds(#[trigger] items[k], w)),
    decreases items.len(),
{
    if items.len() > 0 {
        let init = items.drop_last();
        lemma_ordered_ids_contains(init, w);
        let a = ordered_ids(init);
        let e = entry_ids(items.last());
        assert(ordered_ids(items) == a + e);
        assert(e.contains(w) == entry_holds(items.last(), w)) by {
            if let LayoutEntry::Workspace(x) = items.last() {
                if x == w {
                    assert(e[0] == w);
                }
            }
        }
        if (a + e).contains(w) {
            let j = choose|j: int| 0 <= j < (a + e).len() && (a + e)[j] == w;
            if j < a.len() {
                assert(a[j] == w);
                let k = choose|k: int| 0 <= k < init.len() && entry_holds(#[trigger] init[k], w);
                assert(items[k] == init[k]);
            } else {
                assert(e[j - a.len()] == w);
                assert(entry_holds(items[items.len() - 1], w));
            }
        }
        if exists|k: int| 0 <= k < items.len() && entry_holds(#[trigger] items[k], w) {
            let k = choose|k: int| 0 <= k < items.len() && entry_holds(#[trigger] items[k], w);
            if k < items.len() - 1 {
                assert(init[k] == items[k]);
                let j = choose|j: int| 0 <= j < a.len() && a[j] == w;
                assert((a + e)[j] == w);
            } else {
                let j = choose|j: int| 0 <= j < e.len() && e[j] == w;
                assert((a + e)[a.len() + j] == w);
            }
        }
    }
}

/// Taking a workspace out of the layout takes its first occurrence out of the sidebar
/// order, and nothing else; the layout holds the workspace exactly when the sidebar
/// order lists it.
pub proof fn lemma_remove_workspace_in_sidebar_order(items: Seq<LayoutEntry>, w: Seq<char>)
    ensures
        (workspace_position(items, w) is Some) == ordered_ids(items).contains(w),
        ordered_ids(spec_remove_workspace(items, w)) == match text::first_index_of(
            ordered_ids(items),
            w,
        ) {
            Some(k) => ordered_ids(items).remove(k),
            None => ordered_ids(items),
        },
{
    let p = |e: LayoutEntry| entry_holds(e, w);
    let o = ordered_ids(items);
    seq_search::lemma_first_where(items, p);
    lemma_ordered_ids_contains(items, w);
    text::lemma_first_index_of(o, w);
    match seq_search::first_where(items, p) {
        None => {
            assert(!(exists|k: int| 0 <= k < items.len() && entry_holds(#[trigger] items[k], w)))
                by {
                if exists|k: int| 0 <= k < items.len() && entry_holds(#[trigger] items[k], w) {
                    let k = choose|k: int| 0 <= k < items.len() && entry_holds(#[trigger] items[k], w);
                    assert(!p(items[k]));
                }
            }
        },
        Some(i) => {
            assert(p(items[i]));
            let pre = items.take(i);
            let a = ordered_ids(pre);
            let e = entry_ids(items[i]);
            let b = ordered_ids(items.skip(i + 1));
            lemma_ordered_ids_split(items, i);
            lemma_ordered_ids_contains(pre, w);
            assert(!a.contains(w)) by {
                if a.contains(w) {
                    let k = choose|k: int| 0 <= k < pre.len() && entry_holds(#[trigger] pre[k], w);
                    assert(pre[k] == items[k]);
                    assert(!p(items[k]));
                }
            }
            let c = workspace_position(items, w).unwrap().1;
            let off: int = match c {
                Some(cc) => cc,
                None => 0,
            };
            match items[i] {
                LayoutEntry::Workspace(x) => {
                    assert(e =~= seq![w]);
                },
                LayoutEntry::Folder(f) => {
                    text::lemma_first_index_of(f.members, w);
                    if text::first_index_of(f.members, w) is None {
                        assert(f.members.contains(w));
                        let j = choose|j: int| 0 <= j < f.members.len() && f.members[j] == w;
                        assert(false);
                    }
                },
            }
            assert(0 <= off < e.len() && e[off] == w);
            assert forall|k: int| 0 <= k < a.len() + off implies o[k] != w by {
                if k < a.len() {
                    assert(o[k] == a[k]);
                    if a[k] == w {
                        assert(a.contains(w));
                    }
                } else {
                    assert(o[k] == e[k - a.len()]);
                }
            }
            assert(o[a.len() + off] == w);
            text::lemma_first_index_of_at(o, w, a.len() + off);
            let r = spec_remove_workspace(items, w);
            match c {
                None => {
                    assert(r =~= pre + items.skip(i + 1));
                    lemma_ordered_ids_concat(pre, items.skip(i + 1));
                    assert(o.remove(a.len() as int) =~= a + b);
                },
                Some(cc) => {
                    lemma_ordered_ids_split(r, i);
                    assert(r.take(i) =~= pre);
                    assert(r.skip(i + 1) =~= items.skip(i + 1));
                    assert(entry_ids(r[i]) == e.remove(cc));
                    assert(o.remove(a.len() + cc) =~= a + e.remove(cc) + b);
                },
            }
        },
    }
}


/// The id and name an entry contributes to the list of folders (none for a workspace).
pub open spec fn entry_label(e: LayoutEntry) -> Seq<(Seq<char>, Seq<char>)> {
    match e {
        LayoutEntry::Folder(f) => seq![(f.id, f.name)],
        LayoutEntry::Workspace(_) => Seq::empty(),
    }
}

/// The ids and names of the folders of a layout, in order.
pub open spec fn folder_labels(items: Seq<LayoutEntry>) -> Seq<(Seq<char>, Seq<char>)>
    decreases items.len(),
{
    if items.len() == 0 {
        Seq::empty()
    } else {
        folder_labels(items.drop_last()) + entry_label(items.last())
    }
}

proof fn lemma_folder_labels_concat(a: Seq<LayoutEntry>, b: Seq<LayoutEntry>)
    ensures
        folder_labels(a + b) == folder_labels(a) + folder_labels(b),
    decreases b.len(),
{
    if b.len() == 0 {
        assert(a + b =~= a);
        assert(folder_labels(a) + Seq::<(Seq<char>, Seq<char>)>::empty() =~= folder_labels(a));
    } else {
        lemma_folder_labels_concat(a, b.drop_last());
        assert((a + b).drop_last() =~= a + b.drop_last());
        assert((a + b).last() == b.last());
        assert(folder_labels(a + b) =~= folder_labels(a) + folder_labels(b.drop_last())
            + entry_label(b.last()));
    }
}

proof fn lemma_folder_labels_one(e: LayoutEntry)
    ensures
        folder_labels(seq![e]) == entry_label(e),
{
    assert(seq![e].drop_last() =~= Seq::<LayoutEntry>::empty());
    assert(folder_labels(Seq::<LayoutEntry>::empty()) == Seq::<(Seq<char>, Seq<char>)>::empty());
    assert(Seq::<(Seq<char>, Seq<char>)>::empty() + entry_label(e) =~= entry_label(e));
}

/// Replacing, inserting or removing an entry that contributes no folder label, or one
/// with the same label, keeps the list of folders: stated here for a replacement at `k`.
proof fn lemma_folder_labels_update(s: Seq<LayoutEntry>, k: int, e: LayoutEntry)
    requires
        0 <= k < s.len(),
        entry_label(e) == entry_label(s[k]),
    ensures
        folder_labels(s.update(k, e)) == folder_labels(s),
{
    let t = s.update(k, e);
    assert(s =~= s.take(k) + seq![s[k]] + s.skip(k + 1));
    assert(t =~= s.take(k) + seq![e] + s.skip(k + 1));
    lemma_folder_labels_concat(s.take(k) + seq![s[k]], s.skip(k + 1));
    lemma_folder_labels_concat(s.take(k), seq![s[k]]);
    lemma_folder_labels_concat(s.take(k) + seq![e], s.skip(k + 1));
    lemma_folder_labels_concat(s.take(k), seq![e]);
    lemma_folder_labels_one(s[k]);
    lemma_folder_labels_one(e);
}

proof fn lemma_folder_labels_insert_workspace(s: Seq<LayoutEntry>, k: int, w: Seq<char>)
    requires
        0 <= k <= s.len(),
    ensures
        folder_labels(s.insert(k, LayoutEntry::Workspace(w))) == folder_labels(s),
{
    let e = LayoutEntry::Workspace(w);
    assert(s =~= s.take(k) + s.skip(k));
    assert(s.insert(k, e) =~= s.take(k) + seq![e] + s.skip(k));
    lemma_folder_labels_concat(s.take(k), s.skip(k));
    lemma_folder_labels_concat(s.take(k) + seq![e], s.skip(k));
    lemma_folder_labels_concat(s.take(k), seq![e]);
    lemma_folder_labels_one(e);
    assert(folder_labels(s.take(k)) + Seq::<(Seq<char>, Seq<char>)>::empty() =~= folder_labels(
        s.take(k),
    ));
}

proof fn lemma_folder_labels_remove_workspace(s: Seq<LayoutEntry>, k: int)
    requires
        0 <= k < s.len(),
        s[k] is Workspace,
    ensures
        folder_labels(s.remove(k)) == folder_labels(s),
{
    let w = s[k]->Workspace_0;
    assert(s.remove(k).insert(k, LayoutEntry::Workspace(w)) =~= s);
    lemma_folder_labels_insert_workspace(s.remove(k), k, w);
}

/// Placing a workspace keeps every folder: the same ids and names, in the same order.
pub proof fn lemma_place_workspace_keeps_folders(
    items: Seq<LayoutEntry>,
    w: Seq<char>,
    folder: Option<Seq<char>>,
    insert_index: int,
)
    requires
        0 <= insert_index,
    ensures
        folder_labels(spec_place_workspace(items, w, folder, insert_index).1) == folder_labels(
            items,
        ),
{
    let (r, placed) = spec_place_workspace(items, w, folder, insert_index);
    if r is Ok && r.unwrap() {
        let (si, sc) = workspace_position(items, w).unwrap();
        seq_search::lemma_first_where(items, |e: LayoutEntry| entry_holds(e, w));
        assert(entry_holds(items[si], w));
        text::lemma_first_index_of(members_of(items[si]), w);
        let removed = spec_remove_at(items, si, sc);
        match sc {
            None => {
                lemma_folder_labels_remove_workspace(items, si);
            },
            Some(c) => {
                lemma_folder_labels_update(
                    items,
                    si,
                    with_members(items[si], members_of(items[si]).remove(c)),
                );
            },
        }
        match folder {
            Some(f) => {
                crate::workspace_layout::lemma_remove_keeps_folder(items, si, sc, f);
                let di = crate::workspace_layout::folder_index(removed, f).unwrap();
                seq_search::lemma_first_where(removed, |e: LayoutEntry| crate::workspace_layout::is_folder_with_id(e, f));
                let members = members_of(removed[di]);
                let target = if (sc is Some && crate::workspace_layout::is_folder_with_id(items[si], f) && sc.unwrap() < insert_index) {
                    insert_index - 1
                } else {
                    insert_index
                };
                let at = if target < members.len() { target } else { members.len() as int };
                assert(placed == removed.update(di, with_members(removed[di], members.insert(at, w))));
                lemma_folder_labels_update(removed, di, with_members(removed[di], members.insert(at, w)));
            },
            None => {
                let target = if (sc is None && si < insert_index) {
                    insert_index - 1
                } else {
                    insert_index
                };
                let at = if target < removed.len() { target } else { removed.len() as int };
                assert(placed == removed.insert(at, LayoutEntry::Workspace(w)));
                lemma_folder_labels_insert_workspace(removed, at, w);
            },
        }
    }
}


/// When two items hold the same workspace, the sidebar order lists it twice.
proof fn lemma_held_twice(items: Seq<LayoutEntry>, w: Seq<char>, a: int, b: int)
    requires
        0 <= a < b < items.len(),
        entry_holds(items[a], w),
        entry_holds(items[b], w),
    ensures
        !ordered_ids(items).no_duplicates(),
{
    let pre = items.take(b);
    let x = ordered_ids(pre);
    let e = entry_ids(items[b]);
    lemma_ordered_ids_split(items, b);
    lemma_ordered_ids_contains(pre, w);
    assert(pre[a] == items[a]);
    assert(x.contains(w));
    let i = choose|i: int| 0 <= i < x.len() && x[i] == w;
    let j: int = match items[b] {
        LayoutEntry::Workspace(_) => 0,
        LayoutEntry::Folder(f) => choose|j: int| 0 <= j < f.members.len() && f.members[j] == w,
    };
    assert(0 <= j < e.len() && e[j] == w);
    let o = ordered_ids(items);
    assert(o[i] == w);
    assert(o[x.len() + j] == w);
}

/// When a folder lists a workspace twice, so does the sidebar order.
proof fn lemma_member_twice(items: Seq<LayoutEntry>, k: int, p: int, q: int)
    requires
        0 <= k < items.len(),
        items[k] is Folder,
        0 <= p < q < members_of(items[k]).len(),
        members_of(items[k])[p] == members_of(items[k])[q],
    ensures
        !ordered_ids(items).no_duplicates(),
{
    lemma_ordered_ids_split(items, k);
    let x = ordered_ids(items.take(k));
    let o = ordered_ids(items);
    assert(o[x.len() + p] == members_of(items[k])[p]);
    assert(o[x.len() + q] == members_of(items[k])[q]);
}

/// Two lists whose elements match a predicate at the same places have the same first match.
proof fn lemma_first_where_same(a: Seq<LayoutEntry>, b: Seq<LayoutEntry>, p: spec_fn(LayoutEntry) -> bool)
    requires
        a.len() == b.len(),
        forall|k: int| 0 <= k < a.len() ==> p(#[trigger] a[k]) == p(b[k]),
    ensures
        seq_search::first_where(a, p) == seq_search::first_where(b, p),
{
    seq_search::lemma_first_where(a, p);
    match seq_search::first_where(a, p) {
        Some(i) => {
            assert forall|k: int| 0 <= k < i implies !p(#[trigger] b[k]) by {
                assert(p(a[k]) == p(b[k]));
            }
            assert(p(a[i]) == p(b[i]));
            seq_search::lemma_first_where_at(b, p, i);
        },
        None => {
            assert forall|k: int| 0 <= k < b.len() implies !p(#[trigger] b[k]) by {
                assert(p(a[k]) == p(b[k]));
            }
            seq_search::lemma_first_where_none(b, p);
        },
    }
}

/// Placing a workspace reports a change exactly when the layout changed, as long as the
/// sidebar lists no workspace twice.
#[verifier::rlimit(40)]
#[verifier::spinoff_prover]
pub proof fn lemma_place_workspace_reports_change(
    items: Seq<LayoutEntry>,
    w: Seq<char>,
    folder: Option<Seq<char>>,
    insert_index: int,
)
    requires
        0 <= insert_index,
        ordered_ids(items).no_duplicates(),
    ensures
        spec_place_workspace(items, w, folder, insert_index).0 matches Ok(b) ==> b == (
        spec_place_workspace(items, w, folder, insert_index).1 != items),
{
    let (r, placed) = spec_place_workspace(items, w, folder, insert_index);
    if r is Ok && r.unwrap() && placed == items {
        let (si, sc) = workspace_position(items, w).unwrap();
        seq_search::lemma_first_where(items, |e: LayoutEntry| entry_holds(e, w));
        assert(entry_holds(items[si], w));
        text::lemma_first_index_of(members_of(items[si]), w);
        let removed = spec_remove_at(items, si, sc);
        match folder {
            Some(f) => {
                let pf = |e: LayoutEntry| crate::workspace_layout::is_folder_with_id(e, f);
                crate::workspace_layout::lemma_remove_keeps_folder(items, si, sc, f);
                let di = crate::workspace_layout::folder_index(removed, f).unwrap();
                seq_search::lemma_first_where(removed, pf);
                let members = members_of(removed[di]);
                let same_folder = sc is Some && crate::workspace_layout::is_folder_with_id(items[si], f);
                let target = if same_folder && sc.unwrap() < insert_index {
                    insert_index - 1
                } else {
                    insert_index
                };
                let at = if target < members.len() { target } else { members.len() as int };
                let newm = members.insert(at, w);
                assert(placed == removed.update(di, with_members(removed[di], newm)));
                assert(placed[di] == with_members(removed[di], newm));
                assert(newm[at] == w);
                assert(entry_holds(placed[di], w));
                assert(pf(placed[di]));
                if di != si {
                    if di < si {
                        lemma_held_twice(items, w, di, si);
                    } else {
                        lemma_held_twice(items, w, si, di);
                    }
                } else {
                    // The workspace moved within its own folder.
                    let c = sc.unwrap();
                    let old_members = members_of(items[si]);
                    assert(same_folder);
                    assert forall|k: int| 0 <= k < items.len() implies pf(#[trigger] items[k])
                        == pf(removed[k]) by {}
                    lemma_first_where_same(items, removed, pf);
                    assert(members == old_members.remove(c));
                    assert(members_of(placed[si]) == newm);
                    assert(newm == old_members);
                    assert(at != c);
                    if at < c {
                        lemma_member_twice(items, si, at, c);
                    } else {
                        lemma_member_twice(items, si, c, at);
                    }
                }
            },
            None => {
                let target = if sc is None && si < insert_index {
                    insert_index - 1
                } else {
                    insert_index
                };
                let at = if target < removed.len() { target } else { removed.len() as int };
                assert(placed == removed.insert(at, LayoutEntry::Workspace(w)));
                assert(placed[at] == LayoutEntry::Workspace(w));
                assert(entry_holds(items[at], w));
                assert(at != si);
                if at < si {
                    lemma_held_twice(items, w, at, si);
                } else {
                    lemma_held_twice(items, w, si, at);
                }
            },
        }
    }
}


pub open spec fn entry_folder_id(e: LayoutEntry) -> Seq<Seq<char>> {
    match e {
        LayoutEntry::Folder(f) => seq![f.id],
        LayoutEntry::Workspace(_) => Seq::empty(),
    }
}

proof fn lemma_folder_ids_concat(a: Seq<LayoutEntry>, b: Seq<LayoutEntry>)
    ensures
        folder_ids_of(a + b) == folder_ids_of(a) + folder_ids_of(b),
    decreases b.len(),
{
    if b.len() == 0 {
        assert(a + b =~= a);
        assert(folder_ids_of(a) + Seq::<Seq<char>>::empty() =~= folder_ids_of(a));
    } else {
        lemma_folder_ids_concat(a, b.drop_last());
        assert((a + b).drop_last() =~= a + b.drop_last());
        assert((a + b).last() == b.last());
        assert(folder_ids_of(a + b) =~= folder_ids_of(a) + folder_ids_of(b.drop_last())
            + entry_folder_id(b.last()));
    }
}

/// A folder id among the first items is listed among the first folder ids.
proof fn lemma_folder_ids_contains(items: Seq<LayoutEntry>, k: int)
    requires
        0 <= k < items.len(),
        items[k] is Folder,
    ensures
        folder_ids_of(items).contains(items[k]->Folder_0.id),
    decreases items.len(),
{
    if k < items.len() - 1 {
        lemma_folder_ids_contains(items.drop_last(), k);
        let x = folder_ids_of(items.drop_last());
        let j = choose|j: int| 0 <= j < x.len() && x[j] == items[k]->Folder_0.id;
        assert(folder_ids_of(items)[j] == x[j]);
    } else {
        let x = folder_ids_of(items.drop_last());
        assert(folder_ids_of(items)[x.len() as int] == items[k]->Folder_0.id);
    }
}

/// Two folders with one id make the folder ids list it twice.
proof fn lemma_folder_twice(items: Seq<LayoutEntry>, a: int, b: int, id: Seq<char>)
    requires
        0 <= a < b < items.len(),
        crate::workspace_layout::is_folder_with_id(items[a], id),
        crate::workspace_layout::is_folder_with_id(items[b], id),
    ensures
        !folder_ids_of(items).no_duplicates(),
{
    let pre = items.take(b);
    let one = seq![items[b]];
    assert(items =~= pre + one + items.skip(b + 1));
    lemma_folder_ids_concat(pre + one, items.skip(b + 1));
    lemma_folder_ids_concat(pre, one);
    assert(pre[a] == items[a]);
    lemma_folder_ids_contains(pre, a);
    let x = folder_ids_of(pre);
    let j = choose|j: int| 0 <= j < x.len() && x[j] == id;
    assert(one.drop_last() =~= Seq::<LayoutEntry>::empty());
    assert(folder_ids_of(Seq::<LayoutEntry>::empty()) == Seq::<Seq<char>>::empty());
    assert(folder_ids_of(one) =~= seq![id]);
    let all = folder_ids_of(items);
    assert(all[j] == id);
    assert(all[x.len() as int] == id);
}

/// How many of the first `n` elements of `s` are not `x`.
pub open spec fn count_other<A>(s: Seq<A>, x: A, n: nat) -> nat
    decreases n,
{
    if n == 0 {
        0
    } else {
        count_other(s, x, (n - 1) as nat) + if s[n - 1] != x {
            1nat
        } else {
            0nat
        }
    }
}

proof fn lemma_count_other<A>(s: Seq<A>, x: A, n: nat, c: int)
    requires
        n <= s.len(),
        forall|i: int| 0 <= i < n && i != c ==> s[i] != x,
    ensures
        count_other(s, x, n) == n - (if 0 <= c < n && s[c] == x {
            1int
        } else {
            0int
        }),
    decreases n,
{
    if n > 0 {
        lemma_count_other(s, x, (n - 1) as nat, c);
    }
}

/// Where a placed workspace lands: the layout without the workspace, with the workspace
/// inserted into the destination (the root, or the first folder with the given id) at
/// the requested index counted over the destination's other elements. Stated for layouts
/// that list no workspace twice and no folder id twice, as normalized layouts do.
#[verifier::rlimit(60)]
#[verifier::spinoff_prover]
pub proof fn lemma_place_workspace_destination(
    items: Seq<LayoutEntry>,
    w: Seq<char>,
    folder: Option<Seq<char>>,
    insert_index: int,
)
    requires
        0 <= insert_index,
        ordered_ids(items).no_duplicates(),
        folder_ids_of(items).no_duplicates(),
    ensures
        spec_place_workspace(items, w, folder, insert_index).0 is Ok ==> {
            let removed = spec_remove_workspace(items, w);
            let placed = spec_place_workspace(items, w, folder, insert_index).1;
            match folder {
                None => placed == removed.insert(
                    count_other(items, LayoutEntry::Workspace(w), insert_index as nat) as int,
                    LayoutEntry::Workspace(w),
                ),
                Some(f) => {
                    let d = folder_index(items, f).unwrap();
                    let d2 = folder_index(removed, f).unwrap();
                    let k = count_other(members_of(items[d]), w, insert_index as nat);
                    placed == removed.update(
                        d2,
                        with_members(removed[d2], members_of(removed[d2]).insert(k as int, w)),
                    )
                },
            }
        },
{
    let (r, placed) = spec_place_workspace(items, w, folder, insert_index);
    if r is Ok {
        let (si, sc) = workspace_position(items, w).unwrap();
        let ph = |e: LayoutEntry| entry_holds(e, w);
        seq_search::lemma_first_where(items, ph);
        assert(entry_holds(items[si], w));
        text::lemma_first_index_of(members_of(items[si]), w);
        let removed = spec_remove_at(items, si, sc);
        assert(removed == spec_remove_workspace(items, w));
        // No other item holds the workspace.
        assert forall|k: int| 0 <= k < items.len() && k != si implies !entry_holds(
            #[trigger] items[k],
            w,
        ) by {
            if entry_holds(items[k], w) {
                if k < si {
                    lemma_held_twice(items, w, k, si);
                } else {
                    lemma_held_twice(items, w, si, k);
                }
            }
        }
        match folder {
            None => {
                let ew = LayoutEntry::Workspace(w);
                assert forall|i: int| 0 <= i < insert_index && i != si implies items[i] != ew by {
                    if i < items.len() && items[i] == ew {
                        assert(entry_holds(items[i], w));
                    }
                }
                let dest_len = items.len() as int;
                assert(insert_index <= dest_len);
                lemma_count_other(items, ew, insert_index as nat, si);
                let target = if sc is None && si < insert_index {
                    insert_index - 1
                } else {
                    insert_index
                };
                if sc is None {
                    assert(items[si] == ew);
                } else {
                    assert(items[si] != ew);
                }
                assert(count_other(items, ew, insert_index as nat) == target);
                if r.unwrap() {
                } else {
                    assert(sc is None && si == target);
                    assert(removed.insert(si, ew) =~= items);
                }
            },
            Some(f) => {
                let pf = |e: LayoutEntry| crate::workspace_layout::is_folder_with_id(e, f);
                let d = folder_index(items, f).unwrap();
                seq_search::lemma_first_where(items, pf);
                crate::workspace_layout::lemma_remove_keeps_folder(items, si, sc, f);
                let d2 = folder_index(removed, f).unwrap();
                seq_search::lemma_first_where(removed, pf);
                let dm = members_of(items[d]);
                let same_folder = sc is Some && crate::workspace_layout::is_folder_with_id(items[si], f);
                if same_folder {
                    if si != d {
                        if si < d {
                            lemma_folder_twice(items, si, d, f);
                        } else {
                            lemma_folder_twice(items, d, si, f);
                        }
                    }
                    let c = sc.unwrap();
                    assert forall|k: int| 0 <= k < items.len() implies pf(#[trigger] items[k])
                        == pf(removed[k]) by {}
                    lemma_first_where_same(items, removed, pf);
                    assert(d2 == d);
                    assert forall|i: int| 0 <= i < insert_index && i != c implies dm[i] != w by {
                        if i < dm.len() && dm[i] == w {
                            if i < c {
                                lemma_member_twice(items, d, i, c);
                            } else {
                                lemma_member_twice(items, d, c, i);
                            }
                        }
                    }
                    lemma_count_other(dm, w, insert_index as nat, c);
                    if !r.unwrap() {
                        assert(dm.remove(c).insert(c, w) =~= dm);
                        assert(with_members(removed[d], dm.remove(c).insert(c, w)) == items[d]);
                        assert(removed.update(d, items[d]) =~= items);
                    }
                } else {
                    // The destination folder is not where the workspace came from.
                    assert(d != si || sc is None);
                    assert(!dm.contains(w)) by {
                        if dm.contains(w) {
                            assert(entry_holds(items[d], w));
                            assert(d == si);
                            assert(items[si] is Folder);
                        }
                    }
                    assert forall|i: int| 0 <= i < insert_index implies dm[i] != w by {
                        if i < dm.len() && dm[i] == w {
                            assert(dm.contains(w));
                        }
                    }
                    lemma_count_other(dm, w, insert_index as nat, -1);
                    assert(count_other(dm, w, insert_index as nat) == insert_index);
                    // The destination folder is the same entry in `removed`.
                    match sc {
                        None => {
                            assert(items[si] is Workspace);
                            if d < si {
                                assert(removed[d] == items[d]);
                                assert forall|k: int| 0 <= k < d implies !pf(#[trigger] removed[k]) by {
                                    assert(removed[k] == items[k]);
                                }
                                seq_search::lemma_first_where_at(removed, pf, d);
                            } else {
                                assert(removed[d - 1] == items[d]);
                                assert forall|k: int| 0 <= k < d - 1 implies !pf(#[trigger] removed[k]) by {
                                    if k < si {
                                        assert(removed[k] == items[k]);
                                    } else {
                                        assert(removed[k] == items[k + 1]);
                                    }
                                }
                                seq_search::lemma_first_where_at(removed, pf, d - 1);
                            }
                        },
                        Some(_) => {
                            assert forall|k: int| 0 <= k < items.len() implies pf(#[trigger] items[k])
                                == pf(removed[k]) by {}
                            lemma_first_where_same(items, removed, pf);
                            assert(d != si);
                            assert(removed[d] == items[d]);
                        },
                    }
                    assert(members_of(removed[d2]) == dm);
                }
            },
        }
    }
}


/// Walking the first `n` ids of `s` after the ids `seen`: each id that is valid and not
/// listed yet is appended. Returns `seen` followed by the ids kept, in order.
pub open spec fn keep_first(s: Seq<Seq<char>>, valid: Seq<Seq<char>>, seen: Seq<Seq<char>>, n: nat) -> Seq<Seq<char>>
    decreases n,
{
    if n == 0 {
        seen
    } else {
        let t = keep_first(s, valid, seen, (n - 1) as nat);
        if valid.contains(s[n - 1]) && !t.contains(s[n - 1]) {
            t.push(s[n - 1])
        } else {
            t
        }
    }
}

proof fn lemma_filter_members_keep_first(
    members: Seq<Seq<char>>,
    valid: Seq<Seq<char>>,
    seen: Seq<Seq<char>>,
    n: nat,
)
    requires
        n <= members.len(),
    ensures
        filter_members(members, valid, seen, n).1 == keep_first(members, valid, seen, n),
    decreases n,
{
    if n > 0 {
        lemma_filter_members_keep_first(members, valid, seen, (n - 1) as nat);
    }
}

proof fn lemma_keep_first_concat(
    a: Seq<Seq<char>>,
    b: Seq<Seq<char>>,
    valid: Seq<Seq<char>>,
    seen: Seq<Seq<char>>,
    n: nat,
)
    requires
        n <= b.len(),
    ensures
        keep_first(a + b, valid, seen, a.len() + n) == keep_first(
            b,
            valid,
            keep_first(a, valid, seen, a.len()),
            n,
        ),
    decreases n,
{
    if n == 0 {
        lemma_keep_first_prefix(a + b, a, valid, seen, a.len());
    } else {
        lemma_keep_first_concat(a, b, valid, seen, (n - 1) as nat);
        assert((a + b)[a.len() + n - 1] == b[n - 1]);
    }
}

/// Only the first `n` ids matter.
proof fn lemma_keep_first_prefix(
    s: Seq<Seq<char>>,
    t: Seq<Seq<char>>,
    valid: Seq<Seq<char>>,
    seen: Seq<Seq<char>>,
    n: nat,
)
    requires
        n <= s.len(),
        n <= t.len(),
        forall|i: int| 0 <= i < n ==> s[i] == t[i],
    ensures
        keep_first(s, valid, seen, n) == keep_first(t, valid, seen, n),
    decreases n,
{
    if n > 0 {
        lemma_keep_first_prefix(s, t, valid, seen, (n - 1) as nat);
        assert(s[n - 1] == t[n - 1]);
    }
}

/// A prefix of a list without repeats has no repeats.
proof fn lemma_take_no_duplicates(s: Seq<Seq<char>>, n: int)
    requires
        0 <= n <= s.len(),
        s.no_duplicates(),
    ensures
        s.take(n).no_duplicates(),
{
    assert forall|i: int, j: int| 0 <= i < n && 0 <= j < n && i != j implies s.take(n)[i] != s.take(
        n,
    )[j] by {
        assert(s.take(n)[i] == s[i] && s.take(n)[j] == s[j]);
    }
}

proof fn lemma_folder_ids_take_no_duplicates(items: Seq<LayoutEntry>, n: int)
    requires
        0 <= n <= items.len(),
        folder_ids_of(items).no_duplicates(),
    ensures
        folder_ids_of(items.take(n)).no_duplicates(),
{
    assert(items =~= items.take(n) + items.skip(n));
    lemma_folder_ids_concat(items.take(n), items.skip(n));
    lemma_take_no_duplicates(folder_ids_of(items), folder_ids_of(items.take(n)).len() as int);
    assert(folder_ids_of(items).take(folder_ids_of(items.take(n)).len() as int) =~= folder_ids_of(
        items.take(n),
    ));
}

/// With no folder id twice, the first pass of normalizing keeps every folder, and the ids
/// it keeps are the first occurrences of the valid ids in the old sidebar order.
proof fn lemma_normalize_items_keeps_first(items: Seq<LayoutEntry>, valid: Seq<Seq<char>>, n: nat)
    requires
        n <= items.len(),
        folder_ids_of(items).no_duplicates(),
    ensures
        normalize_items(items, valid, n).1 == keep_first(
            ordered_ids(items.take(n as int)),
            valid,
            Seq::empty(),
            ordered_ids(items.take(n as int)).len(),
        ),
        normalize_items(items, valid, n).2 == folder_ids_of(items.take(n as int)),
        folder_labels(normalize_items(items, valid, n).0) == folder_labels(items.take(n as int)),
    decreases n,
{
    if n == 0 {
        assert(items.take(0) =~= Seq::<LayoutEntry>::empty());
        assert(folder_labels(Seq::<LayoutEntry>::empty()) == Seq::<(Seq<char>, Seq<char>)>::empty());
    } else {
        lemma_normalize_items_keeps_first(items, valid, (n - 1) as nat);
        let (kept, seen, folders) = normalize_items(items, valid, (n - 1) as nat);
        let pre = items.take(n - 1);
        let cur = items.take(n as int);
        assert(cur.drop_last() =~= pre);
        assert(cur.last() == items[n - 1]);
        let op = ordered_ids(pre);
        let e = entry_ids(items[n - 1]);
        assert(ordered_ids(cur) == op + e);
        lemma_keep_first_concat(op, e, valid, Seq::empty(), e.len());
        lemma_keep_first_prefix(op, op, valid, Seq::empty(), op.len());
        match items[n - 1] {
            LayoutEntry::Workspace(w) => {
                assert(e[0] == w);
                assert(keep_first(e, valid, seen, 0) == seen);
                lemma_folder_labels_concat(kept, seq![LayoutEntry::Workspace(w)]);
                lemma_folder_labels_one(LayoutEntry::Workspace(w));
                assert(kept.push(LayoutEntry::Workspace(w)) =~= kept + seq![LayoutEntry::Workspace(w)]);
                assert(folder_labels(kept) + Seq::<(Seq<char>, Seq<char>)>::empty() =~= folder_labels(kept));
                assert(folder_ids_of(pre) + Seq::<Seq<char>>::empty() =~= folder_ids_of(pre));
            },
            LayoutEntry::Folder(f) => {
                lemma_folder_ids_take_no_duplicates(items, n as int);
                assert(folder_ids_of(cur) == folder_ids_of(pre) + seq![f.id]);
                assert(!folders.contains(f.id)) by {
                    if folders.contains(f.id) {
                        let j = choose|j: int| 0 <= j < folders.len() && folders[j] == f.id;
                        assert(folder_ids_of(cur)[j] == f.id);
                        assert(folder_ids_of(cur)[folders.len() as int] == f.id);
                    }
                }
                lemma_filter_members_keep_first(f.members, valid, seen, f.members.len());
                let (members, seen2) = filter_members(f.members, valid, seen, f.members.len());
                let ne = LayoutEntry::Folder(FolderModel { members, ..f });
                lemma_folder_labels_concat(kept, seq![ne]);
                lemma_folder_labels_one(ne);
                assert(kept.push(ne) =~= kept + seq![ne]);
                lemma_folder_labels_concat(pre, seq![items[n - 1]]);
                lemma_folder_labels_one(items[n - 1]);
                assert(cur =~= pre + seq![items[n - 1]]);
            },
        }
        assert(folder_labels(cur) == folder_labels(pre) + entry_label(items[n - 1]));
    }
}

proof fn lemma_append_missing_keep_first(
    items: Seq<LayoutEntry>,
    seen: Seq<Seq<char>>,
    ids: Seq<Seq<char>>,
    n: nat,
)
    requires
        n <= ids.len(),
    ensures
        append_missing(items, seen, ids, n).1 == keep_first(ids, ids, seen, n),
        folder_labels(append_missing(items, seen, ids, n).0) == folder_labels(items),
    decreases n,
{
    if n > 0 {
        lemma_append_missing_keep_first(items, seen, ids, (n - 1) as nat);
        assert(ids.contains(ids[n - 1]));
        let (out, s) = append_missing(items, seen, ids, (n - 1) as nat);
        let e = LayoutEntry::Workspace(ids[n - 1]);
        lemma_folder_labels_concat(out, seq![e]);
        lemma_folder_labels_one(e);
        assert(out.push(e) =~= out + seq![e]);
        assert(folder_labels(out) + Seq::<(Seq<char>, Seq<char>)>::empty() =~= folder_labels(out));
    }
}

/// Normalizing a layout in which no folder id occurs twice keeps every folder, with its
/// id and name, in order; in the sidebar it keeps the first occurrence of each existing
/// workspace, in the old order, and then appends the existing workspaces it did not list,
/// in the order given.
pub proof fn lemma_normalize_keeps_order(items: Seq<LayoutEntry>, ids: Seq<Seq<char>>)
    requires
        folder_ids_of(items).no_duplicates(),
    ensures
        ({
            let o = ordered_ids(items);
            let kept = keep_first(o, ids, Seq::empty(), o.len());
            &&& ordered_ids(spec_normalize(items, ids)) == keep_first(ids, ids, kept, ids.len())
            &&& folder_labels(spec_normalize(items, ids)) == folder_labels(items)
        }),
{
    lemma_normalize_items_keeps_first(items, ids, items.len());
    assert(items.take(items.len() as int) =~= items);
    lemma_normalize_items(items, ids, items.len());
    let (kept, seen, _) = normalize_items(items, ids, items.len());
    lemma_append_missing(kept, seen, ids, ids.len());
    lemma_append_missing_keep_first(kept, seen, ids, ids.len());
}


proof fn lemma_filter_members_keeps_all(
    members: Seq<Seq<char>>,
    valid: Seq<Seq<char>>,
    seen: Seq<Seq<char>>,
    n: nat,
)
    requires
        n <= members.len(),
        (seen + members).no_duplicates(),
        forall|k: int| 0 <= k < members.len() ==> valid.contains(#[trigger] members[k]),
    ensures
        filter_members(members, valid, seen, n) == (members.take(n as int), seen + members.take(
            n as int,
        )),
    decreases n,
{
    if n == 0 {
        assert(members.take(0) =~= Seq::<Seq<char>>::empty());
        assert(seen + Seq::<Seq<char>>::empty() =~= seen);
    } else {
        lemma_filter_members_keeps_all(members, valid, seen, (n - 1) as nat);
        let w = members[n - 1];
        let t = seen + members.take(n - 1);
        assert(!t.contains(w)) by {
            if t.contains(w) {
                let j = choose|j: int| 0 <= j < t.len() && t[j] == w;
                assert((seen + members)[j] == w);
                assert((seen + members)[seen.len() + n - 1] == w);
            }
        }
        assert(members.take(n - 1).push(w) =~= members.take(n as int));
        assert(t.push(w) =~= seen + members.take(n as int));
    }
}

/// A layout that lists each valid workspace at most once and no folder id twice passes
/// the first pass of normalizing unchanged.
proof fn lemma_normalize_items_keeps_all(items: Seq<LayoutEntry>, valid: Seq<Seq<char>>, n: nat)
    requires
        n <= items.len(),
        ordered_ids(items).no_duplicates(),
        forall|w: Seq<char>| #[trigger] ordered_ids(items).contains(w) ==> valid.contains(w),
        folder_ids_of(items).no_duplicates(),
    ensures
        normalize_items(items, valid, n) == (
            items.take(n as int),
            ordered_ids(items.take(n as int)),
            folder_ids_of(items.take(n as int)),
        ),
    decreases n,
{
    if n == 0 {
        assert(items.take(0) =~= Seq::<LayoutEntry>::empty());
    } else {
        lemma_normalize_items_keeps_all(items, valid, (n - 1) as nat);
        let pre = items.take(n - 1);
        let cur = items.take(n as int);
        assert(cur.drop_last() =~= pre);
        assert(cur.last() == items[n - 1]);
        assert(pre.push(items[n - 1]) =~= cur);
        assert(items =~= cur + items.skip(n as int));
        lemma_ordered_ids_concat(cur, items.skip(n as int));
        let oc = ordered_ids(cur);
        lemma_take_no_duplicates(ordered_ids(items), oc.len() as int);
        assert(ordered_ids(items).take(oc.len() as int) =~= oc);
        let op = ordered_ids(pre);
        let e = entry_ids(items[n - 1]);
        assert(oc == op + e);
        assert forall|k: int| 0 <= k < e.len() implies valid.contains(#[trigger] e[k]) by {
            assert(ordered_ids(items)[op.len() + k] == e[k]);
            assert(ordered_ids(items).contains(e[k]));
        }
        match items[n - 1] {
            LayoutEntry::Workspace(w) => {
                assert(e[0] == w);
                assert(!op.contains(w)) by {
                    if op.contains(w) {
                        let j = choose|j: int| 0 <= j < op.len() && op[j] == w;
                        assert(oc[j] == w);
                        assert(oc[op.len() as int] == w);
                    }
                }
                assert(folder_ids_of(pre) + Seq::<Seq<char>>::empty() =~= folder_ids_of(pre));
            },
            LayoutEntry::Folder(f) => {
                lemma_folder_ids_take_no_duplicates(items, n as int);
                assert(folder_ids_of(cur) == folder_ids_of(pre) + seq![f.id]);
                assert(!folder_ids_of(pre).contains(f.id)) by {
                    let fp = folder_ids_of(pre);
                    if fp.contains(f.id) {
                        let j = choose|j: int| 0 <= j < fp.len() && fp[j] == f.id;
                        assert(folder_ids_of(cur)[j] == f.id);
                        assert(folder_ids_of(cur)[fp.len() as int] == f.id);
                    }
                }
                assert(e == f.members);
                lemma_filter_members_keeps_all(f.members, valid, op, f.members.len());
                assert(f.members.take(f.members.len() as int) =~= f.members);
                assert(FolderModel { members: f.members, ..f } == f);
            },
        }
    }
}

proof fn lemma_append_missing_nothing(
    items: Seq<LayoutEntry>,
    seen: Seq<Seq<char>>,
    ids: Seq<Seq<char>>,
    n: nat,
)
    requires
        n <= ids.len(),
        forall|k: int| 0 <= k < ids.len() ==> seen.contains(#[trigger] ids[k]),
    ensures
        append_missing(items, seen, ids, n) == (items, seen),
    decreases n,
{
    if n > 0 {
        lemma_append_missing_nothing(items, seen, ids, (n - 1) as nat);
    }
}

/// Normalizing twice against the same workspaces gives what normalizing once gave.
pub proof fn lemma_normalize_idempotent(items: Seq<LayoutEntry>, ids: Seq<Seq<char>>)
    ensures
        spec_normalize(spec_normalize(items, ids), ids) == spec_normalize(items, ids),
{
    let n1 = spec_normalize(items, ids);
    lemma_normalize_lists_each_workspace_once(items, ids);
    lemma_normalize_items_keeps_all(n1, ids, n1.len());
    assert(n1.take(n1.len() as int) =~= n1);
    let seen = ordered_ids(n1);
    assert forall|k: int| 0 <= k < ids.len() implies seen.contains(#[trigger] ids[k]) by {
        assert(ids.contains(ids[k]));
    }
    lemma_append_missing_nothing(n1, seen, ids, ids.len());
}


/// The ids and names of the folders of a layout that are the first with their id, in order.
pub open spec fn first_folder_labels(items: Seq<LayoutEntry>) -> Seq<(Seq<char>, Seq<char>)>
    decreases items.len(),
{
    if items.len() == 0 {
        Seq::empty()
    } else {
        let rest = first_folder_labels(items.drop_last());
        match items.last() {
            LayoutEntry::Folder(f) => if folder_ids_of(items.drop_last()).contains(f.id) {
                rest
            } else {
                rest.push((f.id, f.name))
            },
            LayoutEntry::Workspace(_) => rest,
        }
    }
}

/// The members a folder keeps through normalizing are among its members.
proof fn lemma_filter_members_subset(
    members: Seq<Seq<char>>,
    valid: Seq<Seq<char>>,
    seen: Seq<Seq<char>>,
    n: nat,
)
    requires
        n <= members.len(),
    ensures
        forall|x: Seq<char>| #[trigger] filter_members(members, valid, seen, n).0.contains(x) ==> members.contains(x),
    decreases n,
{
    if n > 0 {
        lemma_filter_members_subset(members, valid, seen, (n - 1) as nat);
        let kept = filter_members(members, valid, seen, (n - 1) as nat).0;
        let w = members[n - 1];
        assert forall|x: Seq<char>| #[trigger] kept.push(w).contains(x) implies members.contains(x) by {
            let j = choose|j: int| 0 <= j < kept.push(w).len() && kept.push(w)[j] == x;
            if j < kept.len() {
                assert(kept[j] == x);
                assert(kept.contains(x));
            } else {
                assert(members[n - 1] == x);
            }
        }
    }
}

/// A layout without folder id `id` among its folder ids has no folder with that id.
proof fn lemma_no_folder_id(items: Seq<LayoutEntry>, id: Seq<char>)
    requires
        !folder_ids_of(items).contains(id),
    ensures
        forall|k: int| 0 <= k < items.len() ==> !is_folder_with_id(#[trigger] items[k], id),
{
    assert forall|k: int| 0 <= k < items.len() implies !is_folder_with_id(#[trigger] items[k], id) by {
        if is_folder_with_id(items[k], id) {
            lemma_folder_ids_contains(items, k);
        }
    }
}

/// What the first pass of normalizing does to folders, for any layout: it keeps the first
/// folder of each id, with its name, in order, and a kept folder's members were members
/// of that first folder.
proof fn lemma_normalize_items_folders(items: Seq<LayoutEntry>, valid: Seq<Seq<char>>, n: nat)
    requires
        n <= items.len(),
    ensures
        ({
            let (kept, _, folders) = normalize_items(items, valid, n);
            &&& folder_labels(kept) == first_folder_labels(items.take(n as int))
            &&& forall|x: Seq<char>| #[trigger] folders.contains(x) == folder_ids_of(items.take(n as int)).contains(x)
            &&& forall|k: int| 0 <= k < kept.len() && (#[trigger] kept[k]) is Folder ==> {
                let g = kept[k]->Folder_0;
                &&& folder_index(items.take(n as int), g.id) is Some
                &&& forall|x: Seq<char>| #[trigger] g.members.contains(x) ==> members_of(
                    items[folder_index(items.take(n as int), g.id).unwrap()],
                ).contains(x)
            }
        }),
    decreases n,
{
    if n == 0 {
        assert(items.take(0) =~= Seq::<LayoutEntry>::empty());
        assert(folder_labels(Seq::<LayoutEntry>::empty()) == Seq::<(Seq<char>, Seq<char>)>::empty());
        assert(folder_ids_of(Seq::<LayoutEntry>::empty()) == Seq::<Seq<char>>::empty());
    } else {
        lemma_normalize_items_folders(items, valid, (n - 1) as nat);
        let (kept, seen, folders) = normalize_items(items, valid, (n - 1) as nat);
        let (kept2, _, folders2) = normalize_items(items, valid, n);
        let pre = items.take(n - 1);
        let cur = items.take(n as int);
        assert(cur.drop_last() =~= pre);
        assert(cur.last() == items[n - 1]);
        assert(cur.take(n - 1) =~= pre);
        lemma_ordered_ids_push(pre, items[n - 1]);
        assert(pre.push(items[n - 1]) =~= cur);
        // Folders kept before stay first in the longer prefix.
        assert forall|k: int| 0 <= k < kept.len() && (#[trigger] kept[k]) is Folder implies {
            let g = kept[k]->Folder_0;
            &&& folder_index(cur, g.id) is Some
            &&& folder_index(cur, g.id) == folder_index(pre, g.id)
        } by {
            let g = kept[k]->Folder_0;
            seq_search::lemma_first_where_prefix(cur, |e: LayoutEntry| is_folder_with_id(e, g.id), n - 1);
        }
        match items[n - 1] {
            LayoutEntry::Workspace(w) => {
                assert(folder_ids_of(pre) + Seq::<Seq<char>>::empty() =~= folder_ids_of(pre));
                let e = LayoutEntry::Workspace(w);
                if valid.contains(w) && !seen.contains(w) {
                    lemma_folder_labels_concat(kept, seq![e]);
                    lemma_folder_labels_one(e);
                    assert(kept.push(e) =~= kept + seq![e]);
                    assert(folder_labels(kept) + Seq::<(Seq<char>, Seq<char>)>::empty() =~= folder_labels(kept));
                    assert forall|k: int| 0 <= k < kept2.len() && (#[trigger] kept2[k]) is Folder implies
                        kept2[k] == kept[k] by {}
                }
            },
            LayoutEntry::Folder(f) => {
                assert(folder_ids_of(cur) == folder_ids_of(pre) + seq![f.id]);
                assert forall|x: Seq<char>| #[trigger] folder_ids_of(cur).contains(x) == (folder_ids_of(pre).contains(x) || x == f.id) by {
                    let fp = folder_ids_of(pre);
                    if folder_ids_of(cur).contains(x) {
                        let j = choose|j: int| 0 <= j < folder_ids_of(cur).len() && folder_ids_of(cur)[j] == x;
                        if j < fp.len() {
                            assert(fp[j] == x);
                        }
                    }
                    if fp.contains(x) {
                        let j = choose|j: int| 0 <= j < fp.len() && fp[j] == x;
                        assert(folder_ids_of(cur)[j] == x);
                    }
                    assert(folder_ids_of(cur)[fp.len() as int] == f.id);
                }
                if !folders.contains(f.id) {
                    lemma_filter_members_subset(f.members, valid, seen, f.members.len());
                    let (members, _) = filter_members(f.members, valid, seen, f.members.len());
                    let ne = LayoutEntry::Folder(FolderModel { members, ..f });
                    lemma_folder_labels_concat(kept, seq![ne]);
                    lemma_folder_labels_one(ne);
                    assert(kept.push(ne) =~= kept + seq![ne]);
                    lemma_no_folder_id(pre, f.id);
                    let pf = |e: LayoutEntry| is_folder_with_id(e, f.id);
                    assert forall|k: int| 0 <= k < n - 1 implies !pf(#[trigger] cur[k]) by {
                        assert(cur[k] == pre[k]);
                    }
                    seq_search::lemma_first_where_at(cur, pf, n - 1);
                    assert(folders2 == folders.push(f.id));
                    assert forall|x: Seq<char>| #[trigger] folders2.contains(x) == folder_ids_of(cur).contains(x) by {
                        if folders2.contains(x) && x != f.id {
                            let j = choose|j: int| 0 <= j < folders2.len() && folders2[j] == x;
                            assert(folders[j] == x);
                            assert(folders.contains(x));
                        }
                        if folders.contains(x) {
                            let j = choose|j: int| 0 <= j < folders.len() && folders[j] == x;
                            assert(folders2[j] == x);
                        }
                        assert(folders2[folders.len() as int] == f.id);
                    }
                }
            },
        }
    }
}

proof fn lemma_append_missing_extends(
    items: Seq<LayoutEntry>,
    seen: Seq<Seq<char>>,
    ids: Seq<Seq<char>>,
    n: nat,
)
    requires
        n <= ids.len(),
    ensures
        append_missing(items, seen, ids, n).0.len() >= items.len(),
        forall|k: int| 0 <= k < items.len() ==> #[trigger] append_missing(items, seen, ids, n).0[k] == items[k],
        forall|k: int|
            items.len() <= k < append_missing(items, seen, ids, n).0.len() ==> (#[trigger] append_missing(
                items,
                seen,
                ids,
                n,
            ).0[k]) is Workspace,
    decreases n,
{
    if n > 0 {
        lemma_append_missing_extends(items, seen, ids, (n - 1) as nat);
    }
}

/// Normalizing keeps, for any layout, the first folder of each id with its name, in order
/// (later folders with a used id are dropped, empty folders stay, none is created or
/// renamed), and each workspace inside a folder afterwards was inside that same folder.
pub proof fn lemma_normalize_keeps_first_folders(items: Seq<LayoutEntry>, ids: Seq<Seq<char>>)
    ensures
        folder_labels(spec_normalize(items, ids)) == first_folder_labels(items),
        forall|k: int|
            0 <= k < spec_normalize(items, ids).len() && (#[trigger] spec_normalize(items, ids)[k]) is Folder
                ==> {
                let g = spec_normalize(items, ids)[k]->Folder_0;
                &&& folder_index(items, g.id) is Some
                &&& forall|x: Seq<char>| #[trigger] g.members.contains(x) ==> members_of(
                    items[folder_index(items, g.id).unwrap()],
                ).contains(x)
            },
{
    lemma_normalize_items_folders(items, ids, items.len());
    assert(items.take(items.len() as int) =~= items);
    let (kept, seen, _) = normalize_items(items, ids, items.len());
    lemma_append_missing_keep_first(kept, seen, ids, ids.len());
    lemma_append_missing_extends(kept, seen, ids, ids.len());
    let out = spec_normalize(items, ids);
    assert forall|k: int| 0 <= k < out.len() && (#[trigger] out[k]) is Folder implies {
        let g = out[k]->Folder_0;
        &&& folder_index(items, g.id) is Some
        &&& forall|x: Seq<char>| #[trigger] g.members.contains(x) ==> members_of(
            items[folder_index(items, g.id).unwrap()],
        ).contains(x)
    } by {
        assert(k < kept.len());
        assert(out[k] == kept[k]);
    }
}

} // verus!
