//! What the folder and root edits of a layout do, stated over the items directly: deleting
//! a folder dissolves it in place, moving a folder moves it alone, renaming stores the
//! trimmed name, and placing workspaces at the root puts them right before the item that
//! holds the anchor.
use vstd::prelude::*;

use crate::seq_search;
use crate::text;
use crate::workspace_layout::{
    entry_holds, folder_index, is_folder_with_id, remove_all, spec_delete_folder, spec_normalize_folder_name,
    spec_move_folder, spec_place_workspaces_at_root, spec_rename_folder, workspace_entries,
    workspace_position, LayoutEntry, WorkspaceLayoutError, ordered_ids, all_present,
    spec_remove_workspace,
};

verus! {

/// Item `i` is the first folder with id `id`.
pub open spec fn is_first_folder(items: Seq<LayoutEntry>, id: Seq<char>, i: int) -> bool {
    &&& 0 <= i < items.len()
    &&& is_folder_with_id(items[i], id)
    &&& forall|k: int| 0 <= k < i ==> !is_folder_with_id(#[trigger] items[k], id)
}

/// No item is a folder with id `id`.
pub open spec fn has_no_folder(items: Seq<LayoutEntry>, id: Seq<char>) -> bool {
    forall|k: int| 0 <= k < items.len() ==> !is_folder_with_id(#[trigger] items[k], id)
}

proof fn lemma_folder_index_is_first(items: Seq<LayoutEntry>, id: Seq<char>)
    ensures
        forall|i: int| is_first_folder(items, id, i) ==> folder_index(items, id) == Some(i),
        has_no_folder(items, id) ==> folder_index(items, id) is None,
{
    let p = |e: LayoutEntry| is_folder_with_id(e, id);
    seq_search::lemma_first_where(items, p);
    assert forall|i: int| is_first_folder(items, id, i) implies folder_index(items, id) == Some(i) by {
        assert forall|k: int| 0 <= k < i implies !p(#[trigger] items[k]) by {}
        seq_search::lemma_first_where_at(items, p, i);
    }
    if has_no_folder(items, id) {
        assert forall|k: int| 0 <= k < items.len() implies !p(#[trigger] items[k]) by {}
        seq_search::lemma_first_where_none(items, p);
    }
}

/// Deleting the first folder with id `id` dissolves it in place: the items before it and
/// after it stay as they were, and its members take its place as root workspaces, in
/// order. Deleting an id that no folder has fails and changes nothing.
pub proof fn lemma_delete_folder_dissolves_in_place(items: Seq<LayoutEntry>, id: Seq<char>, i: int)
    ensures
        is_first_folder(items, id, i) ==> {
            let (r, out) = spec_delete_folder(items, id);
            let m = items[i]->Folder_0.members;
            &&& r is Ok
            &&& out.len() == items.len() - 1 + m.len()
            &&& forall|k: int| 0 <= k < i ==> #[trigger] out[k] == items[k]
            &&& forall|j: int| 0 <= j < m.len() ==> #[trigger] out[i + j] == LayoutEntry::Workspace(m[j])
            &&& forall|k: int| i < k < items.len() ==> #[trigger] out[k - 1 + m.len()] == items[k]
        },
        has_no_folder(items, id) ==> spec_delete_folder(items, id) == (
            Err::<(), WorkspaceLayoutError>(WorkspaceLayoutError::FolderNotFound),
            items,
        ),
{
    lemma_folder_index_is_first(items, id);
    if is_first_folder(items, id, i) {
        let m = items[i]->Folder_0.members;
        let out = spec_delete_folder(items, id).1;
        let we = workspace_entries(m);
        assert(out == items.take(i) + we + items.skip(i + 1));
        assert forall|j: int| 0 <= j < m.len() implies #[trigger] out[i + j] == LayoutEntry::Workspace(m[j]) by {
            assert(out[i + j] == we[j]);
        }
        assert forall|k: int| i < k < items.len() implies #[trigger] out[k - 1 + m.len()] == items[k] by {
            assert(out[k - 1 + m.len()] == items.skip(i + 1)[k - i - 1]);
        }
    }
}

/// Moving the first folder with id `id` moves that folder alone: with it taken out, the
/// items are as they were with it taken out, and it lands at `insert_index - 1` when it
/// stood before `insert_index`, else at `insert_index`. It reports a change exactly when
/// the folder moved. An index past the end fails and changes nothing.
pub proof fn lemma_move_folder_moves_only_it(
    items: Seq<LayoutEntry>,
    id: Seq<char>,
    source: int,
    insert_index: int,
)
    requires
        is_first_folder(items, id, source),
        0 <= insert_index,
    ensures
        insert_index > items.len() ==> spec_move_folder(items, id, insert_index) == (
            Err::<bool, WorkspaceLayoutError>(WorkspaceLayoutError::InsertIndexOutOfBounds),
            items,
        ),
        insert_index <= items.len() ==> {
            let (r, out) = spec_move_folder(items, id, insert_index);
            let target = if source < insert_index {
                insert_index - 1
            } else {
                insert_index
            };
            &&& r == Ok::<bool, WorkspaceLayoutError>(target != source)
            &&& out.len() == items.len()
            &&& out[target] == items[source]
            &&& out.remove(target) == items.remove(source)
        },
{
    lemma_folder_index_is_first(items, id);
    if insert_index <= items.len() {
        let out = spec_move_folder(items, id, insert_index).1;
        let target = if source < insert_index {
            insert_index - 1
        } else {
            insert_index
        };
        if target == source {
            assert(items.remove(source) =~= out.remove(target));
        } else {
            assert(out.remove(target) =~= items.remove(source));
        }
    }
}

/// Renaming the first folder with id `id` stores the requested name with its leading and
/// trailing whitespace cut off, and touches nothing else: the folder keeps its id and
/// members, every other item stays, and the result tells whether the name changed. A
/// name that is all whitespace fails, and so does an id that no folder has; both change
/// nothing.
pub proof fn lemma_rename_folder_trims(items: Seq<LayoutEntry>, id: Seq<char>, name: Seq<char>, i: int)
    ensures
        (forall|k: int| 0 <= k < name.len() ==> text::is_whitespace(#[trigger] name[k]))
            ==> spec_rename_folder(items, id, name) == (
            Err::<bool, WorkspaceLayoutError>(WorkspaceLayoutError::EmptyFolderName),
            items,
        ),
        is_first_folder(items, id, i) && (exists|k: int|
            0 <= k < name.len() && !text::is_whitespace(#[trigger] name[k])) ==> {
            let (r, out) = spec_rename_folder(items, id, name);
            let old_folder = items[i]->Folder_0;
            &&& out.len() == items.len()
            &&& forall|k: int| 0 <= k < items.len() && k != i ==> #[trigger] out[k] == items[k]
            &&& out[i] is Folder
            &&& out[i]->Folder_0.id == old_folder.id
            &&& out[i]->Folder_0.members == old_folder.members
            &&& text::is_trim_of(name, out[i]->Folder_0.name)
            &&& out[i]->Folder_0.name.len() > 0
            &&& r == Ok::<bool, WorkspaceLayoutError>(out[i]->Folder_0.name != old_folder.name)
        },
{
    text::lemma_trim_shape(name);
    lemma_folder_index_is_first(items, id);
    if is_first_folder(items, id, i) && (exists|k: int|
        0 <= k < name.len() && !text::is_whitespace(#[trigger] name[k])) {
        let k = choose|k: int| 0 <= k < name.len() && !text::is_whitespace(#[trigger] name[k]);
        assert(text::trim(name).len() > 0);
    }
}

/// Placing workspaces at the root, before an anchor that is not itself moved, puts them
/// right before the first root item that holds the anchor (a root workspace or a folder),
/// once they have been taken out of their places; when no item holds the anchor any more,
/// or no anchor is given, they go to the end.
pub proof fn lemma_place_at_root_lands_before_anchor(
    items: Seq<LayoutEntry>,
    ids: Seq<Seq<char>>,
    before: Option<Seq<char>>,
    i: int,
)
    ensures
        ({
            let (r, out) = spec_place_workspaces_at_root(items, ids, before);
            let after = remove_all(items, ids, ids.len());
            &&& r is Ok && before is None ==> out == after + workspace_entries(ids)
            &&& r is Ok && before is Some && (forall|k: int|
                0 <= k < after.len() ==> !entry_holds(#[trigger] after[k], before.unwrap()))
                ==> out == after + workspace_entries(ids)
            &&& r is Ok && before is Some && 0 <= i < after.len() && entry_holds(
                after[i],
                before.unwrap(),
            ) && (forall|k: int| 0 <= k < i ==> !entry_holds(#[trigger] after[k], before.unwrap()))
                ==> out == after.take(i) + workspace_entries(ids) + after.skip(i)
        }),
{
    let after = remove_all(items, ids, ids.len());
    assert(after.take(after.len() as int) =~= after);
    assert(after.skip(after.len() as int) =~= Seq::<LayoutEntry>::empty());
    assert(after + workspace_entries(ids) + Seq::<LayoutEntry>::empty() =~= after + workspace_entries(ids));
    if let Some(b) = before {
        let p = |e: LayoutEntry| entry_holds(e, b);
        seq_search::lemma_first_where(after, p);
        if 0 <= i < after.len() && entry_holds(after[i], b) && (forall|k: int|
            0 <= k < i ==> !entry_holds(#[trigger] after[k], b)) {
            assert forall|k: int| 0 <= k < i implies !p(#[trigger] after[k]) by {}
            seq_search::lemma_first_where_at(after, p, i);
        }
        if forall|k: int| 0 <= k < after.len() ==> !entry_holds(#[trigger] after[k], b) {
            assert forall|k: int| 0 <= k < after.len() implies !p(#[trigger] after[k]) by {}
            seq_search::lemma_first_where_none(after, p);
        }
    }
}


/// A folder name, as creating and renaming store it, is the requested name with leading
/// and trailing whitespace cut off; a name that is all whitespace is refused.
pub proof fn lemma_folder_name_is_trimmed(name: Seq<char>)
    ensures
        (spec_normalize_folder_name(name) is Err) == (forall|k: int|
            0 <= k < name.len() ==> text::is_whitespace(#[trigger] name[k])),
        spec_normalize_folder_name(name) matches Err(e) ==> e == WorkspaceLayoutError::EmptyFolderName,
        spec_normalize_folder_name(name) matches Ok(n) ==> text::is_trim_of(name, n) && n.len() > 0,
{
    text::lemma_trim_shape(name);
}


/// The sidebar order `o` with the first occurrence of each of the first `n` ids taken out,
/// one after another.
pub open spec fn remove_firsts(o: Seq<Seq<char>>, ids: Seq<Seq<char>>, n: nat) -> Seq<Seq<char>>
    decreases n,
{
    if n == 0 || n > ids.len() {
        o
    } else {
        let t = remove_firsts(o, ids, (n - 1) as nat);
        match text::first_index_of(t, ids[n - 1]) {
            Some(k) => t.remove(k),
            None => t,
        }
    }
}

proof fn lemma_remove_all_sidebar(items: Seq<LayoutEntry>, ids: Seq<Seq<char>>, n: nat)
    requires
        n <= ids.len(),
    ensures
        ordered_ids(remove_all(items, ids, n)) == remove_firsts(ordered_ids(items), ids, n),
    decreases n,
{
    if n > 0 {
        lemma_remove_all_sidebar(items, ids, (n - 1) as nat);
        crate::layout_laws::lemma_remove_workspace_in_sidebar_order(
            remove_all(items, ids, (n - 1) as nat),
            ids[n - 1],
        );
    }
}

/// Placing workspaces at the root fails, changing nothing, exactly when one of them or the
/// anchor is not in the sidebar; otherwise it reports whether the layout changed, and the
/// layout it builds on is the old one with each placed workspace taken out of its place
/// (in the sidebar: its first occurrence removed, one after another).
pub proof fn lemma_place_at_root_outcome(
    items: Seq<LayoutEntry>,
    ids: Seq<Seq<char>>,
    before: Option<Seq<char>>,
)
    ensures
        ({
            let (r, out) = spec_place_workspaces_at_root(items, ids, before);
            let o = ordered_ids(items);
            let missing = (exists|k: int| 0 <= k < ids.len() && !o.contains(#[trigger] ids[k])) || (
            before is Some && !o.contains(before.unwrap()));
            &&& (r is Err) == missing
            &&& r is Err ==> r == Err::<bool, WorkspaceLayoutError>(
                WorkspaceLayoutError::WorkspaceNotFound,
            ) && out == items
            &&& r matches Ok(changed) ==> changed == (out != items)
            &&& ordered_ids(remove_all(items, ids, ids.len())) == remove_firsts(o, ids, ids.len())
        }),
{
    let o = ordered_ids(items);
    lemma_remove_all_sidebar(items, ids, ids.len());
    assert forall|w: Seq<char>| (#[trigger] workspace_position(items, w) is Some) == o.contains(w) by {
        crate::layout_laws::lemma_remove_workspace_in_sidebar_order(items, w);
    }
    if !all_present(items, ids) {
        let k = choose|k: int| 0 <= k < ids.len() && !(#[trigger] workspace_position(items, ids[k]) is Some);
        assert(!o.contains(ids[k]));
    }
    if exists|k: int| 0 <= k < ids.len() && !o.contains(#[trigger] ids[k]) {
        let k = choose|k: int| 0 <= k < ids.len() && !o.contains(#[trigger] ids[k]);
        assert(!(workspace_position(items, ids[k]) is Some));
    }
}

/// Moving or renaming a folder with an id that no folder has fails and changes nothing
/// (renaming to a name that is all whitespace fails on the name first).
pub proof fn lemma_missing_folder_changes_nothing(
    items: Seq<LayoutEntry>,
    id: Seq<char>,
    insert_index: int,
    name: Seq<char>,
)
    requires
        has_no_folder(items, id),
    ensures
        spec_move_folder(items, id, insert_index) == (
            Err::<bool, WorkspaceLayoutError>(WorkspaceLayoutError::FolderNotFound),
            items,
        ),
        (exists|k: int| 0 <= k < name.len() && !text::is_whitespace(#[trigger] name[k]))
            ==> spec_rename_folder(items, id, name) == (
            Err::<bool, WorkspaceLayoutError>(WorkspaceLayoutError::FolderNotFound),
            items,
        ),
{
    lemma_folder_index_is_first(items, id);
    text::lemma_trim_shape(name);
}

} // verus!
