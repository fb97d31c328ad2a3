//! The application's workspace list kept in step with the sidebar layout: folder
//! commands, and the canonical workspace order that follows the layout.
use vstd::multiset::Multiset;
use vstd::prelude::*;
use vstd::string::*;

use crate::seq_search;
use crate::text;
use crate::workspace_layout::{
    self, ordered_ids, FolderIdAllocator, LayoutEntry, WorkspaceLayout, WorkspaceLayoutError,
};

verus! {

/// A workspace as this module sees it: its id and the name shown for it.
#[derive(Debug)]
pub struct Workspace {
    pub id: String,
    pub name: String,
}

impl Workspace {
    pub fn new(id: String, name: String) -> (w: Self)
        ensures
            w.id == id,
            w.name == name,
    {
        Workspace { id, name }
    }

    pub fn display_name(&self) -> (r: &str)
        ensures
            r@ == self.name@,
    {
        self.name.as_str()
    }
}

/// The workspaces, the sidebar layout, and the folder and focus state that go with them.
pub struct AppState {
    pub workspaces: Vec<Workspace>,
    /// The workspace shown, if any.
    pub active: Option<usize>,
    /// The workspace highlighted in the sidebar.
    pub selected: usize,
    pub workspace_layout: WorkspaceLayout,
    /// Ids of the folders shown collapsed.
    pub collapsed_folder_ids: CollapsedFolders,
    pub selected_folder_id: Option<String>,
    /// The session has changes that are not saved yet.
    pub session_dirty: bool,
}

/// The ids of a list of workspaces, in order.
pub open spec fn ids_of(ws: Seq<Workspace>) -> Seq<Seq<char>> {
    ws.map_values(|w: Workspace| w.id@)
}

/// The position of the first workspace with id `id`.
pub open spec fn index_of_id(ws: Seq<Workspace>, id: Seq<char>) -> Option<int> {
    seq_search::first_where(ws, has_id(id))
}

/// The workspace has id `id`.
pub open spec fn has_id(id: Seq<char>) -> spec_fn(Workspace) -> bool {
    |w: Workspace| w.id@ == id
}

/// Ordering workspaces by the first `n` ids of `ordered`: each id, in turn, takes the
/// workspace with that id out of those not yet taken. Returns the workspaces taken, in
/// order, and those left.
pub open spec fn reorder(ws: Seq<Workspace>, ordered: Seq<Seq<char>>, n: nat) -> (Seq<Workspace>, Seq<Workspace>)
    decreases n,
{
    if n == 0 || n > ordered.len() {
        (Seq::empty(), ws)
    } else {
        let (taken, rest) = reorder(ws, ordered, (n - 1) as nat);
        match index_of_id(rest, ordered[n - 1]) {
            Some(j) => (taken.push(rest[j]), rest.remove(j)),
            None => (taken, rest),
        }
    }
}

pub open spec fn to_usize_option(o: Option<int>) -> Option<usize> {
    match o {
        Some(i) => Some(i as usize),
        None => None,
    }
}

/// The workspace list put in the layout's order, with the active and the selected
/// workspace followed to their new positions. Nothing changes while two workspaces share
/// an id, or when the order is already the layout's.
pub open spec fn spec_apply_order(
    ws: Seq<Workspace>,
    active: Option<usize>,
    selected: usize,
    ordered: Seq<Seq<char>>,
) -> (Seq<Workspace>, Option<usize>, usize) {
    if !ids_of(ws).no_duplicates() || ids_of(ws) == ordered {
        (ws, active, selected)
    } else {
        let new_ws = reorder(ws, ordered, ordered.len()).0;
        let new_active = match active {
            Some(i) => if i < ws.len() {
                to_usize_option(index_of_id(new_ws, ws[i as int].id@))
            } else {
                None
            },
            None => None,
        };
        let new_selected = if selected < ws.len() {
            match index_of_id(new_ws, ws[selected as int].id@) {
                Some(j) => j as usize,
                None => 0,
            }
        } else {
            0
        };
        (new_ws, new_active, new_selected)
    }
}

/// The state as a value.
pub struct AppModel {
    pub workspaces: Seq<Workspace>,
    pub active: Option<usize>,
    pub selected: usize,
    pub layout: Seq<LayoutEntry>,
    pub collapsed: Seq<Seq<char>>,
    pub selected_folder: Option<Seq<char>>,
    pub dirty: bool,
}

impl View for AppState {
    type V = AppModel;

    open spec fn view(&self) -> AppModel {
        AppModel {
            workspaces: self.workspaces@,
            active: self.active,
            selected: self.selected,
            layout: self.workspace_layout@,
            collapsed: self.collapsed_folder_ids@,
            selected_folder: match self.selected_folder_id {
                Some(id) => Some(id@),
                None => None,
            },
            dirty: self.session_dirty,
        }
    }
}

/// The workspace list put in the order of the state's layout.
pub open spec fn spec_apply_state(m: AppModel) -> AppModel {
    let (ws, active, selected) = spec_apply_order(m.workspaces, m.active, m.selected, ordered_ids(m.layout));
    AppModel { workspaces: ws, active, selected, ..m }
}

/// The layout normalized against the workspaces, then the workspaces put in its order.
pub open spec fn spec_normalize_state(m: AppModel) -> AppModel {
    let layout = workspace_layout::spec_normalize(m.layout, ids_of(m.workspaces));
    spec_apply_state(AppModel { layout, ..m })
}

/// The process's folder id counter after normalizing `m` has reserved the layout's
/// folder ids.
pub open spec fn next_after_normalize(m: AppModel, next: u64) -> u64 {
    workspace_layout::reserved_next(next, workspace_layout::spec_normalize(m.layout, ids_of(m.workspaces)))
}

/// `s` without `x` (its first occurrence).
pub open spec fn set_remove(s: Seq<Seq<char>>, x: Seq<char>) -> Seq<Seq<char>> {
    match text::first_index_of(s, x) {
        Some(i) => s.remove(i),
        None => s,
    }
}

pub open spec fn spec_toggle_folder(m: AppModel, id: Seq<char>) -> (bool, AppModel) {
    match workspace_layout::folder_index(m.layout, id) {
        None => (false, m),
        Some(i) => if workspace_layout::members_of(m.layout[i]).len() == 0 {
            (false, m)
        } else if m.collapsed.contains(id) {
            (true, AppModel { collapsed: set_remove(m.collapsed, id), ..m })
        } else {
            (true, AppModel { collapsed: m.collapsed.push(id), ..m })
        },
    }
}

/// Creating a folder named `name`, drawing its id from the process's counter `next`: the
/// result, the state and the counter afterwards.
pub open spec fn spec_create_folder(m: AppModel, next: u64, name: Seq<char>) -> (Result<Seq<char>, WorkspaceLayoutError>, AppModel, u64) {
    let m1 = spec_normalize_state(m);
    let n1 = next_after_normalize(m, next);
    match workspace_layout::spec_normalize_folder_name(name) {
        Err(e) => (Err(e), m1, n1),
        Ok(n) => {
            let id = workspace_layout::folder_id_string(n1 as nat);
            let f = workspace_layout::FolderModel { id, name: n, members: Seq::empty() };
            (
                Ok(id),
                AppModel { layout: m1.layout.push(LayoutEntry::Folder(f)), dirty: true, ..m1 },
                n1.wrapping_add(1),
            )
        },
    }
}

pub open spec fn spec_rename_folder_state(m: AppModel, id: Seq<char>, name: Seq<char>) -> (Result<bool, WorkspaceLayoutError>, AppModel) {
    let m1 = spec_normalize_state(m);
    let (r, layout) = workspace_layout::spec_rename_folder(m1.layout, id, name);
    match r {
        Err(e) => (Err(e), m1),
        Ok(changed) => (Ok(changed), AppModel { layout, dirty: m1.dirty || changed, ..m1 }),
    }
}

pub open spec fn spec_delete_folder_state(m: AppModel, id: Seq<char>) -> (Result<(), WorkspaceLayoutError>, AppModel) {
    let m1 = spec_normalize_state(m);
    let (r, layout) = workspace_layout::spec_delete_folder(m1.layout, id);
    match r {
        Err(e) => (Err(e), m1),
        Ok(_) => (
            Ok(()),
            AppModel {
                layout,
                collapsed: set_remove(m1.collapsed, id),
                selected_folder: if m1.selected_folder == Some(id) {
                    None
                } else {
                    m1.selected_folder
                },
                dirty: true,
                ..m1
            },
        ),
    }
}

/// After normalizing, a layout change `(r, layout)`; when it changed something the
/// workspaces follow the new order and the session is marked dirty.
pub open spec fn spec_after_layout_change(m1: AppModel, r: Result<bool, WorkspaceLayoutError>, layout: Seq<LayoutEntry>) -> (Result<bool, WorkspaceLayoutError>, AppModel) {
    match r {
        Err(e) => (Err(e), m1),
        Ok(changed) => if changed {
            (Ok(true), AppModel { dirty: true, ..spec_apply_state(AppModel { layout, ..m1 }) })
        } else {
            (Ok(false), AppModel { layout, ..m1 })
        },
    }
}

pub open spec fn spec_move_folder_state(m: AppModel, id: Seq<char>, insert_index: int) -> (Result<bool, WorkspaceLayoutError>, AppModel) {
    let m1 = spec_normalize_state(m);
    let (r, layout) = workspace_layout::spec_move_folder(m1.layout, id, insert_index);
    spec_after_layout_change(m1, r, layout)
}

pub open spec fn spec_place_workspace_state(m: AppModel, w: Seq<char>, folder: Option<Seq<char>>, insert_index: int) -> (Result<bool, WorkspaceLayoutError>, AppModel) {
    let m1 = spec_normalize_state(m);
    let (r, layout) = workspace_layout::spec_place_workspace(m1.layout, w, folder, insert_index);
    spec_after_layout_change(m1, r, layout)
}

pub open spec fn spec_place_workspaces_at_root_state(m: AppModel, ids: Seq<Seq<char>>, before: Option<Seq<char>>) -> (Result<bool, WorkspaceLayoutError>, AppModel) {
    let m1 = spec_normalize_state(m);
    let (r, layout) = workspace_layout::spec_place_workspaces_at_root(m1.layout, ids, before);
    spec_after_layout_change(m1, r, layout)
}

pub open spec fn opt_str_view(o: Option<&str>) -> Option<Seq<char>> {
    match o {
        Some(s) => Some(s@),
        None => None,
    }
}

fn index_of_workspace(ws: &Vec<Workspace>, id: &str) -> (r: Option<usize>)
    ensures
        to_usize_option(index_of_id(ws@, id@)) == r,
        match r {
            Some(i) => index_of_id(ws@, id@) == Some(i as int) && i < ws.len(),
            None => index_of_id(ws@, id@) is None,
        },
{
    let ghost p = has_id(id@);
    let mut i: usize = 0;
    while i < ws.len()
        invariant
            p == has_id(id@),
            i <= ws.len(),
            seq_search::first_where(ws@.take(i as int), p) is None,
        decreases ws.len() - i,
    {
        assert(ws@.take(i + 1).drop_last() =~= ws@.take(i as int));
        if text::str_eq(ws[i].id.as_str(), id) {
            proof {
                seq_search::lemma_first_where_prefix(ws@, p, i + 1);
            }
            return Some(i);
        }
        i = i + 1;
    }
    assert(ws@.take(i as int) =~= ws@);
    None
}

fn ids_unique(ws: &Vec<Workspace>) -> (r: bool)
    ensures
        r == ids_of(ws@).no_duplicates(),
{
    let ghost v = ids_of(ws@);
    let mut i: usize = 0;
    while i < ws.len()
        invariant
            v == ids_of(ws@),
            i <= ws.len(),
            forall|a: int, b: int| 0 <= a < b < i ==> v[a] != v[b],
        decreases ws.len() - i,
    {
        let mut j: usize = 0;
        while j < i
            invariant
                v == ids_of(ws@),
                j <= i < ws.len(),
                forall|a: int, b: int| 0 <= a < b < i ==> v[a] != v[b],
                forall|a: int| 0 <= a < j ==> v[a] != v[i as int],
            decreases i - j,
        {
            if text::str_eq(ws[j].id.as_str(), ws[i].id.as_str()) {
                assert(v[j as int] == v[i as int]);
                return false;
            }
            j = j + 1;
        }
        i = i + 1;
    }
    true
}

fn ids_match(ws: &Vec<Workspace>, ordered: &Vec<&str>) -> (r: bool)
    ensures
        r == (ids_of(ws@) == ordered@.map_values(|s: &str| s@)),
{
    let ghost v = ids_of(ws@);
    let ghost o = ordered@.map_values(|s: &str| s@);
    if ws.len() != ordered.len() {
        assert(v.len() != o.len());
        return false;
    }
    let mut i: usize = 0;
    while i < ws.len()
        invariant
            v == ids_of(ws@),
            o == ordered@.map_values(|s: &str| s@),
            ws.len() == ordered.len(),
            i <= ws.len(),
            forall|k: int| 0 <= k < i ==> v[k] == o[k],
        decreases ws.len() - i,
    {
        if !text::str_eq(ws[i].id.as_str(), ordered[i]) {
            assert(v[i as int] != o[i as int]);
            return false;
        }
        i = i + 1;
    }
    assert(v =~= o);
    true
}

fn string_position(list: &Vec<String>, x: &str) -> (r: Option<usize>)
    ensures
        match r {
            Some(i) => text::first_index_of(workspace_layout::string_views(list@), x@) == Some(i as int),
            None => text::first_index_of(workspace_layout::string_views(list@), x@) is None,
        },
{
    workspace_layout::position_of_string(list, x)
}

fn remove_string(list: &mut Vec<String>, x: &str) -> (r: bool)
    ensures
        r == workspace_layout::string_views(old(list)@).contains(x@),
        workspace_layout::string_views(final(list)@) == set_remove(workspace_layout::string_views(old(list)@), x@),
        !r ==> workspace_layout::string_views(final(list)@) == workspace_layout::string_views(old(list)@),
{
    proof {
        text::lemma_first_index_of(workspace_layout::string_views(list@), x@);
    }
    match string_position(list, x) {
        Some(i) => {
            let ghost before = workspace_layout::string_views(list@);
            list.remove(i);
            assert(workspace_layout::string_views(list@) =~= before.remove(i as int));
            true
        },
        None => false,
    }
}

/// The state's invariant: no folder is listed as collapsed twice.
pub open spec fn app_wf(m: AppModel) -> bool {
    m.collapsed.no_duplicates()
}

/// The ids of the folders shown collapsed: a set, held as a list in which no id occurs
/// twice.
pub struct CollapsedFolders {
    ids: Vec<String>,
}

impl View for CollapsedFolders {
    type V = Seq<Seq<char>>;

    closed spec fn view(&self) -> Seq<Seq<char>> {
        workspace_layout::string_views(self.ids@)
    }
}

impl CollapsedFolders {
    #[verifier::type_invariant]
    closed spec fn unique(self) -> bool {
        self@.no_duplicates()
    }

    /// No folder collapsed.
    pub fn new() -> (c: Self)
        ensures
            c@ == Seq::<Seq<char>>::empty(),
    {
        let ids: Vec<String> = Vec::new();
        assert(workspace_layout::string_views(ids@) =~= Seq::<Seq<char>>::empty());
        CollapsedFolders { ids }
    }

    /// The collapsed ids, in the order they were collapsed.
    pub fn ids(&self) -> (r: &Vec<String>)
        ensures
            workspace_layout::string_views(r@) == self@,
    {
        &self.ids
    }

    /// Whether folder `id` is collapsed.
    pub fn contains(&self, id: &str) -> (r: bool)
        ensures
            r == self@.contains(id@),
    {
        proof {
            text::lemma_first_index_of(self@, id@);
        }
        string_position(&self.ids, id).is_some()
    }

    /// No id is listed twice: the invariant every value of this type keeps.
    pub fn no_id_twice(&self)
        ensures
            self@.no_duplicates(),
    {
        proof {
            use_type_invariant(self);
        }
    }

    /// Collapses folder `id`, or expands it when it is collapsed.
    fn toggle(&mut self, id: &str)
        ensures
            final(self)@ == if old(self)@.contains(id@) {
                set_remove(old(self)@, id@)
            } else {
                old(self)@.push(id@)
            },
    {
        proof {
            use_type_invariant(&*self);
        }
        let ghost before = self@;
        let mut ids: Vec<String> = Vec::new();
        std::mem::swap(&mut ids, &mut self.ids);
        assert(workspace_layout::string_views(ids@) == before);
        proof {
            lemma_set_remove_keeps_unique(before, id@);
        }
        if !remove_string(&mut ids, id) {
            ids.push(id.to_owned());
            assert(workspace_layout::string_views(ids@) =~= before.push(id@));
            proof {
                lemma_push_new_keeps_unique(before, id@);
            }
        }
        self.ids = ids;
    }

    /// Expands folder `id`, if it is collapsed.
    fn remove(&mut self, id: &str)
        ensures
            final(self)@ == set_remove(old(self)@, id@),
    {
        proof {
            use_type_invariant(&*self);
        }
        let ghost before = self@;
        let mut ids: Vec<String> = Vec::new();
        std::mem::swap(&mut ids, &mut self.ids);
        assert(workspace_layout::string_views(ids@) == before);
        proof {
            lemma_set_remove_keeps_unique(before, id@);
        }
        remove_string(&mut ids, id);
        self.ids = ids;
    }
}

impl AppState {
    /// The state's invariant holds of every state (see `app_wf`).
    pub fn well_formed_holds(&self)
        ensures
            app_wf(self@),
    {
        self.collapsed_folder_ids.no_id_twice();
    }
}

impl AppState {
    /// An empty state: no workspaces, an empty layout, nothing collapsed or selected.
    pub fn new() -> (s: Self)
        ensures
            s@.workspaces == Seq::<Workspace>::empty(),
            s@.active is None,
            s@.selected == 0,
            s@.layout == Seq::<LayoutEntry>::empty(),
            s@.collapsed == Seq::<Seq<char>>::empty(),
            s@.selected_folder is None,
            !s@.dirty,
            app_wf(s@),
    {
        let collapsed = CollapsedFolders::new();
        AppState {
            workspaces: Vec::new(),
            active: None,
            selected: 0,
            workspace_layout: WorkspaceLayout::default(),
            collapsed_folder_ids: collapsed,
            selected_folder_id: None,
            session_dirty: false,
        }
    }

    fn mark_session_dirty(&mut self)
        ensures
            final(self)@ == (AppModel { dirty: true, ..old(self)@ }),
    {
        self.session_dirty = true;
    }

    /// Collapses or expands a folder that has workspaces. Returns whether it did.
    pub fn toggle_workspace_folder(&mut self, folder_id: &str) -> (r: bool)
        ensures
            (r, final(self)@) == spec_toggle_folder(old(self)@, folder_id@),
            app_wf(final(self)@),
    {
        let has_members = match self.workspace_layout.find_folder(folder_id) {
            Some(folder) => {
                assert(folder@.members.len() == folder.workspace_ids@.len());
                folder.workspace_ids.len() > 0
            },
            None => false,
        };
        if !has_members {
            proof {
                use_type_invariant(&self.collapsed_folder_ids);
            }
            return false;
        }
        self.collapsed_folder_ids.toggle(folder_id);
        proof {
            use_type_invariant(&self.collapsed_folder_ids);
        }
        true
    }

    /// Normalizes the layout against the workspaces and puts the workspaces in its order.
    pub fn normalize_workspace_layout(&mut self, folder_ids: &mut FolderIdAllocator)
        ensures
            final(self)@ == spec_normalize_state(old(self)@),
            final(folder_ids)@ == next_after_normalize(old(self)@, old(folder_ids)@),
    {
        let mut workspace_ids: Vec<String> = Vec::new();
        let mut i: usize = 0;
        while i < self.workspaces.len()
            invariant
                i <= self.workspaces.len(),
                workspace_layout::string_views(workspace_ids@) == ids_of(self.workspaces@.take(i as int)),
            decreases self.workspaces.len() - i,
        {
            let ghost before = workspace_layout::string_views(workspace_ids@);
            workspace_ids.push(self.workspaces[i].id.clone());
            assert(workspace_layout::string_views(workspace_ids@) =~= before.push(self.workspaces@[i as int].id@));
            assert(ids_of(self.workspaces@.take(i + 1)) =~= ids_of(self.workspaces@.take(i as int)).push(self.workspaces@[i as int].id@));
            assert(workspace_layout::string_views(workspace_ids@) =~= ids_of(self.workspaces@.take(i + 1)));
            i = i + 1;
        }
        assert(self.workspaces@.take(i as int) =~= self.workspaces@);
        self.workspace_layout.normalize(workspace_ids.as_slice(), folder_ids);
        self.apply_workspace_layout_order();
    }

    pub fn append_workspace_to_layout(&mut self, workspace_id: String)
        ensures
            final(self)@ == (AppModel {
                layout: if workspace_layout::workspace_position(old(self)@.layout, workspace_id@) is None {
                    old(self)@.layout.push(LayoutEntry::Workspace(workspace_id@))
                } else {
                    old(self)@.layout
                },
                ..old(self)@
            }),
    {
        self.workspace_layout.append_workspace(workspace_id);
    }

    pub fn remove_workspace_from_layout(&mut self, workspace_id: &str)
        ensures
            final(self)@ == (AppModel {
                layout: workspace_layout::spec_remove_workspace(old(self)@.layout, workspace_id@),
                ..old(self)@
            }),
    {
        self.workspace_layout.remove_workspace(workspace_id);
    }

    /// Adds a workspace at the end of the list and of the layout; returns its index.
    pub fn push_workspace(&mut self, workspace: Workspace, folder_ids: &mut FolderIdAllocator) -> (r: usize)
        ensures
            final(folder_ids)@ == next_after_normalize(old(self)@, old(folder_ids)@),
            ({
                let m1 = spec_normalize_state(old(self)@);
                final(self)@ == (AppModel {
                    workspaces: m1.workspaces.push(workspace),
                    layout: if workspace_layout::workspace_position(m1.layout, workspace.id@) is None {
                        m1.layout.push(LayoutEntry::Workspace(workspace.id@))
                    } else {
                        m1.layout
                    },
                    ..m1
                })
            }),
            r == final(self).workspaces.len() - 1,
    {
        self.normalize_workspace_layout(folder_ids);
        self.append_workspace_to_layout(workspace.id.clone());
        self.workspaces.push(workspace);
        self.workspaces.len() - 1
    }

    /// Takes the workspace at `workspace_index` out of the list and the layout.
    pub fn remove_workspace_at(&mut self, workspace_index: usize) -> (w: Workspace)
        requires
            workspace_index < old(self).workspaces.len(),
        ensures
            w == old(self).workspaces@[workspace_index as int],
            final(self)@ == (AppModel {
                workspaces: old(self)@.workspaces.remove(workspace_index as int),
                layout: workspace_layout::spec_remove_workspace(old(self)@.layout, w.id@),
                ..old(self)@
            }),
    {
        let workspace_id = self.workspaces[workspace_index].id.clone();
        self.remove_workspace_from_layout(workspace_id.as_str());
        self.workspaces.remove(workspace_index)
    }

    /// Creates a folder (after normalizing); returns its id.
    pub fn create_workspace_folder(&mut self, name: String, folder_ids: &mut FolderIdAllocator) -> (r: Result<String, WorkspaceLayoutError>)
        ensures
            (match r {
                Ok(id) => Ok::<Seq<char>, WorkspaceLayoutError>(id@),
                Err(e) => Err(e),
            }, final(self)@, final(folder_ids)@) == spec_create_folder(old(self)@, old(folder_ids)@, name@),
    {
        self.normalize_workspace_layout(folder_ids);
        let folder_id = match self.workspace_layout.create_folder(name, folder_ids) {
            Ok(folder) => folder.id.clone(),
            Err(e) => return Err(e),
        };
        self.mark_session_dirty();
        Ok(folder_id)
    }

    /// Renames a folder (after normalizing); returns whether the name changed.
    pub fn rename_workspace_folder(&mut self, folder_id: &str, name: String, folder_ids: &mut FolderIdAllocator) -> (r: Result<bool, WorkspaceLayoutError>)
        ensures
            final(folder_ids)@ == next_after_normalize(old(self)@, old(folder_ids)@),
            (r, final(self)@) == spec_rename_folder_state(old(self)@, folder_id@, name@),
    {
        self.normalize_workspace_layout(folder_ids);
        let changed = self.workspace_layout.rename_folder(folder_id, name)?;
        if changed {
            self.mark_session_dirty();
        }
        Ok(changed)
    }

    /// Deletes a folder (after normalizing), forgetting that it was collapsed or selected.
    pub fn delete_workspace_folder(&mut self, folder_id: &str, folder_ids: &mut FolderIdAllocator) -> (r: Result<(), WorkspaceLayoutError>)
        ensures
            final(folder_ids)@ == next_after_normalize(old(self)@, old(folder_ids)@),
            (r, final(self)@) == spec_delete_folder_state(old(self)@, folder_id@),
            app_wf(final(self)@),
    {
        proof {
            use_type_invariant(&self.collapsed_folder_ids);
        }
        self.normalize_workspace_layout(folder_ids);
        self.workspace_layout.delete_folder(folder_id)?;
        self.collapsed_folder_ids.remove(folder_id);
        proof {
            use_type_invariant(&self.collapsed_folder_ids);
        }
        let is_selected = match &self.selected_folder_id {
            Some(id) => text::str_eq(id.as_str(), folder_id),
            None => false,
        };
        if is_selected {
            self.selected_folder_id = None;
        }
        self.mark_session_dirty();
        Ok(())
    }

    /// Moves a folder (after normalizing); the workspaces follow the new order.
    pub fn move_workspace_folder(&mut self, folder_id: &str, insert_index: usize, folder_ids: &mut FolderIdAllocator) -> (r: Result<bool, WorkspaceLayoutError>)
        ensures
            final(folder_ids)@ == next_after_normalize(old(self)@, old(folder_ids)@),
            (r, final(self)@) == spec_move_folder_state(old(self)@, folder_id@, insert_index as int),
    {
        self.normalize_workspace_layout(folder_ids);
        let changed = self.workspace_layout.move_folder(folder_id, insert_index)?;
        if changed {
            self.apply_workspace_layout_order();
            self.mark_session_dirty();
        }
        Ok(changed)
    }

    /// Places a workspace in a folder or at the root (after normalizing); the workspaces
    /// follow the new order.
    pub fn place_workspace_in_layout(&mut self, workspace_id: &str, folder_id: Option<&str>, insert_index: usize, folder_ids: &mut FolderIdAllocator) -> (r: Result<bool, WorkspaceLayoutError>)
        ensures
            final(folder_ids)@ == next_after_normalize(old(self)@, old(folder_ids)@),
            (r, final(self)@) == spec_place_workspace_state(old(self)@, workspace_id@, opt_str_view(folder_id), insert_index as int),
    {
        self.normalize_workspace_layout(folder_ids);
        let changed = self.workspace_layout.place_workspace(workspace_id, folder_id, insert_index)?;
        if changed {
            self.apply_workspace_layout_order();
            self.mark_session_dirty();
        }
        Ok(changed)
    }

    /// Places several workspaces at the root (after normalizing); the workspaces follow
    /// the new order.
    pub fn place_workspaces_at_layout_root(&mut self, workspace_ids: &[String], before_workspace_id: Option<&str>, folder_ids: &mut FolderIdAllocator) -> (r: Result<bool, WorkspaceLayoutError>)
        ensures
            final(folder_ids)@ == next_after_normalize(old(self)@, old(folder_ids)@),
            (r, final(self)@) == spec_place_workspaces_at_root_state(old(self)@, workspace_layout::string_views(workspace_ids@), opt_str_view(before_workspace_id)),
    {
        self.normalize_workspace_layout(folder_ids);
        let changed = self.workspace_layout.place_workspaces_at_root(workspace_ids, before_workspace_id)?;
        if changed {
            self.apply_workspace_layout_order();
            self.mark_session_dirty();
        }
        Ok(changed)
    }

    /// Puts the workspace list in the layout's order, keeping the active and the
    /// selected workspace.
    pub fn apply_workspace_layout_order(&mut self)
        ensures
            (final(self).workspaces@, final(self).active, final(self).selected) == spec_apply_order(
                old(self).workspaces@,
                old(self).active,
                old(self).selected,
                ordered_ids(old(self).workspace_layout@),
            ),
            final(self).workspace_layout == old(self).workspace_layout,
            final(self).collapsed_folder_ids == old(self).collapsed_folder_ids,
            final(self).selected_folder_id == old(self).selected_folder_id,
            final(self).session_dirty == old(self).session_dirty,
    {
        if !ids_unique(&self.workspaces) {
            return;
        }
        let ordered = self.workspace_layout.collect_ordered_workspace_ids();
        if ids_match(&self.workspaces, &ordered) {
            return;
        }
        let ghost ws = self.workspaces@;
        let ghost ord = ordered_ids(self.workspace_layout@);
        let len = self.workspaces.len();
        let active_id: Option<String> = match self.active {
            Some(i) => if i < len {
                Some(self.workspaces[i].id.clone())
            } else {
                None
            },
            None => None,
        };
        let selected_id: Option<String> = if self.selected < len {
            Some(self.workspaces[self.selected].id.clone())
        } else {
            None
        };
        let mut remaining: Vec<Workspace> = Vec::new();
        std::mem::swap(&mut remaining, &mut self.workspaces);
        let mut taken: Vec<Workspace> = Vec::new();
        let mut k: usize = 0;
        while k < ordered.len()
            invariant
                ord == ordered@.map_values(|s: &str| s@),
                k <= ordered.len(),
                (taken@, remaining@) == reorder(ws, ord, k as nat),
            decreases ordered.len() - k,
        {
            let ghost before = (taken@, remaining@);
            assert(ordered@[k as int]@ == ord[k as int]);
            if let Some(j) = index_of_workspace(&remaining, ordered[k]) {
                let w = remaining.remove(j);
                taken.push(w);
            }
            k = k + 1;
        }
        self.workspaces = taken;
        self.active = match active_id {
            Some(id) => index_of_workspace(&self.workspaces, id.as_str()),
            None => None,
        };
        self.selected = match selected_id {
            Some(id) => match index_of_workspace(&self.workspaces, id.as_str()) {
                Some(j) => j,
                None => 0,
            },
            None => 0,
        };
    }
}


proof fn lemma_index_of_id(ws: Seq<Workspace>, x: Seq<char>)
    ensures
        index_of_id(ws, x) matches Some(j) ==> 0 <= j < ws.len() && ws[j].id@ == x,
        index_of_id(ws, x) is None ==> forall|k: int| 0 <= k < ws.len() ==> (#[trigger] ws[k]).id@ != x,
        (exists|k: int| 0 <= k < ws.len() && (#[trigger] ws[k]).id@ == x) ==> index_of_id(ws, x) is Some,
{
    seq_search::lemma_first_where(ws, has_id(x));
    if exists|k: int| 0 <= k < ws.len() && (#[trigger] ws[k]).id@ == x {
        let k = choose|k: int| 0 <= k < ws.len() && (#[trigger] ws[k]).id@ == x;
        assert(has_id(x)(ws[k]));
    }
}

proof fn lemma_ids_of_contains(s: Seq<Workspace>, k: int)
    requires
        0 <= k < s.len(),
    ensures
        ids_of(s).contains(s[k].id@),
{
    assert(ids_of(s)[k] == s[k].id@);
}

proof fn lemma_ids_of_contains_witness(s: Seq<Workspace>, x: Seq<char>)
    requires
        ids_of(s).contains(x),
    ensures
        exists|k: int| 0 <= k < s.len() && (#[trigger] s[k]).id@ == x,
{
    let k = choose|k: int| 0 <= k < ids_of(s).len() && ids_of(s)[k] == x;
    assert(s[k].id@ == x);
}

/// The reordering takes workspaces out of the list and puts them in order: together,
/// the taken and the remaining ones are the original workspaces; every listed id that
/// some workspace has is taken.
proof fn lemma_reorder(ws: Seq<Workspace>, ordered: Seq<Seq<char>>, n: nat)
    requires
        n <= ordered.len(),
    ensures
        reorder(ws, ordered, n).0.to_multiset().add(reorder(ws, ordered, n).1.to_multiset())
            == ws.to_multiset(),
        forall|k: int|
            0 <= k < n && ids_of(ws).contains(ordered[k]) ==> ids_of(reorder(ws, ordered, n).0).contains(
                #[trigger] ordered[k],
            ),
    decreases n,
{
    broadcast use vstd::multiset::group_multiset_axioms;
    broadcast use vstd::seq_lib::group_to_multiset_ensures;

    if n == 0 {
        assert(Seq::<Workspace>::empty().to_multiset() =~= Multiset::<Workspace>::empty());
        assert(Multiset::<Workspace>::empty().add(ws.to_multiset()) =~= ws.to_multiset());
    } else {
        lemma_reorder(ws, ordered, (n - 1) as nat);
        let (taken, rest) = reorder(ws, ordered, (n - 1) as nat);
        let x = ordered[n - 1];
        lemma_index_of_id(rest, x);
        match index_of_id(rest, x) {
            Some(j) => {
                let r = rest[j];
                assert(rest.contains(r));
                assert(taken.push(r).to_multiset() == taken.to_multiset().insert(r));
                assert(rest.remove(j).to_multiset() == rest.to_multiset().remove(r));
                assert(taken.push(r).to_multiset().add(rest.remove(j).to_multiset()) =~= ws.to_multiset());
                assert forall|k: int|
                    0 <= k < n && ids_of(ws).contains(ordered[k]) implies ids_of(taken.push(r)).contains(
                    #[trigger] ordered[k],
                ) by {
                    if k == n - 1 {
                        lemma_ids_of_contains(taken.push(r), taken.len() as int);
                    } else {
                        assert(ids_of(taken).contains(ordered[k]));
                        lemma_ids_of_contains_witness(taken, ordered[k]);
                        let t = choose|t: int| 0 <= t < taken.len() && (#[trigger] taken[t]).id@ == ordered[k];
                        assert(taken.push(r)[t] == taken[t]);
                        lemma_ids_of_contains(taken.push(r), t);
                    }
                }
            },
            None => {
                assert forall|k: int|
                    0 <= k < n && ids_of(ws).contains(ordered[k]) implies ids_of(taken).contains(
                    #[trigger] ordered[k],
                ) by {
                    if k == n - 1 {
                        lemma_ids_of_contains_witness(ws, x);
                        let q = choose|q: int| 0 <= q < ws.len() && (#[trigger] ws[q]).id@ == x;
                        let w = ws[q];
                        assert(ws.contains(w));
                        assert(ws.to_multiset().count(w) > 0);
                        if !taken.contains(w) {
                            assert(taken.to_multiset().count(w) == 0);
                            assert(rest.to_multiset().count(w) > 0);
                            assert(rest.contains(w));
                            let t = choose|t: int| 0 <= t < rest.len() && rest[t] == w;
                            assert(rest[t].id@ != x);
                            assert(false);
                        }
                        let t = choose|t: int| 0 <= t < taken.len() && taken[t] == w;
                        lemma_ids_of_contains(taken, t);
                    }
                }
            },
        }
    }
}

/// Putting the workspaces in the layout's order keeps focus: when the layout lists every
/// workspace id and no two workspaces share an id, the workspaces are the same (only
/// their order changes), and the active and the selected index point at the workspaces
/// they pointed at before.
pub proof fn lemma_apply_order_keeps_focus(
    ws: Seq<Workspace>,
    active: Option<usize>,
    selected: usize,
    ordered: Seq<Seq<char>>,
)
    requires
        ws.len() <= usize::MAX,
        ids_of(ws).no_duplicates(),
        forall|x: Seq<char>| #[trigger] ids_of(ws).contains(x) ==> ordered.contains(x),
    ensures
        spec_apply_order(ws, active, selected, ordered).0.to_multiset() == ws.to_multiset(),
        match active {
            Some(i) => i < ws.len() ==> {
                &&& spec_apply_order(ws, active, selected, ordered).1 matches Some(j)
                &&& j < spec_apply_order(ws, active, selected, ordered).0.len()
                &&& spec_apply_order(ws, active, selected, ordered).0[j as int] == ws[i as int]
            },
            None => true,
        },
        selected < ws.len() ==> {
            &&& spec_apply_order(ws, active, selected, ordered).2 < spec_apply_order(ws, active, selected, ordered).0.len()
            &&& spec_apply_order(ws, active, selected, ordered).0[spec_apply_order(ws, active, selected, ordered).2 as int]
                == ws[selected as int]
        },
{
    broadcast use vstd::multiset::group_multiset_axioms;
    broadcast use vstd::seq_lib::group_to_multiset_ensures;

    if ids_of(ws) != ordered {
        let n = ordered.len();
        lemma_reorder(ws, ordered, n);
        let (taken, rest) = reorder(ws, ordered, n);
        // Distinct workspaces of `ws` have distinct ids, so each occurs once.
        assert(ws.no_duplicates()) by {
            assert forall|a: int, b: int| 0 <= a < ws.len() && 0 <= b < ws.len() && a != b implies ws[a] != ws[b] by {
                assert(ids_of(ws)[a] != ids_of(ws)[b]);
            }
        }
        ws.lemma_multiset_has_no_duplicates();
        // Every workspace was taken: a remaining one would share its id with a taken one.
        if rest.len() > 0 {
            let r = rest[0];
            assert(rest.contains(r));
            assert(ws.to_multiset().count(r) > 0);
            assert(ws.contains(r));
            let q = choose|q: int| 0 <= q < ws.len() && ws[q] == r;
            lemma_ids_of_contains(ws, q);
            let k = choose|k: int| 0 <= k < ordered.len() && ordered[k] == r.id@;
            assert(ids_of(taken).contains(ordered[k]));
            lemma_ids_of_contains_witness(taken, r.id@);
            let t = choose|t: int| 0 <= t < taken.len() && (#[trigger] taken[t]).id@ == r.id@;
            let tw = taken[t];
            assert(taken.contains(tw));
            assert(ws.to_multiset().count(tw) > 0);
            if tw == r {
                assert(ws.to_multiset().count(r) >= 2);
            } else {
                assert(ws.contains(tw));
                let q2 = choose|q2: int| 0 <= q2 < ws.len() && ws[q2] == tw;
                assert(ids_of(ws)[q] == ids_of(ws)[q2]);
            }
        }
        assert(rest.to_multiset() =~= Multiset::<Workspace>::empty());
        assert(taken.to_multiset() =~= ws.to_multiset());
        // The focused workspaces are found again in the new order.
        if let Some(i) = active {
            if i < ws.len() {
                let x = ws[i as int].id@;
                lemma_ids_of_contains(ws, i as int);
                let k = choose|k: int| 0 <= k < ordered.len() && ordered[k] == x;
                lemma_ids_of_contains_witness(taken, x);
                let t = choose|t: int| 0 <= t < taken.len() && (#[trigger] taken[t]).id@ == x;
                lemma_index_of_id(taken, x);
                let j = index_of_id(taken, x).unwrap();
                let tw = taken[j];
                assert(taken.contains(tw));
                assert(taken.to_multiset().count(tw) > 0);
                assert(ws.to_multiset().count(tw) > 0);
                assert(ws.contains(tw));
                let q = choose|q: int| 0 <= q < ws.len() && ws[q] == tw;
                assert(ids_of(ws)[q] == ids_of(ws)[i as int]);
                assert(q == i);
                assert(taken.len() == ws.len()) by {
                    assert(taken.to_multiset().len() == ws.to_multiset().len());
                }
            }
        }
        if selected < ws.len() {
            let x = ws[selected as int].id@;
            lemma_ids_of_contains(ws, selected as int);
            let k = choose|k: int| 0 <= k < ordered.len() && ordered[k] == x;
            lemma_ids_of_contains_witness(taken, x);
            let t = choose|t: int| 0 <= t < taken.len() && (#[trigger] taken[t]).id@ == x;
            lemma_index_of_id(taken, x);
            let j = index_of_id(taken, x).unwrap();
            let tw = taken[j];
            assert(taken.contains(tw));
            assert(taken.to_multiset().count(tw) > 0);
            assert(ws.to_multiset().count(tw) > 0);
            assert(ws.contains(tw));
            let q = choose|q: int| 0 <= q < ws.len() && ws[q] == tw;
            assert(ids_of(ws)[q] == ids_of(ws)[selected as int]);
            assert(q == selected);
            assert(taken.len() == ws.len()) by {
                assert(taken.to_multiset().len() == ws.to_multiset().len());
            }
        }
    }
}


/// A reordering of workspaces with distinct ids still has distinct ids.
proof fn lemma_permutation_keeps_unique_ids(ws: Seq<Workspace>, ws2: Seq<Workspace>)
    requires
        ids_of(ws).no_duplicates(),
        ws2.to_multiset() == ws.to_multiset(),
    ensures
        ids_of(ws2).no_duplicates(),
        forall|x: Seq<char>| #[trigger] ids_of(ws2).contains(x) <==> ids_of(ws).contains(x),
{
    broadcast use vstd::multiset::group_multiset_axioms;
    broadcast use vstd::seq_lib::group_to_multiset_ensures;

    assert(ws.no_duplicates()) by {
        assert forall|a: int, b: int| 0 <= a < ws.len() && 0 <= b < ws.len() && a != b implies ws[a] != ws[b] by {
            assert(ids_of(ws)[a] != ids_of(ws)[b]);
        }
    }
    ws.lemma_multiset_has_no_duplicates();
    ws2.lemma_multiset_has_no_duplicates_conv();
    assert forall|a: int, b: int| 0 <= a < ws2.len() && 0 <= b < ws2.len() && a != b implies ids_of(ws2)[a] != ids_of(ws2)[b] by {
        if ids_of(ws2)[a] == ids_of(ws2)[b] {
            assert(ws2[a] != ws2[b]);
            assert(ws2.contains(ws2[a]));
            assert(ws2.contains(ws2[b]));
            assert(ws2.to_multiset().count(ws2[a]) > 0);
            assert(ws2.to_multiset().count(ws2[b]) > 0);
            assert(ws.contains(ws2[a]));
            assert(ws.contains(ws2[b]));
            let q1 = choose|q: int| 0 <= q < ws.len() && ws[q] == ws2[a];
            let q2 = choose|q: int| 0 <= q < ws.len() && ws[q] == ws2[b];
            assert(ids_of(ws)[q1] == ids_of(ws)[q2]);
        }
    }
    assert forall|x: Seq<char>| #[trigger] ids_of(ws2).contains(x) <==> ids_of(ws).contains(x) by {
        if ids_of(ws2).contains(x) {
            lemma_ids_of_contains_witness(ws2, x);
            let k = choose|k: int| 0 <= k < ws2.len() && (#[trigger] ws2[k]).id@ == x;
            assert(ws2.contains(ws2[k]));
            assert(ws2.to_multiset().count(ws2[k]) > 0);
            assert(ws.contains(ws2[k]));
            let q = choose|q: int| 0 <= q < ws.len() && ws[q] == ws2[k];
            lemma_ids_of_contains(ws, q);
        }
        if ids_of(ws).contains(x) {
            lemma_ids_of_contains_witness(ws, x);
            let k = choose|k: int| 0 <= k < ws.len() && (#[trigger] ws[k]).id@ == x;
            assert(ws.contains(ws[k]));
            assert(ws.to_multiset().count(ws[k]) > 0);
            assert(ws2.contains(ws[k]));
            let q = choose|q: int| 0 <= q < ws2.len() && ws2[q] == ws[k];
            lemma_ids_of_contains(ws2, q);
        }
    }
}

/// The active and the selected workspace, by value (none when the index is out of range).
pub open spec fn focused(m: AppModel) -> (Option<Workspace>, Option<Workspace>) {
    (
        match m.active {
            Some(i) => if i < m.workspaces.len() {
                Some(m.workspaces[i as int])
            } else {
                None
            },
            None => None,
        },
        if m.selected < m.workspaces.len() {
            Some(m.workspaces[m.selected as int])
        } else {
            None
        },
    )
}

/// Normalizing keeps the workspaces (in some order) and what is focused, as long as no
/// two workspaces share an id.
pub proof fn lemma_normalize_state_keeps_focus(m: AppModel)
    requires
        m.workspaces.len() <= usize::MAX,
        ids_of(m.workspaces).no_duplicates(),
    ensures
        spec_normalize_state(m).workspaces.to_multiset() == m.workspaces.to_multiset(),
        ids_of(spec_normalize_state(m).workspaces).no_duplicates(),
        focused(m).0 is Some ==> focused(spec_normalize_state(m)).0 == focused(m).0,
        focused(m).1 is Some ==> focused(spec_normalize_state(m)).1 == focused(m).1,
        forall|x: Seq<char>| #[trigger] ordered_ids(spec_normalize_state(m).layout).contains(x) <==> ids_of(m.workspaces).contains(x),
        forall|x: Seq<char>| #[trigger] ids_of(spec_normalize_state(m).workspaces).contains(x) <==> ids_of(m.workspaces).contains(x),
{
    let layout = workspace_layout::spec_normalize(m.layout, ids_of(m.workspaces));
    crate::layout_laws::lemma_normalize_lists_each_workspace_once(m.layout, ids_of(m.workspaces));
    lemma_apply_order_keeps_focus(m.workspaces, m.active, m.selected, ordered_ids(layout));
    let m1 = spec_normalize_state(m);
    lemma_permutation_keeps_unique_ids(m.workspaces, m1.workspaces);
}

/// A layout change that keeps the layout's workspaces keeps, once the workspaces
/// follow the new order, the workspaces and what is focused.
proof fn lemma_layout_change_keeps_focus(m1: AppModel, layout: Seq<LayoutEntry>)
    requires
        m1.workspaces.len() <= usize::MAX,
        ids_of(m1.workspaces).no_duplicates(),
        forall|x: Seq<char>| #[trigger] ordered_ids(m1.layout).contains(x) <==> ids_of(m1.workspaces).contains(x),
        crate::layout_laws::workspace_multiset(layout) == crate::layout_laws::workspace_multiset(m1.layout),
    ensures
        spec_apply_state(AppModel { layout, ..m1 }).workspaces.to_multiset() == m1.workspaces.to_multiset(),
        focused(m1).0 is Some ==> focused(spec_apply_state(AppModel { layout, ..m1 })).0 == focused(m1).0,
        focused(m1).1 is Some ==> focused(spec_apply_state(AppModel { layout, ..m1 })).1 == focused(m1).1,
{
    broadcast use vstd::seq_lib::group_to_multiset_ensures;

    assert forall|x: Seq<char>| #[trigger] ids_of(m1.workspaces).contains(x) implies ordered_ids(layout).contains(x) by {
        assert(ordered_ids(m1.layout).contains(x));
        assert(ordered_ids(m1.layout).to_multiset().count(x) > 0);
        assert(ordered_ids(layout).to_multiset().count(x) > 0);
    }
    lemma_apply_order_keeps_focus(m1.workspaces, m1.active, m1.selected, ordered_ids(layout));
}

/// Placing a workspace in the layout keeps the workspaces (in some order) and what is
/// focused, as long as no two workspaces share an id.
pub proof fn lemma_place_workspace_keeps_focus(m: AppModel, w: Seq<char>, folder: Option<Seq<char>>, insert_index: int)
    requires
        m.workspaces.len() <= usize::MAX,
        ids_of(m.workspaces).no_duplicates(),
        0 <= insert_index,
    ensures
        spec_place_workspace_state(m, w, folder, insert_index).1.workspaces.to_multiset() == m.workspaces.to_multiset(),
        focused(m).0 is Some ==> focused(spec_place_workspace_state(m, w, folder, insert_index).1).0 == focused(m).0,
        focused(m).1 is Some ==> focused(spec_place_workspace_state(m, w, folder, insert_index).1).1 == focused(m).1,
{
    lemma_normalize_state_keeps_focus(m);
    let m1 = spec_normalize_state(m);
    let (r, layout) = workspace_layout::spec_place_workspace(m1.layout, w, folder, insert_index);
    crate::layout_laws::lemma_place_workspace_keeps_workspaces(m1.layout, w, folder, insert_index);
    if r is Ok && r.unwrap() {
        broadcast use vstd::seq_lib::group_to_multiset_ensures;
        assert(m1.workspaces.to_multiset().len() == m.workspaces.to_multiset().len());
        lemma_layout_change_keeps_focus(m1, layout);
    }
}

/// Moving a folder keeps the workspaces (in some order) and what is focused, as long as
/// no two workspaces share an id.
pub proof fn lemma_move_folder_keeps_focus(m: AppModel, id: Seq<char>, insert_index: int)
    requires
        m.workspaces.len() <= usize::MAX,
        ids_of(m.workspaces).no_duplicates(),
        0 <= insert_index,
    ensures
        spec_move_folder_state(m, id, insert_index).1.workspaces.to_multiset() == m.workspaces.to_multiset(),
        focused(m).0 is Some ==> focused(spec_move_folder_state(m, id, insert_index).1).0 == focused(m).0,
        focused(m).1 is Some ==> focused(spec_move_folder_state(m, id, insert_index).1).1 == focused(m).1,
{
    lemma_normalize_state_keeps_focus(m);
    let m1 = spec_normalize_state(m);
    let (r, layout) = workspace_layout::spec_move_folder(m1.layout, id, insert_index);
    crate::layout_laws::lemma_move_folder_keeps_items(m1.layout, id, insert_index);
    if r is Ok && r.unwrap() {
        broadcast use vstd::seq_lib::group_to_multiset_ensures;
        assert(m1.workspaces.to_multiset().len() == m.workspaces.to_multiset().len());
        lemma_layout_change_keeps_focus(m1, layout);
    }
}


/// Removing an id from a list in which no id occurs twice leaves no id twice.
proof fn lemma_set_remove_keeps_unique(s: Seq<Seq<char>>, x: Seq<char>)
    requires
        s.no_duplicates(),
    ensures
        set_remove(s, x).no_duplicates(),
        forall|y: Seq<char>| #[trigger] set_remove(s, x).contains(y) == (s.contains(y) && y != x),
{
    text::lemma_first_index_of(s, x);
    if let Some(c) = text::first_index_of(s, x) {
        let t = s.remove(c);
        assert forall|i: int, j: int| 0 <= i < t.len() && 0 <= j < t.len() && i != j implies t[i]
            != t[j] by {
            let i2 = if i < c { i } else { i + 1 };
            let j2 = if j < c { j } else { j + 1 };
            assert(t[i] == s[i2] && t[j] == s[j2]);
        }
        assert forall|y: Seq<char>| #[trigger] t.contains(y) == (s.contains(y) && y != x) by {
            if t.contains(y) {
                let j = choose|j: int| 0 <= j < t.len() && t[j] == y;
                let j2 = if j < c { j } else { j + 1 };
                assert(s[j2] == y);
            }
            if s.contains(y) && y != x {
                let j = choose|j: int| 0 <= j < s.len() && s[j] == y;
                if j < c {
                    assert(t[j] == y);
                } else {
                    assert(t[j - 1] == y);
                }
            }
        }
    } else {
        assert forall|y: Seq<char>| #[trigger] s.contains(y) implies y != x by {
            let j = choose|j: int| 0 <= j < s.len() && s[j] == y;
        }
    }
}

proof fn lemma_push_new_keeps_unique(s: Seq<Seq<char>>, x: Seq<char>)
    requires
        s.no_duplicates(),
        !s.contains(x),
    ensures
        s.push(x).no_duplicates(),
{
    let t = s.push(x);
    assert forall|i: int, j: int| 0 <= i < t.len() && 0 <= j < t.len() && i != j implies t[i]
        != t[j] by {
        if i == s.len() {
            assert(t[j] == s[j]);
        } else if j == s.len() {
            assert(t[i] == s[i]);
        }
    }
}

proof fn lemma_toggle_keeps_collapsed_unique(m: AppModel, id: Seq<char>)
    ensures
        m.collapsed.no_duplicates() ==> spec_toggle_folder(m, id).1.collapsed.no_duplicates(),
{
    if m.collapsed.no_duplicates() {
        lemma_set_remove_keeps_unique(m.collapsed, id);
        if !m.collapsed.contains(id) {
            lemma_push_new_keeps_unique(m.collapsed, id);
        }
    }
}

/// No folder id is listed as collapsed twice, whatever the state operations do: every
/// operation keeps that, and the others leave the collapsed list as it is.
pub proof fn lemma_collapsed_stays_unique(
    m: AppModel,
    id: Seq<char>,
    name: Seq<char>,
    w: Seq<char>,
    ids: Seq<Seq<char>>,
    folder: Option<Seq<char>>,
    before: Option<Seq<char>>,
    insert_index: int,
    next: u64,
)
    requires
        app_wf(m),
    ensures
        app_wf(spec_toggle_folder(m, id).1),
        app_wf(spec_delete_folder_state(m, id).1),
        spec_normalize_state(m).collapsed == m.collapsed,
        spec_create_folder(m, next, name).1.collapsed == m.collapsed,
        spec_rename_folder_state(m, id, name).1.collapsed == m.collapsed,
        spec_move_folder_state(m, id, insert_index).1.collapsed == m.collapsed,
        spec_place_workspace_state(m, w, folder, insert_index).1.collapsed == m.collapsed,
        spec_place_workspaces_at_root_state(m, ids, before).1.collapsed == m.collapsed,
{
    lemma_toggle_keeps_collapsed_unique(m, id);
    lemma_set_remove_keeps_unique(m.collapsed, id);
}

/// Toggling a folder twice leaves the same folders collapsed as before, and the rest of
/// the state as it was.
pub proof fn lemma_toggle_twice_restores_collapsed(m: AppModel, id: Seq<char>)
    requires
        app_wf(m),
    ensures
        ({
            let (first, m1) = spec_toggle_folder(m, id);
            let (second, m2) = spec_toggle_folder(m1, id);
            &&& first == second
            &&& m2 == (AppModel { collapsed: m2.collapsed, ..m })
            &&& forall|x: Seq<char>| #[trigger] m2.collapsed.contains(x) == m.collapsed.contains(x)
        }),
{
    let (first, m1) = spec_toggle_folder(m, id);
    let m2 = spec_toggle_folder(m1, id).1;
    lemma_set_remove_keeps_unique(m.collapsed, id);
    if first {
        if m.collapsed.contains(id) {
            let s1 = set_remove(m.collapsed, id);
            assert(!s1.contains(id));
            assert(m2.collapsed == s1.push(id));
            assert forall|x: Seq<char>| #[trigger] m2.collapsed.contains(x) == m.collapsed.contains(x) by {
                if s1.push(id).contains(x) && x != id {
                    let j = choose|j: int| 0 <= j < s1.push(id).len() && s1.push(id)[j] == x;
                    assert(s1[j] == x);
                }
                if s1.contains(x) {
                    let j = choose|j: int| 0 <= j < s1.len() && s1[j] == x;
                    assert(s1.push(id)[j] == x);
                }
                assert(s1.push(id)[s1.len() as int] == id);
            }
        } else {
            let s1 = m.collapsed.push(id);
            assert(s1.contains(id)) by {
                assert(s1[m.collapsed.len() as int] == id);
            }
            text::lemma_first_index_of(m.collapsed, id);
            text::lemma_first_index_of_at(s1, id, m.collapsed.len() as int);
            assert(s1.remove(m.collapsed.len() as int) =~= m.collapsed);
        }
    }
}


/// The folder a state creates, with ids drawn from the process's counter, gets an id that
/// no folder of the (normalized) layout has, unless that layout already uses the largest folder number, `f18446744073709551615`.
pub proof fn lemma_created_folder_id_is_fresh(m: AppModel, next: u64, name: Seq<char>)
    requires
        workspace_layout::max_folder_number(spec_normalize_state(m).layout) matches Some(k) ==> k
            < u64::MAX,
    ensures
        spec_create_folder(m, next, name).0 matches Ok(id) ==> workspace_layout::folder_index(
            spec_normalize_state(m).layout,
            id,
        ) is None,
{
    let layout = workspace_layout::spec_normalize(m.layout, ids_of(m.workspaces));
    assert(spec_normalize_state(m).layout == layout);
    crate::layout_laws::lemma_reserved_id_is_fresh(layout, next);
}


proof fn lemma_reorder_follows(ws: Seq<Workspace>, ordered: Seq<Seq<char>>, n: nat)
    requires
        n <= ordered.len(),
        ordered.no_duplicates(),
        forall|x: Seq<char>| #[trigger] ordered.contains(x) ==> ids_of(ws).contains(x),
    ensures
        ids_of(reorder(ws, ordered, n).0) == ordered.take(n as int),
    decreases n,
{
    broadcast use vstd::multiset::group_multiset_axioms;
    broadcast use vstd::seq_lib::group_to_multiset_ensures;

    if n == 0 {
        assert(ids_of(Seq::<Workspace>::empty()) =~= ordered.take(0));
    } else {
        lemma_reorder_follows(ws, ordered, (n - 1) as nat);
        lemma_reorder(ws, ordered, (n - 1) as nat);
        let (taken, rest) = reorder(ws, ordered, (n - 1) as nat);
        let x = ordered[n - 1];
        assert(ordered.contains(x));
        lemma_ids_of_contains_witness(ws, x);
        let k = choose|k: int| 0 <= k < ws.len() && (#[trigger] ws[k]).id@ == x;
        let w0 = ws[k];
        assert(ws.to_multiset().count(w0) > 0);
        assert(!taken.contains(w0)) by {
            if taken.contains(w0) {
                let t = choose|t: int| 0 <= t < taken.len() && taken[t] == w0;
                assert(taken[t].id@ == x);
                assert(ids_of(taken)[t] == x);
                assert(ids_of(taken).len() == n - 1);
                assert(ordered.take(n - 1)[t] == x);
                assert(ordered[t] == ordered[n - 1]);
            }
        }
        assert(taken.to_multiset().count(w0) == 0);
        assert(rest.to_multiset().count(w0) > 0);
        assert(rest.contains(w0));
        let r0 = choose|r: int| 0 <= r < rest.len() && rest[r] == w0;
        lemma_index_of_id(rest, x);
        assert(rest[r0].id@ == x);
        let j = index_of_id(rest, x).unwrap();
        assert(rest[j].id@ == x);
        assert(ids_of(taken.push(rest[j])) =~= ids_of(taken).push(x));
        assert(ordered.take(n - 1).push(x) =~= ordered.take(n as int));
    }
}

/// Putting the workspaces in the layout's order lists them exactly in that order, when
/// no two workspaces share an id and the order lists each of their ids once and nothing
/// else (as it does after normalizing); the workspaces themselves stay the same.
pub proof fn lemma_apply_order_follows_layout(
    ws: Seq<Workspace>,
    active: Option<usize>,
    selected: usize,
    ordered: Seq<Seq<char>>,
)
    requires
        ids_of(ws).no_duplicates(),
        ordered.no_duplicates(),
        forall|x: Seq<char>| #[trigger] ordered.contains(x) == ids_of(ws).contains(x),
    ensures
        ids_of(spec_apply_order(ws, active, selected, ordered).0) == ordered,
        spec_apply_order(ws, active, selected, ordered).0.to_multiset() == ws.to_multiset(),
{
    if ids_of(ws) != ordered {
        lemma_reorder_follows(ws, ordered, ordered.len());
        assert(ordered.take(ordered.len() as int) =~= ordered);
        lemma_reorder(ws, ordered, ordered.len());
        broadcast use vstd::multiset::group_multiset_axioms;
        broadcast use vstd::seq_lib::group_to_multiset_ensures;
        let (taken, rest) = reorder(ws, ordered, ordered.len());
        // Every workspace was taken: the ids taken cover all ids of `ws`.
        assert(ws.len() == ids_of(ws).len());
        ids_of(ws).unique_seq_to_set();
        ordered.unique_seq_to_set();
        assert(ids_of(ws).to_set() =~= ordered.to_set());
        assert(taken.len() == ordered.len());
        assert(taken.to_multiset().len() + rest.to_multiset().len() == ws.to_multiset().len());
        assert(rest.len() == 0);
        assert(rest.to_multiset() =~= Multiset::<Workspace>::empty());
        assert(taken.to_multiset() =~= ws.to_multiset());
    }
}

} // verus!
