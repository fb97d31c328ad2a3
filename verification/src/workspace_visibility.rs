//! Hidden workspaces in the client shell: which workspaces each endpoint hides, hiding
//! and restoring them, and where focus goes when the focused workspace is hidden.
use vstd::prelude::*;
use vstd::string::*;

use crate::seq_search;
use crate::text;
use crate::workspace_layout::string_views;

verus! {

/// The workspace ids one endpoint hides.
pub struct HiddenEntry {
    /// The endpoint's storage key.
    pub endpoint: String,
    /// No id occurs twice.
    pub workspace_ids: Vec<String>,
}

/// Hidden workspace ids per endpoint storage key; no key occurs twice.
pub struct HiddenWorkspaces {
    entries: Vec<HiddenEntry>,
}

/// An endpoint's hidden ids as a value: its key and the ids.
pub type HiddenModel = Seq<(Seq<char>, Seq<Seq<char>>)>;

impl View for HiddenWorkspaces {
    type V = HiddenModel;

    closed spec fn view(&self) -> HiddenModel {
        entries_view(self.entries@)
    }
}

spec fn entries_view(v: Seq<HiddenEntry>) -> HiddenModel {
    v.map_values(|e: HiddenEntry| (e.endpoint@, string_views(e.workspace_ids@)))
}

pub open spec fn key_is(key: Seq<char>) -> spec_fn((Seq<char>, Seq<Seq<char>>)) -> bool {
    |e: (Seq<char>, Seq<Seq<char>>)| e.0 == key
}

/// The position of the entry for endpoint `key`.
pub open spec fn entry_index(h: HiddenModel, key: Seq<char>) -> Option<int> {
    seq_search::first_where(h, key_is(key))
}

/// The ids endpoint `key` hides (none when it has no entry).
pub open spec fn hidden_ids(h: HiddenModel, key: Seq<char>) -> Seq<Seq<char>> {
    match entry_index(h, key) {
        Some(i) => h[i].1,
        None => Seq::empty(),
    }
}

pub open spec fn is_hidden(h: HiddenModel, key: Seq<char>, id: Seq<char>) -> bool {
    hidden_ids(h, key).contains(id)
}

/// No key occurs twice, and no id occurs twice for one key.
pub open spec fn hidden_wf(h: HiddenModel) -> bool {
    &&& forall|a: int, b: int| 0 <= a < b < h.len() ==> h[a].0 != h[b].0
    &&& forall|a: int| 0 <= a < h.len() ==> (#[trigger] h[a]).1.no_duplicates()
}

/// Adding `id` to the ids endpoint `key` hides: whether it was new, and the result.
pub open spec fn spec_insert_hidden(h: HiddenModel, key: Seq<char>, id: Seq<char>) -> (bool, HiddenModel) {
    match entry_index(h, key) {
        Some(i) => if h[i].1.contains(id) {
            (false, h)
        } else {
            (true, h.update(i, (h[i].0, h[i].1.push(id))))
        },
        None => (true, h.push((key, seq![id]))),
    }
}

/// Taking `id` out of the ids endpoint `key` hides: whether it was there, and the result.
pub open spec fn spec_remove_hidden(h: HiddenModel, key: Seq<char>, id: Seq<char>) -> (bool, HiddenModel) {
    match entry_index(h, key) {
        Some(i) => match text::first_index_of(h[i].1, id) {
            Some(c) => (true, h.update(i, (h[i].0, h[i].1.remove(c)))),
            None => (false, h),
        },
        None => (false, h),
    }
}

proof fn lemma_push_keeps_no_duplicates(s: Seq<Seq<char>>, x: Seq<char>)
    requires
        s.no_duplicates(),
        !s.contains(x),
    ensures
        s.push(x).no_duplicates(),
{
    let t = s.push(x);
    assert forall|i: int, j: int| 0 <= i < t.len() && 0 <= j < t.len() && i != j implies t[i] != t[j] by {
        if i == s.len() {
            assert(s[j] == t[j]);
        } else if j == s.len() {
            assert(s[i] == t[i]);
        }
    }
}

proof fn lemma_remove_keeps_no_duplicates(s: Seq<Seq<char>>, c: int)
    requires
        s.no_duplicates(),
        0 <= c < s.len(),
    ensures
        s.remove(c).no_duplicates(),
{
    let t = s.remove(c);
    assert forall|i: int, j: int| 0 <= i < t.len() && 0 <= j < t.len() && i != j implies t[i] != t[j] by {
        let i2 = if i < c { i } else { i + 1 };
        let j2 = if j < c { j } else { j + 1 };
        assert(t[i] == s[i2]);
        assert(t[j] == s[j2]);
    }
}

impl HiddenWorkspaces {
    #[verifier::type_invariant]
    closed spec fn well_formed(self) -> bool {
        hidden_wf(self@)
    }

    /// Every value keeps the invariant: no key twice, no id twice per key.
    pub fn well_formed_holds(&self)
        ensures
            hidden_wf(self@),
    {
        proof {
            use_type_invariant(self);
        }
    }

    pub fn new() -> (h: Self)
        ensures
            h@ == Seq::<(Seq<char>, Seq<Seq<char>>)>::empty(),
    {
        let entries: Vec<HiddenEntry> = Vec::new();
        assert(entries@.map_values(|e: HiddenEntry| (e.endpoint@, string_views(e.workspace_ids@)))
            =~= Seq::<(Seq<char>, Seq<Seq<char>>)>::empty());
        HiddenWorkspaces { entries }
    }

    fn find_entry(&self, key: &str) -> (r: Option<usize>)
        ensures
            match r {
                Some(i) => entry_index(self@, key@) == Some(i as int) && i < self.entries.len(),
                None => entry_index(self@, key@) is None,
            },
    {
        let ghost p = key_is(key@);
        let ghost v = self@;
        let mut i: usize = 0;
        while i < self.entries.len()
            invariant
                p == key_is(key@),
                v == self@,
                i <= self.entries.len(),
                seq_search::first_where(v.take(i as int), p) is None,
            decreases self.entries.len() - i,
        {
            assert(v.take(i + 1).drop_last() =~= v.take(i as int));
            assert(v.take(i + 1).last() == v[i as int]);
            if text::str_eq(self.entries[i].endpoint.as_str(), key) {
                proof {
                    seq_search::lemma_first_where_prefix(v, p, i + 1);
                }
                return Some(i);
            }
            i = i + 1;
        }
        assert(v.take(i as int) =~= v);
        None
    }

    /// Whether endpoint `key` hides workspace `id`.
    pub fn is_hidden(&self, key: &str, id: &str) -> (r: bool)
        ensures
            r == is_hidden(self@, key@, id@),
    {
        match self.find_entry(key) {
            Some(i) => {
                assert(self@[i as int].1 == string_views(self.entries@[i as int].workspace_ids@));
                contains_id(&self.entries[i].workspace_ids, id)
            },
            None => false,
        }
    }

    /// The ids endpoint `key` hides (none when it has no entry).
    pub fn get_hidden_workspace_ids(&self, key: &str) -> (r: Vec<String>)
        ensures
            string_views(r@) == hidden_ids(self@, key@),
    {
        match self.find_entry(key) {
            Some(i) => crate::workspace_layout::clone_strings(&self.entries[i].workspace_ids),
            None => {
                let r: Vec<String> = Vec::new();
                assert(string_views(r@) =~= Seq::<Seq<char>>::empty());
                r
            },
        }
    }

    /// Hides workspace `id` for endpoint `key`; returns whether it was not hidden yet.
    pub fn insert_hidden(&mut self, key: String, id: String) -> (r: bool)
        ensures
            (r, final(self)@) == spec_insert_hidden(old(self)@, key@, id@),
    {
        proof {
            use_type_invariant(&*self);
        }
        let ghost before = self@;
        proof {
            seq_search::lemma_first_where(before, key_is(key@));
        }
        match self.find_entry(key.as_str()) {
            Some(i) => {
                assert(before[i as int].1 == string_views(self.entries@[i as int].workspace_ids@));
                if contains_id(&self.entries[i].workspace_ids, id.as_str()) {
                    return false;
                }
                let mut entries: Vec<HiddenEntry> = Vec::new();
                std::mem::swap(&mut entries, &mut self.entries);
                let mut entry = entries.remove(i);
                let ghost old_ids = string_views(entry.workspace_ids@);
                entry.workspace_ids.push(id);
                assert(string_views(entry.workspace_ids@) =~= old_ids.push(id@));
                entries.insert(i, entry);
                let ghost after = entries_view(entries@);
                assert(after =~= before.update(i as int, (before[i as int].0, before[i as int].1.push(id@))));
                proof {
                    lemma_push_keeps_no_duplicates(before[i as int].1, id@);
                    assert forall|a: int| 0 <= a < after.len() implies (#[trigger] after[a]).1.no_duplicates() by {
                        if a != i {
                            assert(after[a] == before[a]);
                        }
                    }
                }
                self.entries = entries;
                true
            },
            None => {
                let mut ids: Vec<String> = Vec::new();
                let ghost id_view = id@;
                ids.push(id);
                assert(string_views(ids@) =~= seq![id_view]);
                let mut entries: Vec<HiddenEntry> = Vec::new();
                std::mem::swap(&mut entries, &mut self.entries);
                let ghost key_view = key@;
                entries.push(HiddenEntry { endpoint: key, workspace_ids: ids });
                let ghost after = entries_view(entries@);
                assert(after =~= before.push((key_view, seq![id_view])));
                proof {
                    assert forall|a: int, b: int| 0 <= a < b < after.len() implies after[a].0 != after[b].0 by {
                        if b == before.len() {
                            assert(!key_is(key_view)(before[a]));
                        }
                    }
                    assert forall|a: int| 0 <= a < after.len() implies (#[trigger] after[a]).1.no_duplicates() by {
                        if a < before.len() {
                            assert(after[a] == before[a]);
                        }
                    }
                }
                self.entries = entries;
                true
            },
        }
    }

    /// Shows workspace `id` of endpoint `key` again; returns whether it was hidden.
    pub fn remove_hidden(&mut self, key: &str, id: &str) -> (r: bool)
        ensures
            (r, final(self)@) == spec_remove_hidden(old(self)@, key@, id@),
    {
        proof {
            use_type_invariant(&*self);
        }
        let ghost before = self@;
        proof {
            seq_search::lemma_first_where(before, key_is(key@));
        }
        match self.find_entry(key) {
            Some(i) => {
                assert(before[i as int].1 == string_views(self.entries@[i as int].workspace_ids@));
                let c = match crate::workspace_layout::position_of_string(&self.entries[i].workspace_ids, id) {
                    Some(c) => c,
                    None => return false,
                };
                proof {
                    text::lemma_first_index_of(before[i as int].1, id@);
                }
                let mut entries: Vec<HiddenEntry> = Vec::new();
                std::mem::swap(&mut entries, &mut self.entries);
                let mut entry = entries.remove(i);
                let ghost old_ids = string_views(entry.workspace_ids@);
                entry.workspace_ids.remove(c);
                assert(string_views(entry.workspace_ids@) =~= old_ids.remove(c as int));
                entries.insert(i, entry);
                let ghost after = entries_view(entries@);
                assert(after =~= before.update(i as int, (before[i as int].0, before[i as int].1.remove(c as int))));
                proof {
                    lemma_remove_keeps_no_duplicates(before[i as int].1, c as int);
                    assert forall|a: int| 0 <= a < after.len() implies (#[trigger] after[a]).1.no_duplicates() by {
                        if a != i {
                            assert(after[a] == before[a]);
                        }
                    }
                }
                self.entries = entries;
                true
            },
            None => false,
        }
    }
}

/// Whether `id` is in a list of strings.
fn contains_id(list: &Vec<String>, id: &str) -> (r: bool)
    ensures
        r == string_views(list@).contains(id@),
{
    proof {
        text::lemma_first_index_of(string_views(list@), id@);
    }
    match crate::workspace_layout::position_of_string(list, id) {
        Some(_) => true,
        None => false,
    }
}


/// A workspace as the shell sees it in an endpoint's snapshot.
pub struct ShellWorkspace {
    pub workspace_id: String,
    pub label: String,
}

/// What an endpoint last reported: its focused workspace and its workspaces, in order.
pub struct ShellSnapshot {
    pub focused_workspace_id: Option<String>,
    pub workspaces: Vec<ShellWorkspace>,
}

/// An endpoint the shell knows of, keyed by its storage key.
pub struct ShellEndpoint {
    pub endpoint_id: String,
    pub label: String,
    pub online: bool,
    pub snapshot: Option<ShellSnapshot>,
}

/// A snapshot as a value: the focused id and the (id, label) pairs of its workspaces.
pub struct SnapshotModel {
    pub focused: Option<Seq<char>>,
    pub workspaces: Seq<(Seq<char>, Seq<char>)>,
}

/// An endpoint as a value.
pub struct EndpointModel {
    pub key: Seq<char>,
    pub label: Seq<char>,
    pub online: bool,
    pub snapshot: Option<SnapshotModel>,
}

impl View for ShellWorkspace {
    type V = (Seq<char>, Seq<char>);

    open spec fn view(&self) -> (Seq<char>, Seq<char>) {
        (self.workspace_id@, self.label@)
    }
}

pub open spec fn opt_string_view(o: Option<String>) -> Option<Seq<char>> {
    match o {
        Some(s) => Some(s@),
        None => None,
    }
}

impl View for ShellSnapshot {
    type V = SnapshotModel;

    open spec fn view(&self) -> SnapshotModel {
        SnapshotModel {
            focused: opt_string_view(self.focused_workspace_id),
            workspaces: self.workspaces@.map_values(|w: ShellWorkspace| w@),
        }
    }
}

pub open spec fn opt_snapshot_view(o: Option<ShellSnapshot>) -> Option<SnapshotModel> {
    match o {
        Some(s) => Some(s@),
        None => None,
    }
}

impl View for ShellEndpoint {
    type V = EndpointModel;

    open spec fn view(&self) -> EndpointModel {
        EndpointModel {
            key: self.endpoint_id@,
            label: self.label@,
            online: self.online,
            snapshot: opt_snapshot_view(self.snapshot),
        }
    }
}

pub open spec fn endpoint_views(s: Seq<ShellEndpoint>) -> Seq<EndpointModel> {
    s.map_values(|e: ShellEndpoint| e@)
}

/// The ids of a snapshot's workspaces, in order.
pub open spec fn snapshot_ids(s: SnapshotModel) -> Seq<Seq<char>> {
    s.workspaces.map_values(|w: (Seq<char>, Seq<char>)| w.0)
}

/// Whether workspace `id` of endpoint `key` can take focus: it is not hidden and it is not
/// the one workspace `excluded` names.
pub open spec fn focusable(
    h: HiddenModel,
    key: Seq<char>,
    id: Seq<char>,
    excluded: Option<(Seq<char>, Seq<char>)>,
) -> bool {
    !is_hidden(h, key, id) && excluded != Some((key, id))
}

pub open spec fn focusable_in(
    h: HiddenModel,
    key: Seq<char>,
    excluded: Option<(Seq<char>, Seq<char>)>,
) -> spec_fn((Seq<char>, Seq<char>)) -> bool {
    |w: (Seq<char>, Seq<char>)| focusable(h, key, w.0, excluded)
}

/// The position of the first workspace of endpoint `e` that can take focus.
pub open spec fn first_focusable(
    h: HiddenModel,
    e: EndpointModel,
    excluded: Option<(Seq<char>, Seq<char>)>,
) -> Option<int> {
    match e.snapshot {
        Some(s) => seq_search::first_where(s.workspaces, focusable_in(h, e.key, excluded)),
        None => None,
    }
}

pub open spec fn offers_focus(
    h: HiddenModel,
    excluded: Option<(Seq<char>, Seq<char>)>,
) -> spec_fn(EndpointModel) -> bool {
    |e: EndpointModel| e.online && first_focusable(h, e, excluded) is Some
}

/// Where focus goes: the first workspace that can take focus on the first online endpoint
/// that has one, as (endpoint key, workspace id).
pub open spec fn focus_target(
    h: HiddenModel,
    endpoints: Seq<EndpointModel>,
    excluded: Option<(Seq<char>, Seq<char>)>,
) -> Option<(Seq<char>, Seq<char>)> {
    match seq_search::first_where(endpoints, offers_focus(h, excluded)) {
        Some(i) => Some(
            (
                endpoints[i].key,
                endpoints[i].snapshot.unwrap().workspaces[first_focusable(
                    h,
                    endpoints[i],
                    excluded,
                ).unwrap()].0,
            ),
        ),
        None => None,
    }
}

pub open spec fn opt_pair_view(o: Option<(String, String)>) -> Option<(Seq<char>, Seq<char>)> {
    match o {
        Some((a, b)) => Some((a@, b@)),
        None => None,
    }
}

/// The first workspace of `snapshot` that can take focus.
fn first_focusable_workspace(
    hidden: &HiddenWorkspaces,
    key: &str,
    snapshot: &ShellSnapshot,
    excluded: Option<(&str, &str)>,
) -> (r: Option<usize>)
    ensures
        ({
            let ex = match excluded {
                Some((a, b)) => Some((a@, b@)),
                None => None,
            };
            let p = focusable_in(hidden@, key@, ex);
            &&& r matches Some(j) ==> seq_search::first_where(snapshot@.workspaces, p) == Some(
                j as int,
            ) && j < snapshot.workspaces.len()
            &&& r is None ==> seq_search::first_where(snapshot@.workspaces, p) is None
        }),
{
    let ghost ex = match excluded {
        Some((a, b)) => Some((a@, b@)),
        None => None,
    };
    let ghost p = focusable_in(hidden@, key@, ex);
    let ghost ws = snapshot@.workspaces;
    let mut j: usize = 0;
    while j < snapshot.workspaces.len()
        invariant
            j <= snapshot.workspaces.len(),
            ws == snapshot@.workspaces,
            p == focusable_in(hidden@, key@, ex),
            ex == (match excluded {
                Some((a, b)) => Some((a@, b@)),
                None => None,
            }),
            seq_search::first_where(ws.take(j as int), p) is None,
        decreases snapshot.workspaces.len() - j,
    {
        assert(ws.take(j + 1).drop_last() =~= ws.take(j as int));
        assert(ws.take(j + 1).last() == ws[j as int]);
        let w = &snapshot.workspaces[j];
        let hidden_here = hidden.is_hidden(key, w.workspace_id.as_str());
        let is_excluded = match excluded {
            Some((k, id)) => text::str_eq(k, key) && text::str_eq(id, w.workspace_id.as_str()),
            None => false,
        };
        if !hidden_here && !is_excluded {
            proof {
                seq_search::lemma_first_where_prefix(ws, p, j + 1);
            }
            return Some(j);
        }
        j = j + 1;
    }
    assert(ws.take(j as int) =~= ws);
    None
}

/// Where focus goes (see `focus_target`); `excluded` names a workspace that may not take it.
fn find_focus_target(
    hidden: &HiddenWorkspaces,
    endpoints: &Vec<ShellEndpoint>,
    excluded: Option<(&str, &str)>,
) -> (r: Option<(String, String)>)
    ensures
        opt_pair_view(r) == focus_target(
            hidden@,
            endpoint_views(endpoints@),
            match excluded {
                Some((a, b)) => Some((a@, b@)),
                None => None,
            },
        ),
{
    let ghost ex = match excluded {
        Some((a, b)) => Some((a@, b@)),
        None => None,
    };
    let ghost p = offers_focus(hidden@, ex);
    let ghost eps = endpoint_views(endpoints@);
    let mut i: usize = 0;
    while i < endpoints.len()
        invariant
            i <= endpoints.len(),
            eps == endpoint_views(endpoints@),
            p == offers_focus(hidden@, ex),
            ex == (match excluded {
                Some((a, b)) => Some((a@, b@)),
                None => None,
            }),
            seq_search::first_where(eps.take(i as int), p) is None,
        decreases endpoints.len() - i,
    {
        assert(eps.take(i + 1).drop_last() =~= eps.take(i as int));
        assert(eps.take(i + 1).last() == eps[i as int]);
        let endpoint = &endpoints[i];
        assert(eps[i as int] == endpoint@);
        if endpoint.online {
            if let Some(snapshot) = &endpoint.snapshot {
                if let Some(j) = first_focusable_workspace(
                    hidden,
                    endpoint.endpoint_id.as_str(),
                    snapshot,
                    excluded,
                ) {
                    proof {
                        seq_search::lemma_first_where_prefix(eps, p, i + 1);
                    }
                    let target = (
                        endpoint.endpoint_id.clone(),
                        snapshot.workspaces[j].workspace_id.clone(),
                    );
                    return Some(target);
                }
            }
        }
        i = i + 1;
    }
    assert(eps.take(i as int) =~= eps);
    None
}


/// The parts of the client shell's state that decide which workspaces are hidden and where
/// focus goes. Endpoints are named by their storage keys.
pub struct VisibilityState {
    pub hidden_workspaces: HiddenWorkspaces,
    pub active_endpoint_id: String,
    pub snapshot: Option<ShellSnapshot>,
    pub endpoints: Vec<ShellEndpoint>,
    /// A hide that waits until focus has left the workspace: (endpoint key, workspace id).
    pub pending_workspace_hide: Option<(String, String)>,
    pub hidden_focus_redirect_attempted: bool,
    pub navigate_workspace_id: Option<String>,
    pub reveal_focused_workspace: bool,
    pub hidden_workspaces_expanded: bool,
}

/// The shell state as a value.
pub struct VisibilityModel {
    pub hidden: HiddenModel,
    pub active: Seq<char>,
    pub snapshot: Option<SnapshotModel>,
    pub endpoints: Seq<EndpointModel>,
    pub pending: Option<(Seq<char>, Seq<char>)>,
    pub redirect_attempted: bool,
    pub navigate: Option<Seq<char>>,
    pub reveal_focused: bool,
    pub expanded: bool,
}

impl View for VisibilityState {
    type V = VisibilityModel;

    open spec fn view(&self) -> VisibilityModel {
        VisibilityModel {
            hidden: self.hidden_workspaces@,
            active: self.active_endpoint_id@,
            snapshot: opt_snapshot_view(self.snapshot),
            endpoints: endpoint_views(self.endpoints@),
            pending: opt_pair_view(self.pending_workspace_hide),
            redirect_attempted: self.hidden_focus_redirect_attempted,
            navigate: opt_string_view(self.navigate_workspace_id),
            reveal_focused: self.reveal_focused_workspace,
            expanded: self.hidden_workspaces_expanded,
        }
    }
}

/// Whether the active endpoint's focused workspace is hidden.
pub open spec fn focused_hidden(m: VisibilityModel) -> bool {
    match m.snapshot {
        Some(s) => match s.focused {
            Some(f) => is_hidden(m.hidden, m.active, f),
            None => false,
        },
        None => false,
    }
}

/// What hiding a workspace asks of the shell.
pub enum HideOutcome {
    /// Nothing: there is no snapshot, or it has no such workspace.
    Ignored,
    /// No other workspace can take focus: create a default workspace; the hide waits.
    CreateDefault,
    /// The workspace has focus: move focus to (endpoint key, workspace id); the hide waits.
    Focus(Seq<char>, Seq<char>),
    /// The workspace is hidden now; the preferences are to be saved.
    Hidden,
}

/// Hiding workspace `id` of the active endpoint.
pub open spec fn spec_hide_workspace(m: VisibilityModel, id: Seq<char>) -> (HideOutcome, VisibilityModel) {
    match m.snapshot {
        None => (HideOutcome::Ignored, m),
        Some(s) => if !snapshot_ids(s).contains(id) {
            (HideOutcome::Ignored, m)
        } else {
            let cleared = VisibilityModel { navigate: None, ..m };
            match focus_target(m.hidden, m.endpoints, Some((m.active, id))) {
                None => (
                    HideOutcome::CreateDefault,
                    VisibilityModel { pending: Some((m.active, id)), ..cleared },
                ),
                Some(target) => if s.focused == Some(id) {
                    (
                        HideOutcome::Focus(target.0, target.1),
                        VisibilityModel { pending: Some((m.active, id)), ..cleared },
                    )
                } else {
                    (
                        HideOutcome::Hidden,
                        VisibilityModel {
                            hidden: spec_insert_hidden(m.hidden, m.active, id).1,
                            ..cleared
                        },
                    )
                },
            }
        },
    }
}

/// Moving focus away from a hidden focused workspace, once: the target, if any.
pub open spec fn spec_redirect(m: VisibilityModel) -> (Option<(Seq<char>, Seq<char>)>, VisibilityModel) {
    if m.redirect_attempted || !focused_hidden(m) {
        (None, m)
    } else {
        match focus_target(m.hidden, m.endpoints, None) {
            Some(t) => (Some(t), VisibilityModel { redirect_attempted: true, ..m }),
            None => (None, m),
        }
    }
}

/// Showing workspace `id` of endpoint `key` again: whether it was hidden.
pub open spec fn spec_restore(m: VisibilityModel, key: Seq<char>, id: Seq<char>) -> (bool, VisibilityModel) {
    let (removed, h) = spec_remove_hidden(m.hidden, key, id);
    if removed {
        (true, VisibilityModel { hidden: h, reveal_focused: true, ..m })
    } else {
        (false, m)
    }
}

/// A step of the hide protocol, for the shell to carry out.
#[derive(Debug, PartialEq, Eq)]
pub enum HideStep {
    Ignored,
    /// Ask the active endpoint for a default workspace; call
    /// `cancel_pending_workspace_hide` if the request cannot be sent.
    CreateDefault,
    /// Focus this workspace; call `cancel_pending_workspace_hide` if focusing fails.
    Focus { endpoint_id: String, workspace_id: String },
    /// Save the preferences.
    Hidden,
}

impl View for HideStep {
    type V = HideOutcome;

    open spec fn view(&self) -> HideOutcome {
        match self {
            HideStep::Ignored => HideOutcome::Ignored,
            HideStep::CreateDefault => HideOutcome::CreateDefault,
            HideStep::Focus { endpoint_id, workspace_id } => HideOutcome::Focus(
                endpoint_id@,
                workspace_id@,
            ),
            HideStep::Hidden => HideOutcome::Hidden,
        }
    }
}

/// Whether `id` is one of the snapshot's workspaces.
fn snapshot_has(snapshot: &ShellSnapshot, id: &str) -> (r: bool)
    ensures
        r == snapshot_ids(snapshot@).contains(id@),
{
    let ghost ids = snapshot_ids(snapshot@);
    let mut j: usize = 0;
    while j < snapshot.workspaces.len()
        invariant
            j <= snapshot.workspaces.len(),
            ids == snapshot_ids(snapshot@),
            forall|k: int| 0 <= k < j ==> ids[k] != id@,
        decreases snapshot.workspaces.len() - j,
    {
        if text::str_eq(snapshot.workspaces[j].workspace_id.as_str(), id) {
            assert(ids[j as int] == id@);
            return true;
        }
        j = j + 1;
    }
    proof {
        if ids.contains(id@) {
            let k = choose|k: int| 0 <= k < ids.len() && ids[k] == id@;
            assert(ids[k] != id@);
        }
    }
    false
}

impl VisibilityState {
    /// Whether the active endpoint's focused workspace is hidden.
    pub fn is_focused_workspace_hidden(&self) -> (r: bool)
        ensures
            r == focused_hidden(self@),
    {
        match &self.snapshot {
            Some(snapshot) => match &snapshot.focused_workspace_id {
                Some(focused) => self.hidden_workspaces.is_hidden(
                    self.active_endpoint_id.as_str(),
                    focused.as_str(),
                ),
                None => false,
            },
            None => false,
        }
    }

    /// When the focused workspace is hidden and no redirect was tried yet, picks the first
    /// visible workspace on an online endpoint for the shell to focus.
    pub fn redirect_hidden_workspace_focus(&mut self) -> (r: Option<(String, String)>)
        ensures
            (opt_pair_view(r), final(self)@) == spec_redirect(old(self)@),
    {
        if self.hidden_focus_redirect_attempted || !self.is_focused_workspace_hidden() {
            return None;
        }
        let target = find_focus_target(&self.hidden_workspaces, &self.endpoints, None);
        if target.is_some() {
            self.hidden_focus_redirect_attempted = true;
        }
        target
    }

    /// Hides workspace `workspace_id` of the active endpoint, or starts doing so: a focused
    /// workspace first hands focus to another one, and when there is no other a default
    /// workspace is created first; the hide then waits in `pending_workspace_hide`.
    pub fn hide_workspace(&mut self, workspace_id: String) -> (r: HideStep)
        ensures
            (r@, final(self)@) == spec_hide_workspace(old(self)@, workspace_id@),
    {
        let found = match &self.snapshot {
            Some(snapshot) => snapshot_has(snapshot, workspace_id.as_str()),
            None => false,
        };
        if !found {
            return HideStep::Ignored;
        }
        let focused = match &self.snapshot {
            Some(snapshot) => match &snapshot.focused_workspace_id {
                Some(f) => text::str_eq(f.as_str(), workspace_id.as_str()),
                None => false,
            },
            None => false,
        };
        let next = find_focus_target(
            &self.hidden_workspaces,
            &self.endpoints,
            Some((self.active_endpoint_id.as_str(), workspace_id.as_str())),
        );
        let step = match next {
            None => {
                self.pending_workspace_hide = Some((self.active_endpoint_id.clone(), workspace_id));
                HideStep::CreateDefault
            },
            Some((endpoint_id, next_workspace)) => {
                if focused {
                    self.pending_workspace_hide = Some(
                        (self.active_endpoint_id.clone(), workspace_id),
                    );
                    HideStep::Focus { endpoint_id, workspace_id: next_workspace }
                } else {
                    let key = self.active_endpoint_id.clone();
                    self.hidden_workspaces.insert_hidden(key, workspace_id);
                    HideStep::Hidden
                }
            },
        };
        self.navigate_workspace_id = None;
        step
    }

    /// Drops the waiting hide, when the shell could not carry out its step.
    pub fn cancel_pending_workspace_hide(&mut self)
        ensures
            final(self)@ == (VisibilityModel { pending: None, ..old(self)@ }),
    {
        self.pending_workspace_hide = None;
    }

    /// Shows workspace `workspace_id` of endpoint `endpoint` again; when it was hidden, the
    /// focused workspace is to be revealed and the preferences saved (returns true).
    pub fn restore_hidden_workspace(&mut self, endpoint: &str, workspace_id: &str) -> (r: bool)
        ensures
            (r, final(self)@) == spec_restore(old(self)@, endpoint@, workspace_id@),
    {
        if self.hidden_workspaces.remove_hidden(endpoint, workspace_id) {
            self.reveal_focused_workspace = true;
            true
        } else {
            false
        }
    }
}


pub open spec fn in_seq(existing: Seq<Seq<char>>) -> spec_fn(Seq<char>) -> bool {
    |id: Seq<char>| existing.contains(id)
}

/// Keeping, of the ids endpoint `key` hides, those in `existing`: whether any was dropped,
/// and the result.
pub open spec fn spec_retain_hidden(h: HiddenModel, key: Seq<char>, existing: Seq<Seq<char>>) -> (
    bool,
    HiddenModel,
) {
    match entry_index(h, key) {
        Some(i) => {
            let kept = h[i].1.filter(in_seq(existing));
            (kept.len() != h[i].1.len(), h.update(i, (h[i].0, kept)))
        },
        None => (false, h),
    }
}

pub proof fn lemma_filter_keeps_no_duplicates(s: Seq<Seq<char>>, p: spec_fn(Seq<char>) -> bool)
    requires
        s.no_duplicates(),
    ensures
        s.filter(p).no_duplicates(),
    decreases s.len(),
{
    reveal(Seq::filter);
    if s.len() > 0 {
        let t = s.drop_last();
        assert forall|i: int, j: int| 0 <= i < t.len() && 0 <= j < t.len() && i != j implies t[i] != t[j] by {
            assert(t[i] == s[i] && t[j] == s[j]);
        }
        lemma_filter_keeps_no_duplicates(t, p);
        if p(s.last()) {
            if t.filter(p).contains(s.last()) {
                let k = choose|k: int| 0 <= k < t.filter(p).len() && t.filter(p)[k] == s.last();
                t.lemma_filter_contains_rev(p, s.last());
                assert(t.contains(s.last()));
                let m = choose|m: int| 0 <= m < t.len() && t[m] == s.last();
                assert(s[m] == s[s.len() - 1]);
            }
            lemma_push_keeps_no_duplicates(t.filter(p), s.last());
        }
    }
}

impl HiddenWorkspaces {
    /// Drops, of the ids endpoint `key` hides, those not in `existing`; returns whether
    /// any was dropped.
    pub fn retain_hidden(&mut self, key: &str, existing: &Vec<String>) -> (r: bool)
        ensures
            (r, final(self)@) == spec_retain_hidden(old(self)@, key@, string_views(existing@)),
    {
        proof {
            use_type_invariant(&*self);
        }
        let ghost before = self@;
        let ghost ex = string_views(existing@);
        let ghost p = in_seq(ex);
        proof {
            seq_search::lemma_first_where(before, key_is(key@));
        }
        match self.find_entry(key) {
            Some(i) => {
                let ghost ids = before[i as int].1;
                assert(ids == string_views(self.entries@[i as int].workspace_ids@));
                let mut kept: Vec<String> = Vec::new();
                let n = self.entries[i].workspace_ids.len();
                let mut k: usize = 0;
                while k < n
                    invariant
                        k <= n,
                        n == self.entries@[i as int].workspace_ids.len(),
                        i < self.entries.len(),
                        ids == string_views(self.entries@[i as int].workspace_ids@),
                        ex == string_views(existing@),
                        p == in_seq(ex),
                        string_views(kept@) == ids.take(k as int).filter(p),
                    decreases n - k,
                {
                    let id = &self.entries[i].workspace_ids[k];
                    proof {
                        reveal(Seq::filter);
                        assert(ids.take(k + 1).drop_last() =~= ids.take(k as int));
                        assert(ids.take(k + 1).last() == ids[k as int]);
                        text::lemma_first_index_of(ex, id@);
                    }
                    if crate::workspace_layout::position_of_string(existing, id.as_str()).is_some() {
                        kept.push(id.clone());
                        assert(string_views(kept@) =~= ids.take(k + 1).filter(p));
                    } else {
                        assert(string_views(kept@) =~= ids.take(k + 1).filter(p));
                    }
                    k = k + 1;
                }
                assert(ids.take(n as int) =~= ids);
                let changed = kept.len() != n;
                let ghost kept_view = string_views(kept@);
                let mut entries: Vec<HiddenEntry> = Vec::new();
                std::mem::swap(&mut entries, &mut self.entries);
                let mut entry = entries.remove(i);
                entry.workspace_ids = kept;
                entries.insert(i, entry);
                let ghost after = entries_view(entries@);
                assert(after =~= before.update(i as int, (before[i as int].0, kept_view)));
                proof {
                    lemma_filter_keeps_no_duplicates(ids, p);
                    assert forall|a: int| 0 <= a < after.len() implies (#[trigger] after[a]).1.no_duplicates() by {
                        if a != i {
                            assert(after[a] == before[a]);
                        }
                    }
                }
                self.entries = entries;
                changed
            },
            None => false,
        }
    }
}

/// Settling what a snapshot change means for hidden workspaces: whether the preferences
/// changed, and the result.
pub open spec fn spec_reconcile(m: VisibilityModel, focus_changed: bool) -> (bool, VisibilityModel) {
    match m.snapshot {
        None => (false, m),
        Some(s) => {
            let settle = match m.pending {
                Some(pending) => pending.0 != m.active || s.focused != Some(pending.1),
                None => false,
            };
            let (c1, h1) = if settle {
                spec_insert_hidden(m.hidden, m.pending.unwrap().0, m.pending.unwrap().1)
            } else {
                (false, m.hidden)
            };
            let pending = if settle {
                None
            } else {
                m.pending
            };
            let (c2, h2) = if focus_changed && s.focused is Some {
                spec_remove_hidden(h1, m.active, s.focused.unwrap())
            } else {
                (false, h1)
            };
            let m2 = VisibilityModel { hidden: h2, pending, ..m };
            let m3 = if !focused_hidden(m2) {
                VisibilityModel { redirect_attempted: false, ..m2 }
            } else {
                m2
            };
            (c1 || c2, m3)
        },
    }
}

/// Dropping the ids endpoint `key` hides that `snapshot` no longer has.
pub open spec fn spec_prune(m: VisibilityModel, key: Seq<char>, snapshot: SnapshotModel) -> (bool, VisibilityModel) {
    let (changed, h) = spec_retain_hidden(m.hidden, key, snapshot_ids(snapshot));
    (changed, VisibilityModel { hidden: h, ..m })
}

impl VisibilityState {
    /// Settles a waiting hide once focus has left its workspace, and, when focus really
    /// changed, shows the newly focused workspace again (a newly attached client inherits
    /// the server's focus, which expresses no intent). Returns whether the preferences
    /// are to be saved.
    pub fn reconcile_workspace_visibility(&mut self, focus_changed: bool) -> (r: bool)
        ensures
            (r, final(self)@) == spec_reconcile(old(self)@, focus_changed),
    {
        let ghost m = self@;
        let (settle, focused) = match &self.snapshot {
            None => {
                return false;
            },
            Some(snapshot) => {
                let focused: Option<String> = match &snapshot.focused_workspace_id {
                    Some(f) => Some(f.clone()),
                    None => None,
                };
                let settle = match &self.pending_workspace_hide {
                    Some((endpoint, workspace)) => !text::str_eq(
                        endpoint.as_str(),
                        self.active_endpoint_id.as_str(),
                    ) || match &snapshot.focused_workspace_id {
                        Some(f) => !text::str_eq(f.as_str(), workspace.as_str()),
                        None => true,
                    },
                    None => false,
                };
                (settle, focused)
            },
        };
        let mut changed = false;
        if settle {
            let pending = self.pending_workspace_hide.take();
            if let Some((endpoint, workspace)) = pending {
                changed = self.hidden_workspaces.insert_hidden(endpoint, workspace);
            }
        }
        if focus_changed {
            if let Some(f) = &focused {
                let removed = self.hidden_workspaces.remove_hidden(
                    self.active_endpoint_id.as_str(),
                    f.as_str(),
                );
                changed = changed || removed;
            }
        }
        if !self.is_focused_workspace_hidden() {
            self.hidden_focus_redirect_attempted = false;
        }
        changed
    }

    /// Drops the hidden ids of endpoint `endpoint` that `snapshot` no longer has; returns
    /// whether the preferences are to be saved.
    pub fn prune_hidden_workspaces(&mut self, endpoint: &str, snapshot: &ShellSnapshot) -> (r: bool)
        ensures
            (r, final(self)@) == spec_prune(old(self)@, endpoint@, snapshot@),
    {
        let mut existing: Vec<String> = Vec::new();
        let mut j: usize = 0;
        while j < snapshot.workspaces.len()
            invariant
                j <= snapshot.workspaces.len(),
                string_views(existing@) == snapshot_ids(snapshot@).take(j as int),
            decreases snapshot.workspaces.len() - j,
        {
            let ghost before = existing@;
            let id = snapshot.workspaces[j].workspace_id.clone();
            existing.push(id);
            assert(existing@ == before.push(id));
            assert(snapshot@.workspaces[j as int] == snapshot.workspaces@[j as int]@);
            assert(snapshot_ids(snapshot@)[j as int] == id@);
            assert(string_views(existing@) =~= string_views(before).push(id@));
            assert(snapshot_ids(snapshot@).take(j + 1) =~= snapshot_ids(snapshot@).take(j as int).push(id@));
            j = j + 1;
        }
        assert(snapshot_ids(snapshot@).take(j as int) =~= snapshot_ids(snapshot@));
        self.hidden_workspaces.retain_hidden(endpoint, &existing)
    }
}


/// A cell rectangle on the screen.
#[derive(Clone, Copy, Debug, PartialEq, Eq)]
pub struct HitRect {
    pub x: u16,
    pub y: u16,
    pub width: u16,
    pub height: u16,
}

/// A row of the hidden-workspace tree on screen, and the workspace it stands for.
pub struct HiddenRowHit {
    pub rect: HitRect,
    pub endpoint_id: String,
    pub workspace_id: String,
}

/// Where the hidden-workspace tree was drawn: its header and its workspace rows.
pub struct HiddenHitMap {
    pub hidden_workspaces_toggle: HitRect,
    pub hidden_workspaces: Vec<HiddenRowHit>,
}

/// `a + b`, or the largest `u16` when that does not fit.
pub open spec fn saturating_edge(a: u16, b: u16) -> int {
    if a + b > u16::MAX {
        u16::MAX as int
    } else {
        a + b
    }
}

/// Whether cell `(px, py)` lies in `r` (right and bottom edges saturate at the largest `u16`).
pub open spec fn rect_contains(r: HitRect, px: u16, py: u16) -> bool {
    r.x <= px && px < saturating_edge(r.x, r.width) && r.y <= py && py < saturating_edge(
        r.y,
        r.height,
    )
}

pub fn contains(r: HitRect, point: (u16, u16)) -> (b: bool)
    ensures
        b == rect_contains(r, point.0, point.1),
{
    r.x <= point.0 && point.0 < r.x.saturating_add(r.width) && r.y <= point.1 && point.1
        < r.y.saturating_add(r.height)
}

pub open spec fn row_hit_at(px: u16, py: u16) -> spec_fn((HitRect, Seq<char>, Seq<char>)) -> bool {
    |h: (HitRect, Seq<char>, Seq<char>)| rect_contains(h.0, px, py)
}

pub open spec fn row_hits_view(rows: Seq<HiddenRowHit>) -> Seq<(HitRect, Seq<char>, Seq<char>)> {
    rows.map_values(|h: HiddenRowHit| (h.rect, h.endpoint_id@, h.workspace_id@))
}

/// What a click on the hidden-workspace tree does.
pub enum ClickOutcome {
    /// The click was elsewhere.
    Missed,
    /// The header was clicked: the tree folds or unfolds.
    Toggled,
    /// A row was clicked: focus (endpoint key, workspace id).
    Focus(Seq<char>, Seq<char>),
}

pub open spec fn spec_click(
    m: VisibilityModel,
    toggle: HitRect,
    rows: Seq<(HitRect, Seq<char>, Seq<char>)>,
    px: u16,
    py: u16,
) -> (ClickOutcome, VisibilityModel) {
    if rect_contains(toggle, px, py) {
        (ClickOutcome::Toggled, VisibilityModel { expanded: !m.expanded, ..m })
    } else {
        match seq_search::first_where(rows, row_hit_at(px, py)) {
            Some(i) => (ClickOutcome::Focus(rows[i].1, rows[i].2), m),
            None => (ClickOutcome::Missed, m),
        }
    }
}

/// What the shell does after a click on the hidden-workspace tree.
#[derive(Debug, PartialEq, Eq)]
pub enum ClickStep {
    Missed,
    /// Repaint.
    Toggled,
    /// Focus this workspace.
    Focus { endpoint_id: String, workspace_id: String },
}

impl View for ClickStep {
    type V = ClickOutcome;

    open spec fn view(&self) -> ClickOutcome {
        match self {
            ClickStep::Missed => ClickOutcome::Missed,
            ClickStep::Toggled => ClickOutcome::Toggled,
            ClickStep::Focus { endpoint_id, workspace_id } => ClickOutcome::Focus(
                endpoint_id@,
                workspace_id@,
            ),
        }
    }
}

impl VisibilityState {
    /// A click at `point`: the header folds or unfolds the tree, a row asks for its
    /// workspace to be focused.
    pub fn handle_hidden_workspace_click(&mut self, hits: &HiddenHitMap, point: (u16, u16)) -> (r: ClickStep)
        ensures
            (r@, final(self)@) == spec_click(
                old(self)@,
                hits.hidden_workspaces_toggle,
                row_hits_view(hits.hidden_workspaces@),
                point.0,
                point.1,
            ),
    {
        if contains(hits.hidden_workspaces_toggle, point) {
            self.hidden_workspaces_expanded = !self.hidden_workspaces_expanded;
            return ClickStep::Toggled;
        }
        match find_row_hit(&hits.hidden_workspaces, point) {
            Some(i) => ClickStep::Focus {
                endpoint_id: hits.hidden_workspaces[i].endpoint_id.clone(),
                workspace_id: hits.hidden_workspaces[i].workspace_id.clone(),
            },
            None => ClickStep::Missed,
        }
    }
}

/// The first row that holds `point`.
fn find_row_hit(hits: &Vec<HiddenRowHit>, point: (u16, u16)) -> (r: Option<usize>)
    ensures
        r matches Some(i) ==> i < hits.len() && seq_search::first_where(
            row_hits_view(hits@),
            row_hit_at(point.0, point.1),
        ) == Some(i as int),
        r is None ==> seq_search::first_where(row_hits_view(hits@), row_hit_at(point.0, point.1)) is None,
{
    let ghost rows = row_hits_view(hits@);
    let ghost p = row_hit_at(point.0, point.1);
    let mut i: usize = 0;
    while i < hits.len()
        invariant
            i <= hits.len(),
            rows == row_hits_view(hits@),
            p == row_hit_at(point.0, point.1),
            seq_search::first_where(rows.take(i as int), p) is None,
        decreases hits.len() - i,
    {
        assert(rows.take(i + 1).drop_last() =~= rows.take(i as int));
        assert(rows.take(i + 1).last() == rows[i as int]);
        if contains(hits[i].rect, point) {
            proof {
                seq_search::lemma_first_where_prefix(rows, p, i + 1);
            }
            return Some(i);
        }
        i = i + 1;
    }
    assert(rows.take(i as int) =~= rows);
    None
}



/// A row of the hidden-workspace tree as a value.
pub enum RowModel {
    /// The header, with the number of hidden workspaces.
    Header(nat),
    /// A hidden workspace: (endpoint index, workspace index in its snapshot).
    Workspace(int, int),
}

/// The hidden workspaces among the first `n` workspaces `ws` of endpoint `ei` (with key
/// `key`), as (endpoint index, workspace index), in order.
pub open spec fn hidden_in_snapshot(
    h: HiddenModel,
    key: Seq<char>,
    ws: Seq<(Seq<char>, Seq<char>)>,
    ei: int,
    n: nat,
) -> Seq<(int, int)>
    decreases n,
{
    if n == 0 {
        Seq::empty()
    } else {
        let rest = hidden_in_snapshot(h, key, ws, ei, (n - 1) as nat);
        if is_hidden(h, key, ws[n - 1].0) {
            rest.push((ei, n - 1))
        } else {
            rest
        }
    }
}

/// The hidden workspaces of endpoint `e`, at index `ei`.
pub open spec fn hidden_of_endpoint(h: HiddenModel, e: EndpointModel, ei: int) -> Seq<(int, int)> {
    match e.snapshot {
        Some(s) => hidden_in_snapshot(h, e.key, s.workspaces, ei, s.workspaces.len()),
        None => Seq::empty(),
    }
}

/// The hidden workspaces of the first `n` endpoints, endpoint by endpoint, in order.
pub open spec fn hidden_pairs(h: HiddenModel, eps: Seq<EndpointModel>, n: nat) -> Seq<(int, int)>
    decreases n,
{
    if n == 0 {
        Seq::empty()
    } else {
        hidden_pairs(h, eps, (n - 1) as nat) + hidden_of_endpoint(h, eps[n - 1], n - 1)
    }
}

pub open spec fn pair_row(p: (int, int)) -> RowModel {
    RowModel::Workspace(p.0, p.1)
}

/// The tree: nothing when no workspace is hidden; else a header with their number, then,
/// when the tree is expanded, one row per hidden workspace.
pub open spec fn hidden_rows(h: HiddenModel, eps: Seq<EndpointModel>, expanded: bool) -> Seq<RowModel> {
    let pairs = hidden_pairs(h, eps, eps.len());
    if pairs.len() == 0 {
        Seq::empty()
    } else {
        seq![RowModel::Header(pairs.len())] + if expanded {
            pairs.map_values(|p: (int, int)| pair_row(p))
        } else {
            Seq::empty()
        }
    }
}

proof fn lemma_hidden_in_snapshot_grows(
    h: HiddenModel,
    key: Seq<char>,
    ws: Seq<(Seq<char>, Seq<char>)>,
    ei: int,
    a: nat,
    b: nat,
)
    requires
        a <= b,
    ensures
        hidden_in_snapshot(h, key, ws, ei, a).len() <= hidden_in_snapshot(h, key, ws, ei, b).len(),
    decreases b,
{
    if a < b {
        lemma_hidden_in_snapshot_grows(h, key, ws, ei, a, (b - 1) as nat);
    }
}

proof fn lemma_hidden_pairs_grow(h: HiddenModel, eps: Seq<EndpointModel>, a: nat, b: nat)
    requires
        a <= b,
    ensures
        hidden_pairs(h, eps, a).len() <= hidden_pairs(h, eps, b).len(),
    decreases b,
{
    if a < b {
        lemma_hidden_pairs_grow(h, eps, a, (b - 1) as nat);
    }
}

proof fn lemma_hidden_in_snapshot_in_range(
    h: HiddenModel,
    key: Seq<char>,
    ws: Seq<(Seq<char>, Seq<char>)>,
    ei: int,
    n: nat,
)
    requires
        n <= ws.len(),
    ensures
        forall|k: int|
            0 <= k < hidden_in_snapshot(h, key, ws, ei, n).len() ==> {
                let p = #[trigger] hidden_in_snapshot(h, key, ws, ei, n)[k];
                p.0 == ei && 0 <= p.1 < ws.len()
            },
    decreases n,
{
    if n > 0 {
        lemma_hidden_in_snapshot_in_range(h, key, ws, ei, (n - 1) as nat);
        let rest = hidden_in_snapshot(h, key, ws, ei, (n - 1) as nat);
        assert forall|k: int| 0 <= k < rest.push((ei, n - 1)).len() implies {
            let p = #[trigger] rest.push((ei, n - 1))[k];
            p.0 == ei && 0 <= p.1 < ws.len()
        } by {
            if k < rest.len() {
                assert(rest.push((ei, n - 1))[k] == rest[k]);
            }
        }
    }
}

/// Every hidden workspace found names an endpoint with a snapshot and a workspace of it.
proof fn lemma_hidden_pairs_in_range(h: HiddenModel, eps: Seq<EndpointModel>, n: nat)
    requires
        n <= eps.len(),
    ensures
        forall|k: int|
            0 <= k < hidden_pairs(h, eps, n).len() ==> row_in_range(
                pair_row(#[trigger] hidden_pairs(h, eps, n)[k]),
                eps,
            ),
    decreases n,
{
    if n > 0 {
        lemma_hidden_pairs_in_range(h, eps, (n - 1) as nat);
        let base = hidden_pairs(h, eps, (n - 1) as nat);
        let e = eps[n - 1];
        let more = hidden_of_endpoint(h, e, n - 1);
        if let Some(s) = e.snapshot {
            lemma_hidden_in_snapshot_in_range(h, e.key, s.workspaces, n - 1, s.workspaces.len());
        }
        assert forall|k: int| 0 <= k < (base + more).len() implies row_in_range(
            pair_row(#[trigger] (base + more)[k]),
            eps,
        ) by {
            if k < base.len() {
                assert((base + more)[k] == base[k]);
            } else {
                assert((base + more)[k] == more[k - base.len()]);
            }
        }
    }
}

/// A row of the hidden-workspace tree.
#[derive(Clone, Copy, Debug, PartialEq, Eq)]
pub enum HiddenWorkspaceRow {
    Header(usize),
    /// (endpoint index, workspace index in its snapshot).
    Workspace(usize, usize),
}

impl View for HiddenWorkspaceRow {
    type V = RowModel;

    open spec fn view(&self) -> RowModel {
        match self {
            HiddenWorkspaceRow::Header(n) => RowModel::Header(*n as nat),
            HiddenWorkspaceRow::Workspace(e, w) => RowModel::Workspace(*e as int, *w as int),
        }
    }
}

pub open spec fn rows_view(rows: Seq<HiddenWorkspaceRow>) -> Seq<RowModel> {
    rows.map_values(|r: HiddenWorkspaceRow| r@)
}

/// The rows of the hidden-workspace tree (see `hidden_rows`).
pub fn collect_hidden_workspace_rows(
    endpoints: &Vec<ShellEndpoint>,
    hidden: &HiddenWorkspaces,
    expanded: bool,
) -> (rows: Vec<HiddenWorkspaceRow>)
    requires
        hidden_pairs(hidden@, endpoint_views(endpoints@), endpoints.len() as nat).len()
            <= usize::MAX,
    ensures
        rows_view(rows@) == hidden_rows(hidden@, endpoint_views(endpoints@), expanded),
        forall|k: int|
            0 <= k < rows.len() ==> row_in_range(#[trigger] rows@[k]@, endpoint_views(endpoints@)),
{
    let ghost h = hidden@;
    let ghost eps = endpoint_views(endpoints@);
    let ghost total = hidden_pairs(h, eps, endpoints.len() as nat).len();
    let mut rows: Vec<HiddenWorkspaceRow> = Vec::new();
    let mut count: usize = 0;
    let mut i: usize = 0;
    while i < endpoints.len()
        invariant
            i <= endpoints.len(),
            h == hidden@,
            eps == endpoint_views(endpoints@),
            total == hidden_pairs(h, eps, endpoints.len() as nat).len(),
            total <= usize::MAX,
            count == hidden_pairs(h, eps, i as nat).len(),
            expanded ==> rows_view(rows@) == hidden_pairs(h, eps, i as nat).map_values(
                |p: (int, int)| pair_row(p),
            ),
            !expanded ==> rows@.len() == 0,
        decreases endpoints.len() - i,
    {
        let endpoint = &endpoints[i];
        assert(eps[i as int] == endpoint@);
        let ghost base = hidden_pairs(h, eps, i as nat);
        proof {
            lemma_hidden_pairs_grow(h, eps, (i + 1) as nat, endpoints.len() as nat);
        }
        if let Some(snapshot) = &endpoint.snapshot {
            let ghost ws = snapshot@.workspaces;
            let ghost key = endpoint@.key;
            let mut j: usize = 0;
            while j < snapshot.workspaces.len()
                invariant
                    j <= snapshot.workspaces.len(),
                    i < endpoints.len(),
                    h == hidden@,
                    eps == endpoint_views(endpoints@),
                    eps[i as int] == endpoint@,
                    endpoint.snapshot == Some(*snapshot),
                    ws == snapshot@.workspaces,
                    key == endpoint.endpoint_id@,
                    base == hidden_pairs(h, eps, i as nat),
                    base + hidden_in_snapshot(h, key, ws, i as int, ws.len()) == hidden_pairs(
                        h,
                        eps,
                        (i + 1) as nat,
                    ),
                    hidden_pairs(h, eps, (i + 1) as nat).len() <= usize::MAX,
                    count == base.len() + hidden_in_snapshot(h, key, ws, i as int, j as nat).len(),
                    expanded ==> rows_view(rows@) == (base + hidden_in_snapshot(
                        h,
                        key,
                        ws,
                        i as int,
                        j as nat,
                    )).map_values(|p: (int, int)| pair_row(p)),
                    !expanded ==> rows@.len() == 0,
                decreases snapshot.workspaces.len() - j,
            {
                let ghost before = hidden_in_snapshot(h, key, ws, i as int, j as nat);
                assert(ws[j as int] == snapshot.workspaces@[j as int]@);
                proof {
                    lemma_hidden_in_snapshot_grows(
                        h,
                        key,
                        ws,
                        i as int,
                        (j + 1) as nat,
                        ws.len(),
                    );
                }
                if hidden.is_hidden(
                    endpoint.endpoint_id.as_str(),
                    snapshot.workspaces[j].workspace_id.as_str(),
                ) {
                    count = count + 1;
                    if expanded {
                        let ghost prev = rows_view(rows@);
                        rows.push(HiddenWorkspaceRow::Workspace(i, j));
                        assert(hidden_in_snapshot(h, key, ws, i as int, (j + 1) as nat) == before.push(
                            (i as int, j as int),
                        ));
                        assert(base + before.push((i as int, j as int)) =~= (base + before).push(
                            (i as int, j as int),
                        ));
                        assert(rows_view(rows@) =~= prev.push(pair_row((i as int, j as int))));
                        assert(rows_view(rows@) =~= (base + hidden_in_snapshot(
                            h,
                            key,
                            ws,
                            i as int,
                            (j + 1) as nat,
                        )).map_values(|p: (int, int)| pair_row(p)));
                    }
                }
                j = j + 1;
            }
        } else {
            assert(hidden_pairs(h, eps, (i + 1) as nat) =~= base);
        }
        i = i + 1;
    }
    if count > 0 {
        rows.insert(0, HiddenWorkspaceRow::Header(count));
    }
    proof {
        let pairs = hidden_pairs(h, eps, endpoints.len() as nat);
        if count > 0 {
            if expanded {
                assert(rows_view(rows@) =~= seq![RowModel::Header(pairs.len())] + pairs.map_values(
                    |p: (int, int)| pair_row(p),
                ));
            } else {
                assert(rows_view(rows@) =~= seq![RowModel::Header(pairs.len())]);
            }
        } else {
            assert(rows_view(rows@) =~= Seq::<RowModel>::empty());
        }
        lemma_hidden_pairs_in_range(h, eps, endpoints.len() as nat);
        assert forall|k: int| 0 <= k < rows.len() implies row_in_range(
            #[trigger] rows@[k]@,
            eps,
        ) by {
            assert(rows_view(rows@)[k] == rows@[k]@);
            if k > 0 && expanded {
                assert(rows_view(rows@)[k] == pair_row(pairs[k - 1]));
            }
        }
    }
    rows
}


/// The header's text: ` ▾ Hidden (n)` when expanded, ` ▸ Hidden (n)` when folded.
pub open spec fn header_label(count: nat, expanded: bool) -> Seq<char> {
    seq![' ', if expanded { '\u{25be}' } else { '\u{25b8}' }] + seq![' ', 'H', 'i', 'd', 'd', 'e', 'n', ' ', '(']
        + text::dec_string(count) + seq![')']
}

/// A workspace row's text: three spaces, the workspace's label, ` · `, the endpoint's label.
pub open spec fn workspace_row_label(workspace_label: Seq<char>, endpoint_label: Seq<char>) -> Seq<char> {
    seq![' ', ' ', ' '] + workspace_label + seq![' ', '\u{b7}', ' '] + endpoint_label
}

/// Whether `row` names a workspace that `endpoints` has.
pub open spec fn row_in_range(row: RowModel, eps: Seq<EndpointModel>) -> bool {
    match row {
        RowModel::Header(_) => true,
        RowModel::Workspace(e, w) => 0 <= e < eps.len() && eps[e].snapshot is Some && 0 <= w
            < eps[e].snapshot.unwrap().workspaces.len(),
    }
}

/// The text of a row.
pub open spec fn row_label(row: RowModel, eps: Seq<EndpointModel>, expanded: bool) -> Seq<char> {
    match row {
        RowModel::Header(n) => header_label(n, expanded),
        RowModel::Workspace(e, w) => workspace_row_label(
            eps[e].snapshot.unwrap().workspaces[w].1,
            eps[e].label,
        ),
    }
}

/// Records where `row` was drawn, in `rect`, and returns its text: the header becomes the
/// toggle, a workspace row a target for clicks.
pub fn render_hidden_workspace_row(
    hits: &mut HiddenHitMap,
    rect: HitRect,
    row: &HiddenWorkspaceRow,
    endpoints: &Vec<ShellEndpoint>,
    expanded: bool,
) -> (label: String)
    requires
        row_in_range(row@, endpoint_views(endpoints@)),
    ensures
        label@ == row_label(row@, endpoint_views(endpoints@), expanded),
        match row@ {
            RowModel::Header(_) => {
                &&& final(hits).hidden_workspaces_toggle == rect
                &&& final(hits).hidden_workspaces@ == old(hits).hidden_workspaces@
            },
            RowModel::Workspace(e, w) => {
                let eps = endpoint_views(endpoints@);
                &&& final(hits).hidden_workspaces_toggle == old(hits).hidden_workspaces_toggle
                &&& row_hits_view(final(hits).hidden_workspaces@) == row_hits_view(
                    old(hits).hidden_workspaces@,
                ).push((rect, eps[e].key, eps[e].snapshot.unwrap().workspaces[w].0))
            },
        },
{
    proof {
        reveal_strlit(" ");
        reveal_strlit("\u{25be}");
        reveal_strlit("\u{25b8}");
        reveal_strlit(" Hidden (");
        reveal_strlit(")");
        reveal_strlit("   ");
        reveal_strlit(" \u{b7} ");
    }
    let mut out = String::new();
    match row {
        HiddenWorkspaceRow::Header(count) => {
            hits.hidden_workspaces_toggle = rect;
            out.append(" ");
            if expanded {
                out.append("\u{25be}");
            } else {
                out.append("\u{25b8}");
            }
            out.append(" Hidden (");
            text::push_decimal(&mut out, *count as u64);
            out.append(")");
            assert(out@ =~= header_label(*count as nat, expanded));
        },
        HiddenWorkspaceRow::Workspace(e, w) => {
            let endpoint = &endpoints[*e];
            assert(endpoint_views(endpoints@)[*e as int] == endpoint@);
            match &endpoint.snapshot {
                Some(snapshot) => {
                    let workspace = &snapshot.workspaces[*w];
                    assert(snapshot@.workspaces[*w as int] == workspace@);
                    let ghost before = row_hits_view(hits.hidden_workspaces@);
                    hits.hidden_workspaces.push(
                        HiddenRowHit {
                            rect,
                            endpoint_id: endpoint.endpoint_id.clone(),
                            workspace_id: workspace.workspace_id.clone(),
                        },
                    );
                    assert(row_hits_view(hits.hidden_workspaces@) =~= before.push(
                        (rect, endpoint.endpoint_id@, workspace.workspace_id@),
                    ));
                    out.append("   ");
                    out.append(workspace.label.as_str());
                    out.append(" \u{b7} ");
                    out.append(endpoint.label.as_str());
                    assert(out@ =~= workspace_row_label(workspace.label@, endpoint.label@));
                },
                None => {},
            }
        },
    }
    out
}

} // verus!
