//! The sidebar layout of workspaces: root-level workspaces and folders of workspaces.
use vstd::prelude::*;
use vstd::string::*;

use crate::layout_laws;
use crate::seq_search;
use crate::text;

verus! {

#[derive(Debug, Clone, PartialEq, Eq)]
pub struct WorkspaceFolder {
    pub id: String,
    pub name: String,
    pub workspace_ids: Vec<String>,
}

#[derive(Debug, Clone, PartialEq, Eq)]
pub enum WorkspaceLayoutItem {
    Workspace(String),
    Folder(WorkspaceFolder),
}

#[derive(Debug, Clone, PartialEq, Eq)]
pub struct WorkspaceLayout {
    pub items: Vec<WorkspaceLayoutItem>,
}

#[derive(Debug, Clone, Copy, PartialEq, Eq, Structural)]
pub enum WorkspaceLayoutError {
    EmptyFolderName,
    FolderNotFound,
    WorkspaceNotFound,
    InsertIndexOutOfBounds,
}

/// A folder as a value: its id, its name and its member workspace ids, in order.
pub struct FolderModel {
    pub id: Seq<char>,
    pub name: Seq<char>,
    pub members: Seq<Seq<char>>,
}

/// A layout item as a value.
pub enum LayoutEntry {
    Workspace(Seq<char>),
    Folder(FolderModel),
}

/// The character sequences of a list of strings.
pub open spec fn string_views(s: Seq<String>) -> Seq<Seq<char>> {
    s.map_values(|x: String| x@)
}

impl View for WorkspaceFolder {
    type V = FolderModel;

    open spec fn view(&self) -> FolderModel {
        FolderModel { id: self.id@, name: self.name@, members: string_views(self.workspace_ids@) }
    }
}

impl View for WorkspaceLayoutItem {
    type V = LayoutEntry;

    open spec fn view(&self) -> LayoutEntry {
        match self {
            WorkspaceLayoutItem::Workspace(id) => LayoutEntry::Workspace(id@),
            WorkspaceLayoutItem::Folder(folder) => LayoutEntry::Folder(folder@),
        }
    }
}

/// The values of a list of layout items.
pub open spec fn entries(items: Seq<WorkspaceLayoutItem>) -> Seq<LayoutEntry> {
    items.map_values(|item: WorkspaceLayoutItem| item@)
}

impl View for WorkspaceLayout {
    type V = Seq<LayoutEntry>;

    open spec fn view(&self) -> Seq<LayoutEntry> {
        entries(self.items@)
    }
}

/// The workspace ids an entry contributes to the sidebar order.
pub open spec fn entry_ids(e: LayoutEntry) -> Seq<Seq<char>> {
    match e {
        LayoutEntry::Workspace(id) => seq![id],
        LayoutEntry::Folder(f) => f.members,
    }
}

/// All workspace ids of a layout in sidebar order: root workspaces and folder members.
pub open spec fn ordered_ids(items: Seq<LayoutEntry>) -> Seq<Seq<char>>
    decreases items.len(),
{
    if items.len() == 0 {
        Seq::empty()
    } else {
        ordered_ids(items.drop_last()) + entry_ids(items.last())
    }
}

pub open spec fn is_folder_with_id(e: LayoutEntry, id: Seq<char>) -> bool {
    e matches LayoutEntry::Folder(f) && f.id == id
}

/// The position of the first folder with id `id`.
pub open spec fn folder_index(items: Seq<LayoutEntry>, id: Seq<char>) -> Option<int> {
    seq_search::first_where(items, |e: LayoutEntry| is_folder_with_id(e, id))
}

/// The entry is the root workspace `w`, or a folder that holds `w`.
pub open spec fn entry_holds(e: LayoutEntry, w: Seq<char>) -> bool {
    match e {
        LayoutEntry::Workspace(x) => x == w,
        LayoutEntry::Folder(f) => f.members.contains(w),
    }
}

/// Where workspace `w` first appears: the item's position and, for a folder member,
/// the position within the folder.
pub open spec fn workspace_position(items: Seq<LayoutEntry>, w: Seq<char>) -> Option<
    (int, Option<int>),
> {
    match seq_search::first_where(items, |e: LayoutEntry| entry_holds(e, w)) {
        None => None,
        Some(i) => match items[i] {
            LayoutEntry::Workspace(_) => Some((i, None)),
            LayoutEntry::Folder(f) => Some((i, text::first_index_of(f.members, w))),
        },
    }
}

/// The members of the folder entry `e` (empty for a workspace entry).
pub open spec fn members_of(e: LayoutEntry) -> Seq<Seq<char>> {
    match e {
        LayoutEntry::Folder(f) => f.members,
        LayoutEntry::Workspace(_) => Seq::empty(),
    }
}

/// `e` with its folder members replaced (a workspace entry is left as it is).
pub open spec fn with_members(e: LayoutEntry, members: Seq<Seq<char>>) -> LayoutEntry {
    match e {
        LayoutEntry::Folder(f) => LayoutEntry::Folder(FolderModel { members, ..f }),
        LayoutEntry::Workspace(_) => e,
    }
}

/// The layout with the item at `i` taken out, or, for `c` of `Some`, member `c` of the
/// folder at `i`.
pub open spec fn spec_remove_at(items: Seq<LayoutEntry>, i: int, c: Option<int>) -> Seq<LayoutEntry> {
    match c {
        None => items.remove(i),
        Some(c) => items.update(i, with_members(items[i], members_of(items[i]).remove(c))),
    }
}

/// The layout with the first occurrence of workspace `w` taken out.
pub open spec fn spec_remove_workspace(items: Seq<LayoutEntry>, w: Seq<char>) -> Seq<LayoutEntry> {
    match workspace_position(items, w) {
        None => items,
        Some((i, c)) => spec_remove_at(items, i, c),
    }
}

/// Placing workspace `w` at `insert_index` of folder `folder` (or of the root, for
/// `None`): the result and the items afterwards. Within its own folder, or within the
/// root, the workspace lands before the element now at `insert_index`.
pub open spec fn spec_place_workspace(
    items: Seq<LayoutEntry>,
    w: Seq<char>,
    folder: Option<Seq<char>>,
    insert_index: int,
) -> (Result<bool, WorkspaceLayoutError>, Seq<LayoutEntry>) {
    match workspace_position(items, w) {
        None => (Err(WorkspaceLayoutError::WorkspaceNotFound), items),
        Some((si, sc)) => {
            if folder is Some && folder_index(items, folder.unwrap()) is None {
                (Err(WorkspaceLayoutError::FolderNotFound), items)
            } else {
                let dest_len = match folder {
                    Some(f) => members_of(items[folder_index(items, f).unwrap()]).len() as int,
                    None => items.len() as int,
                };
                if insert_index > dest_len {
                    (Err(WorkspaceLayoutError::InsertIndexOutOfBounds), items)
                } else {
                    let same_folder = sc is Some && folder is Some && is_folder_with_id(
                        items[si],
                        folder.unwrap(),
                    );
                    let root_move = folder is None && sc is None;
                    let target = if (same_folder && sc.unwrap() < insert_index) || (root_move
                        && si < insert_index) {
                        insert_index - 1
                    } else {
                        insert_index
                    };
                    if (same_folder && sc == Some(target)) || (root_move && si == target) {
                        (Ok(false), items)
                    } else {
                        let removed = spec_remove_at(items, si, sc);
                        match folder {
                            Some(f) => {
                                let di = folder_index(removed, f).unwrap();
                                let m = members_of(removed[di]);
                                let at = if target < m.len() { target } else { m.len() as int };
                                (Ok(true), removed.update(di, with_members(removed[di], m.insert(at, w))))
                            },
                            None => {
                                let at = if target < removed.len() { target } else { removed.len() as int };
                                (Ok(true), removed.insert(at, LayoutEntry::Workspace(w)))
                            },
                        }
                    }
                }
            }
        },
    }
}

/// Every listed workspace appears somewhere in the layout.
pub open spec fn all_present(items: Seq<LayoutEntry>, ids: Seq<Seq<char>>) -> bool {
    forall|k: int| 0 <= k < ids.len() ==> #[trigger] workspace_position(items, ids[k]) is Some
}

/// The layout after taking out, one after another, the first `n` listed workspaces.
pub open spec fn remove_all(items: Seq<LayoutEntry>, ids: Seq<Seq<char>>, n: nat) -> Seq<LayoutEntry>
    decreases n,
{
    if n == 0 || n > ids.len() {
        items
    } else {
        spec_remove_workspace(remove_all(items, ids, (n - 1) as nat), ids[n - 1])
    }
}

/// Placing a list of workspaces, in the order given, at the root: before the item that
/// holds `before` (when it is not itself moved), else at the end.
pub open spec fn spec_place_workspaces_at_root(
    items: Seq<LayoutEntry>,
    ids: Seq<Seq<char>>,
    before: Option<Seq<char>>,
) -> (Result<bool, WorkspaceLayoutError>, Seq<LayoutEntry>) {
    if !all_present(items, ids) || (before is Some && workspace_position(items, before.unwrap()) is None) {
        (Err(WorkspaceLayoutError::WorkspaceNotFound), items)
    } else {
        let after = remove_all(items, ids, ids.len());
        let at = match before {
            Some(b) => match workspace_position(after, b) {
                Some((i, _)) => i,
                None => after.len() as int,
            },
            None => after.len() as int,
        };
        let result = after.take(at) + workspace_entries(ids) + after.skip(at);
        (Ok(result != items), result)
    }
}

/// Keeping the members, among the first `n`, that are valid and not seen before
/// (each kept id is then seen): the kept ids and the ids seen afterwards.
pub open spec fn filter_members(
    members: Seq<Seq<char>>,
    valid: Seq<Seq<char>>,
    seen: Seq<Seq<char>>,
    n: nat,
) -> (Seq<Seq<char>>, Seq<Seq<char>>)
    decreases n,
{
    if n == 0 || n > members.len() {
        (Seq::empty(), seen)
    } else {
        let (kept, s) = filter_members(members, valid, seen, (n - 1) as nat);
        let w = members[n - 1];
        if valid.contains(w) && !s.contains(w) {
            (kept.push(w), s.push(w))
        } else {
            (kept, s)
        }
    }
}

/// The first pass of normalization over the first `n` items: the items kept, the
/// workspace ids kept (in order), and the folder ids kept. A root workspace stays when
/// it is valid and not yet seen; a folder stays when its id is new, with the members
/// that are valid and not yet seen.
pub open spec fn normalize_items(items: Seq<LayoutEntry>, valid: Seq<Seq<char>>, n: nat) -> (
    Seq<LayoutEntry>,
    Seq<Seq<char>>,
    Seq<Seq<char>>,
)
    decreases n,
{
    if n == 0 || n > items.len() {
        (Seq::empty(), Seq::empty(), Seq::empty())
    } else {
        let (kept, seen, folders) = normalize_items(items, valid, (n - 1) as nat);
        match items[n - 1] {
            LayoutEntry::Workspace(w) => if valid.contains(w) && !seen.contains(w) {
                (kept.push(LayoutEntry::Workspace(w)), seen.push(w), folders)
            } else {
                (kept, seen, folders)
            },
            LayoutEntry::Folder(f) => if folders.contains(f.id) {
                (kept, seen, folders)
            } else {
                let (members, seen2) = filter_members(f.members, valid, seen, f.members.len());
                (
                    kept.push(LayoutEntry::Folder(FolderModel { members, ..f })),
                    seen2,
                    folders.push(f.id),
                )
            },
        }
    }
}

/// The second pass over the first `n` given ids: each id not yet seen is appended at the
/// root (and is then seen).
pub open spec fn append_missing(
    items: Seq<LayoutEntry>,
    seen: Seq<Seq<char>>,
    ids: Seq<Seq<char>>,
    n: nat,
) -> (Seq<LayoutEntry>, Seq<Seq<char>>)
    decreases n,
{
    if n == 0 || n > ids.len() {
        (items, seen)
    } else {
        let (out, s) = append_missing(items, seen, ids, (n - 1) as nat);
        let w = ids[n - 1];
        if !s.contains(w) {
            (out.push(LayoutEntry::Workspace(w)), s.push(w))
        } else {
            (out, s)
        }
    }
}

/// The layout normalized against the list of existing workspaces `ids`.
pub open spec fn spec_normalize(items: Seq<LayoutEntry>, ids: Seq<Seq<char>>) -> Seq<LayoutEntry> {
    let (kept, seen, _) = normalize_items(items, ids, items.len());
    append_missing(kept, seen, ids, ids.len()).0
}

/// Taking out a workspace keeps every folder, with its id.
pub proof fn lemma_remove_keeps_folder(items: Seq<LayoutEntry>, i: int, c: Option<int>, f: Seq<char>)
    requires
        0 <= i < items.len(),
        c is None ==> items[i] is Workspace,
        folder_index(items, f) is Some,
    ensures
        folder_index(spec_remove_at(items, i, c), f) is Some,
{
    let p = |e: LayoutEntry| is_folder_with_id(e, f);
    seq_search::lemma_first_where(items, p);
    let d = folder_index(items, f).unwrap();
    let removed = spec_remove_at(items, i, c);
    match c {
        None => {
            assert(d != i);
            if d < i {
                assert(removed[d] == items[d]);
                seq_search::lemma_first_where_some(removed, p, d);
            } else {
                assert(removed[d - 1] == items[d]);
                seq_search::lemma_first_where_some(removed, p, d - 1);
            }
        },
        Some(_) => {
            assert(p(removed[d]));
            seq_search::lemma_first_where_some(removed, p, d);
        },
    }
}

/// Index of `x` within a list of strings, compared as characters.
pub fn position_of_string(list: &Vec<String>, x: &str) -> (r: Option<usize>)
    ensures
        match r {
            Some(i) => text::first_index_of(string_views(list@), x@) == Some(i as int),
            None => text::first_index_of(string_views(list@), x@) is None,
        },
{
    let ghost v = string_views(list@);
    let mut i: usize = 0;
    while i < list.len()
        invariant
            v == string_views(list@),
            i <= list.len(),
            text::first_index_of(v.take(i as int), x@) is None,
        decreases list.len() - i,
    {
        assert(v.take(i + 1).drop_last() =~= v.take(i as int));
        if text::str_eq(list[i].as_str(), x) {
            proof {
                text::lemma_first_index_of_prefix(v, x@, i + 1);
            }
            return Some(i);
        }
        i = i + 1;
    }
    assert(v.take(i as int) =~= v);
    None
}

/// Hands out folder ids `f1`, `f2`, ... in increasing order, never reusing one that
/// `reserve_folder_ids` has seen.
pub struct FolderIdAllocator {
    next: u64,
}

impl View for FolderIdAllocator {
    type V = u64;

    closed spec fn view(&self) -> u64 {
        self.next
    }
}

/// The folder id with number `n`: `f<n>`.
pub open spec fn folder_id_string(n: nat) -> Seq<char> {
    seq!['f'] + text::dec_string(n)
}

/// The number of a folder id of the form `f<u64>`.
pub open spec fn folder_id_number(id: Seq<char>) -> Option<nat> {
    if id.len() > 0 && id[0] == 'f' {
        text::spec_parse_unsigned(id.skip(1), u64::MAX as nat)
    } else {
        None
    }
}

/// The largest folder number among the folders of a layout.
pub open spec fn max_folder_number(items: Seq<LayoutEntry>) -> Option<nat>
    decreases items.len(),
{
    if items.len() == 0 {
        None
    } else {
        let rest = max_folder_number(items.drop_last());
        let here = match items.last() {
            LayoutEntry::Folder(f) => folder_id_number(f.id),
            LayoutEntry::Workspace(_) => None,
        };
        match (rest, here) {
            (Some(a), Some(b)) => Some(if a >= b { a } else { b }),
            (Some(a), None) => Some(a),
            (None, Some(b)) => Some(b),
            (None, None) => None,
        }
    }
}

/// The next number after reserving the folder numbers of `items`.
pub open spec fn reserved_next(next: u64, items: Seq<LayoutEntry>) -> u64 {
    match max_folder_number(items) {
        Some(m) => if m + 1 <= u64::MAX && m + 1 > next {
            (m + 1) as u64
        } else {
            next
        },
        None => next,
    }
}

impl FolderIdAllocator {
    /// An allocator whose first id is `f1`.
    pub fn new() -> (a: Self)
        ensures
            a@ == 1,
    {
        FolderIdAllocator { next: 1 }
    }

    /// The next folder id, `f<n>`; the counter then moves on (wrapping as an atomic add does).
    pub fn generate_folder_id(&mut self) -> (id: String)
        ensures
            id@ == folder_id_string(old(self)@ as nat),
            final(self)@ == old(self)@.wrapping_add(1),
    {
        proof {
            reveal_strlit("f");
        }
        let mut id = String::new();
        id.append("f");
        text::push_decimal(&mut id, self.next);
        self.next = self.next.wrapping_add(1);
        id
    }

    /// Moves the counter past every `f<n>` folder id present in `items`.
    pub fn reserve_folder_ids(&mut self, items: &Vec<WorkspaceLayoutItem>)
        ensures
            final(self)@ == reserved_next(old(self)@, entries(items@)),
    {
        let ghost v = entries(items@);
        let mut max: Option<u64> = None;
        let mut i: usize = 0;
        while i < items.len()
            invariant
                v == entries(items@),
                i <= items.len(),
                match max {
                    Some(m) => max_folder_number(v.take(i as int)) == Some(m as nat),
                    None => max_folder_number(v.take(i as int)) is None,
                },
            decreases items.len() - i,
        {
            assert(v.take(i + 1).drop_last() =~= v.take(i as int));
            assert(v.take(i + 1).last() == items@[i as int]@);
            if let WorkspaceLayoutItem::Folder(folder) = &items[i] {
                proof {
                    reveal_strlit("f");
                }
                if let Some(digits) = text::strip_prefix(folder.id.as_str(), "f") {
                    proof {
                        assert(folder.id@.take(1)[0] == 'f');
                    }
                    if let Some(n) = text::parse_unsigned(digits, u64::MAX) {
                        max = match max {
                            Some(m) => Some(if m >= n { m } else { n }),
                            None => Some(n),
                        };
                    }
                } else {
                    proof {
                        if folder.id@.len() > 0 && folder.id@[0] == 'f' {
                            assert(folder.id@.take(1) =~= "f"@);
                        }
                    }
                }
            }
            i = i + 1;
        }
        assert(v.take(i as int) =~= v);
        if let Some(m) = max {
            if m < u64::MAX && m + 1 > self.next {
                self.next = m + 1;
            }
        }
    }
}

/// The trimmed folder name; it must not be empty.
pub open spec fn spec_normalize_folder_name(name: Seq<char>) -> Result<Seq<char>, WorkspaceLayoutError> {
    if text::trim(name).len() == 0 {
        Err(WorkspaceLayoutError::EmptyFolderName)
    } else {
        Ok(text::trim(name))
    }
}

fn normalize_folder_name(name: String) -> (r: Result<String, WorkspaceLayoutError>)
    ensures
        match r {
            Ok(n) => spec_normalize_folder_name(name@) == Ok::<Seq<char>, WorkspaceLayoutError>(n@),
            Err(e) => spec_normalize_folder_name(name@) == Err::<Seq<char>, WorkspaceLayoutError>(e),
        },
{
    let trimmed = text::trim_str(name.as_str());
    if trimmed.unicode_len() == 0 {
        return Err(WorkspaceLayoutError::EmptyFolderName);
    }
    Ok(trimmed.to_owned())
}


/// The folder an entry denotes (meaningless for a workspace entry).
pub open spec fn folder_of(e: LayoutEntry) -> FolderModel {
    match e {
        LayoutEntry::Folder(f) => f,
        LayoutEntry::Workspace(_) => FolderModel { id: Seq::empty(), name: Seq::empty(), members: Seq::empty() },
    }
}

/// Renaming folder `id` to `name`: the result and the items afterwards.
pub open spec fn spec_rename_folder(items: Seq<LayoutEntry>, id: Seq<char>, name: Seq<char>) -> (Result<bool, WorkspaceLayoutError>, Seq<LayoutEntry>) {
    match spec_normalize_folder_name(name) {
        Err(e) => (Err(e), items),
        Ok(n) => match folder_index(items, id) {
            None => (Err(WorkspaceLayoutError::FolderNotFound), items),
            Some(i) => if folder_of(items[i]).name == n {
                (Ok(false), items)
            } else {
                (Ok(true), items.update(i, LayoutEntry::Folder(FolderModel { name: n, ..folder_of(items[i]) })))
            },
        },
    }
}

/// Root workspace entries for a list of workspace ids.
pub open spec fn workspace_entries(ids: Seq<Seq<char>>) -> Seq<LayoutEntry> {
    ids.map_values(|w: Seq<char>| LayoutEntry::Workspace(w))
}

/// Deleting folder `id` dissolves it in place: its members take its position at the root.
pub open spec fn spec_delete_folder(items: Seq<LayoutEntry>, id: Seq<char>) -> (Result<(), WorkspaceLayoutError>, Seq<LayoutEntry>) {
    match folder_index(items, id) {
        None => (Err(WorkspaceLayoutError::FolderNotFound), items),
        Some(i) => (Ok(()), items.take(i) + workspace_entries(folder_of(items[i]).members) + items.skip(i + 1)),
    }
}

/// Moving folder `id` so that it lands before the item now at `insert_index`.
pub open spec fn spec_move_folder(items: Seq<LayoutEntry>, id: Seq<char>, insert_index: int) -> (Result<bool, WorkspaceLayoutError>, Seq<LayoutEntry>) {
    match folder_index(items, id) {
        None => (Err(WorkspaceLayoutError::FolderNotFound), items),
        Some(source) => if insert_index > items.len() {
            (Err(WorkspaceLayoutError::InsertIndexOutOfBounds), items)
        } else {
            let target = if source < insert_index { insert_index - 1 } else { insert_index };
            if source == target {
                (Ok(false), items)
            } else {
                (Ok(true), items.remove(source).insert(target, items[source]))
            }
        },
    }
}

/// Character-wise equality of two lists of strings.
fn string_vec_eq(a: &Vec<String>, b: &Vec<String>) -> (r: bool)
    ensures
        r == (string_views(a@) == string_views(b@)),
{
    if a.len() != b.len() {
        assert(string_views(a@).len() != string_views(b@).len());
        return false;
    }
    let mut i: usize = 0;
    while i < a.len()
        invariant
            a.len() == b.len(),
            i <= a.len(),
            forall|k: int| 0 <= k < i ==> a@[k]@ == b@[k]@,
        decreases a.len() - i,
    {
        if !text::str_eq(a[i].as_str(), b[i].as_str()) {
            assert(string_views(a@)[i as int] != string_views(b@)[i as int]);
            return false;
        }
        i = i + 1;
    }
    assert(string_views(a@) =~= string_views(b@));
    true
}

fn item_eq(a: &WorkspaceLayoutItem, b: &WorkspaceLayoutItem) -> (r: bool)
    ensures
        r == (a@ == b@),
{
    match (a, b) {
        (WorkspaceLayoutItem::Workspace(x), WorkspaceLayoutItem::Workspace(y)) => text::str_eq(x.as_str(), y.as_str()),
        (WorkspaceLayoutItem::Folder(x), WorkspaceLayoutItem::Folder(y)) => {
            let same = text::str_eq(x.id.as_str(), y.id.as_str()) && text::str_eq(x.name.as_str(), y.name.as_str())
                && string_vec_eq(&x.workspace_ids, &y.workspace_ids);
            proof {
                if x@ == y@ {
                    assert(x@.id == y@.id);
                    assert(x@.members == y@.members);
                }
            }
            same
        },
        _ => false,
    }
}

/// Equality of two lists of layout items as values.
fn items_eq(a: &Vec<WorkspaceLayoutItem>, b: &Vec<WorkspaceLayoutItem>) -> (r: bool)
    ensures
        r == (entries(a@) == entries(b@)),
{
    if a.len() != b.len() {
        assert(entries(a@).len() != entries(b@).len());
        return false;
    }
    let mut i: usize = 0;
    while i < a.len()
        invariant
            a.len() == b.len(),
            i <= a.len(),
            forall|k: int| 0 <= k < i ==> a@[k]@ == b@[k]@,
        decreases a.len() - i,
    {
        if !item_eq(&a[i], &b[i]) {
            assert(entries(a@)[i as int] != entries(b@)[i as int]);
            return false;
        }
        i = i + 1;
    }
    assert(entries(a@) =~= entries(b@));
    true
}

pub(crate) fn clone_strings(v: &Vec<String>) -> (r: Vec<String>)
    ensures
        string_views(r@) == string_views(v@),
{
    let mut r: Vec<String> = Vec::new();
    let mut i: usize = 0;
    while i < v.len()
        invariant
            i <= v.len(),
            r@.len() == i,
            forall|k: int| 0 <= k < i ==> r@[k]@ == v@[k]@,
        decreases v.len() - i,
    {
        r.push(v[i].clone());
        i = i + 1;
    }
    assert(string_views(r@) =~= string_views(v@));
    r
}

fn clone_item(item: &WorkspaceLayoutItem) -> (r: WorkspaceLayoutItem)
    ensures
        r@ == item@,
{
    match item {
        WorkspaceLayoutItem::Workspace(w) => WorkspaceLayoutItem::Workspace(w.clone()),
        WorkspaceLayoutItem::Folder(f) => WorkspaceLayoutItem::Folder(
            WorkspaceFolder { id: f.id.clone(), name: f.name.clone(), workspace_ids: clone_strings(&f.workspace_ids) },
        ),
    }
}

/// A copy of a list of layout items, equal as values.
fn clone_items(items: &Vec<WorkspaceLayoutItem>) -> (r: Vec<WorkspaceLayoutItem>)
    ensures
        entries(r@) == entries(items@),
{
    let mut r: Vec<WorkspaceLayoutItem> = Vec::new();
    let mut i: usize = 0;
    while i < items.len()
        invariant
            i <= items.len(),
            r@.len() == i,
            forall|k: int| 0 <= k < i ==> r@[k]@ == items@[k]@,
        decreases items.len() - i,
    {
        r.push(clone_item(&items[i]));
        i = i + 1;
    }
    assert(entries(r@) =~= entries(items@));
    r
}

/// Whether `x` is in a list of strings, compared as characters.
fn contains_string(list: &[String], x: &str) -> (r: bool)
    ensures
        r == string_views(list@).contains(x@),
{
    let ghost v = string_views(list@);
    let mut i: usize = 0;
    while i < list.len()
        invariant
            v == string_views(list@),
            i <= list.len(),
            forall|k: int| 0 <= k < i ==> v[k] != x@,
        decreases list.len() - i,
    {
        if text::str_eq(list[i].as_str(), x) {
            assert(v[i as int] == x@);
            return true;
        }
        i = i + 1;
    }
    false
}

impl Default for WorkspaceLayout {
    fn default() -> (layout: Self)
        ensures
            layout@ == Seq::<LayoutEntry>::empty(),
    {
        let items: Vec<WorkspaceLayoutItem> = Vec::new();
        assert(entries(items@) =~= Seq::<LayoutEntry>::empty());
        WorkspaceLayout { items }
    }
}

impl WorkspaceLayout {
    /// Brings the layout in line with the existing workspaces `workspace_ids`: drops
    /// unknown and repeated workspaces and repeated folders, appends the workspaces it
    /// lacks at the root, and reserves the folder ids it holds in `folder_ids`.
    pub fn normalize(&mut self, workspace_ids: &[String], folder_ids: &mut FolderIdAllocator)
        ensures
            final(self)@ == spec_normalize(old(self)@, string_views(workspace_ids@)),
            final(folder_ids)@ == reserved_next(old(folder_ids)@, final(self)@),
            ordered_ids(final(self)@).no_duplicates(),
            forall|w: Seq<char>| #[trigger] ordered_ids(final(self)@).contains(w)
                <==> string_views(workspace_ids@).contains(w),
            layout_laws::folder_ids_of(final(self)@).no_duplicates(),
    {
        let ghost valid = string_views(workspace_ids@);
        let ghost original = self@;
        let mut rest: Vec<WorkspaceLayoutItem> = Vec::new();
        std::mem::swap(&mut rest, &mut self.items);
        let total = rest.len();
        assert(original.len() == total);
        assert(entries(rest@) =~= original.skip(0));
        assert(self@ =~= Seq::<LayoutEntry>::empty());
        let mut seen_workspace_ids: Vec<String> = Vec::new();
        let mut seen_folder_ids: Vec<String> = Vec::new();
        let mut i: usize = 0;
        while rest.len() > 0
            invariant
                valid == string_views(workspace_ids@),
                i <= original.len(),
                rest.len() + i == original.len(),
                original.len() <= usize::MAX,
                entries(rest@) == original.skip(i as int),
                (self@, string_views(seen_workspace_ids@), string_views(seen_folder_ids@))
                    == normalize_items(original, valid, i as nat),
            decreases rest.len(),
        {
            let ghost rest_before = entries(rest@);
            assert(rest_before[0] == original[i as int]);
            let item = rest.remove(0);
            assert(entries(rest@) =~= rest_before.skip(1));
            assert(rest_before.skip(1) =~= original.skip(i + 1));
            let ghost kept = self@;
            let ghost seen_before = string_views(seen_workspace_ids@);
            let ghost folders_before = string_views(seen_folder_ids@);
            match item {
                WorkspaceLayoutItem::Workspace(workspace_id) => {
                    if contains_string(workspace_ids, workspace_id.as_str())
                        && !contains_string(seen_workspace_ids.as_slice(), workspace_id.as_str()) {
                        seen_workspace_ids.push(workspace_id.clone());
                        self.items.push(WorkspaceLayoutItem::Workspace(workspace_id));
                        assert(self@ =~= kept.push(original[i as int]));
                        assert(string_views(seen_workspace_ids@) =~= seen_before.push(workspace_id@));
                    }
                },
                WorkspaceLayoutItem::Folder(mut folder) => {
                    if !contains_string(seen_folder_ids.as_slice(), folder.id.as_str()) {
                        seen_folder_ids.push(folder.id.clone());
                        assert(string_views(seen_folder_ids@) =~= folders_before.push(folder.id@));
                        let ghost members = folder@.members;
                        let ghost fid = folder@.id;
                        let ghost fname = folder@.name;
                        assert(members.len() == folder.workspace_ids.len());
                        let mut candidates: Vec<String> = Vec::new();
                        std::mem::swap(&mut candidates, &mut folder.workspace_ids);
                        let mut j: usize = 0;
                        while candidates.len() > 0
                            invariant
                                valid == string_views(workspace_ids@),
                                j <= members.len(),
                                candidates.len() + j == members.len(),
                                folder.id@ == fid,
                                folder.name@ == fname,
                                members.len() <= usize::MAX,
                                string_views(candidates@) == members.skip(j as int),
                                (string_views(folder.workspace_ids@), string_views(seen_workspace_ids@))
                                    == filter_members(members, valid, seen_before, j as nat),
                            decreases candidates.len(),
                        {
                            let ghost c_before = string_views(candidates@);
                            assert(c_before[0] == members[j as int]);
                            let workspace_id = candidates.remove(0);
                            assert(string_views(candidates@) =~= c_before.skip(1));
                            assert(c_before.skip(1) =~= members.skip(j + 1));
                            let ghost k_before = string_views(folder.workspace_ids@);
                            let ghost s_before = string_views(seen_workspace_ids@);
                            if contains_string(workspace_ids, workspace_id.as_str())
                                && !contains_string(seen_workspace_ids.as_slice(), workspace_id.as_str()) {
                                seen_workspace_ids.push(workspace_id.clone());
                                folder.workspace_ids.push(workspace_id);
                                assert(string_views(seen_workspace_ids@) =~= s_before.push(members[j as int]));
                                assert(string_views(folder.workspace_ids@) =~= k_before.push(members[j as int]));
                            }
                            j = j + 1;
                        }
                        self.items.push(WorkspaceLayoutItem::Folder(folder));
                        assert(self@ =~= kept.push(self.items@.last()@));
                    }
                },
            }
            i = i + 1;
        }
        assert(original.skip(i as int).len() == 0);
        let ghost kept = self@;
        let ghost seen_first = string_views(seen_workspace_ids@);
        let mut k: usize = 0;
        while k < workspace_ids.len()
            invariant
                valid == string_views(workspace_ids@),
                k <= workspace_ids.len(),
                (self@, string_views(seen_workspace_ids@)) == append_missing(kept, seen_first, valid, k as nat),
            decreases workspace_ids.len() - k,
        {
            let ghost before = self@;
            let ghost s_before = string_views(seen_workspace_ids@);
            assert(workspace_ids@[k as int]@ == valid[k as int]);
            if !contains_string(seen_workspace_ids.as_slice(), workspace_ids[k].as_str()) {
                seen_workspace_ids.push(workspace_ids[k].clone());
                self.items.push(WorkspaceLayoutItem::Workspace(workspace_ids[k].clone()));
                assert(self@ =~= before.push(LayoutEntry::Workspace(valid[k as int])));
                assert(string_views(seen_workspace_ids@) =~= s_before.push(valid[k as int]));
            }
            k = k + 1;
        }
        folder_ids.reserve_folder_ids(&self.items);
        proof {
            layout_laws::lemma_normalize_lists_each_workspace_once(original, valid);
        }
    }

    /// Appends a new empty folder with the trimmed name and a fresh id.
    pub fn create_folder(&mut self, name: String, folder_ids: &mut FolderIdAllocator) -> (r: Result<
        &WorkspaceFolder,
        WorkspaceLayoutError,
    >)
        ensures
            match spec_normalize_folder_name(name@) {
                Err(e) => r == Err::<&WorkspaceFolder, WorkspaceLayoutError>(e) && final(self)@ == old(self)@
                    && final(folder_ids)@ == old(folder_ids)@,
                Ok(n) => {
                    let f = FolderModel {
                        id: folder_id_string(old(folder_ids)@ as nat),
                        name: n,
                        members: Seq::empty(),
                    };
                    &&& r is Ok
                    &&& r.unwrap()@ == f
                    &&& final(self)@ == old(self)@.push(LayoutEntry::Folder(f))
                    &&& final(folder_ids)@ == old(folder_ids)@.wrapping_add(1)
                },
            },
    {
        let name = normalize_folder_name(name)?;
        let id = folder_ids.generate_folder_id();
        let ghost before = self@;
        let members: Vec<String> = Vec::new();
        assert(string_views(members@) =~= Seq::<Seq<char>>::empty());
        self.items.push(WorkspaceLayoutItem::Folder(WorkspaceFolder { id, name, workspace_ids: members }));
        assert(self@ =~= before.push(self.items@.last()@));
        let n = self.items.len() - 1;
        match &self.items[n] {
            WorkspaceLayoutItem::Folder(folder) => Ok(folder),
            WorkspaceLayoutItem::Workspace(_) => {
                assert(false);
                Err(WorkspaceLayoutError::FolderNotFound)
            },
        }
    }

    /// Renames a folder; the name is trimmed and must not be empty. Returns whether the
    /// name changed.
    pub fn rename_folder(&mut self, folder_id: &str, name: String) -> (r: Result<bool, WorkspaceLayoutError>)
        ensures
            (r, final(self)@) == spec_rename_folder(old(self)@, folder_id@, name@),
    {
        let name = normalize_folder_name(name)?;
        let i = match self.find_folder_index(folder_id) {
            Some(i) => i,
            None => return Err(WorkspaceLayoutError::FolderNotFound),
        };
        proof {
            seq_search::lemma_first_where(self@, |e: LayoutEntry| is_folder_with_id(e, folder_id@));
        }
        let ghost before = self@;
        let item = self.items.remove(i);
        match item {
            WorkspaceLayoutItem::Folder(mut folder) => {
                if text::str_eq(folder.name.as_str(), name.as_str()) {
                    self.items.insert(i, WorkspaceLayoutItem::Folder(folder));
                    assert(self@ =~= before);
                    return Ok(false);
                }
                folder.name = name;
                self.items.insert(i, WorkspaceLayoutItem::Folder(folder));
                assert(self@ =~= before.update(i as int, LayoutEntry::Folder(FolderModel { name: folder.name@, ..folder_of(before[i as int]) })));
                Ok(true)
            },
            WorkspaceLayoutItem::Workspace(w) => {
                assert(false);
                self.items.insert(i, WorkspaceLayoutItem::Workspace(w));
                Err(WorkspaceLayoutError::FolderNotFound)
            },
        }
    }

    /// Deletes a folder; its workspaces stay, in order, where the folder was.
    pub fn delete_folder(&mut self, folder_id: &str) -> (r: Result<(), WorkspaceLayoutError>)
        ensures
            (r, final(self)@) == spec_delete_folder(old(self)@, folder_id@),
            ordered_ids(final(self)@) == ordered_ids(old(self)@),
    {
        proof {
            layout_laws::lemma_delete_folder_keeps_workspace_order(self@, folder_id@);
        }
        let index = match self.find_folder_index(folder_id) {
            Some(i) => i,
            None => return Err(WorkspaceLayoutError::FolderNotFound),
        };
        proof {
            seq_search::lemma_first_where(self@, |e: LayoutEntry| is_folder_with_id(e, folder_id@));
        }
        let ghost before = self@;
        let item = self.items.remove(index);
        let mut folder = match item {
            WorkspaceLayoutItem::Folder(folder) => folder,
            WorkspaceLayoutItem::Workspace(w) => {
                assert(false);
                self.items.insert(index, WorkspaceLayoutItem::Workspace(w));
                return Err(WorkspaceLayoutError::FolderNotFound);
            },
        };
        let ghost members = folder@.members;
        let ghost rest = before.remove(index as int);
        let mut k: usize = 0;
        while folder.workspace_ids.len() > 0
            invariant
                index <= rest.len(),
                k <= members.len(),
                folder.workspace_ids.len() + k == members.len(),
                self.items.len() == rest.len() + k,
                string_views(folder.workspace_ids@) == members.skip(k as int),
                self@ == rest.take(index as int) + workspace_entries(members.take(k as int)) + rest.skip(index as int),
            decreases folder.workspace_ids.len(),
        {
            let ghost ids_before = string_views(folder.workspace_ids@);
            assert(ids_before[0] == members[k as int]);
            let w = folder.workspace_ids.remove(0);
            assert(w@ == members[k as int]);
            let ghost prev = self@;
            self.items.insert(index + k, WorkspaceLayoutItem::Workspace(w));
            assert(string_views(folder.workspace_ids@) =~= ids_before.skip(1));
            assert(ids_before.skip(1) =~= members.skip(k + 1));
            assert(self@ =~= prev.insert(index + k, LayoutEntry::Workspace(w@)));
            assert(workspace_entries(members.take(k + 1)) =~= workspace_entries(members.take(k as int)).push(LayoutEntry::Workspace(w@)));
            assert(self@ =~= rest.take(index as int) + workspace_entries(members.take(k + 1)) + rest.skip(index as int));
            assert(self.items.len() == rest.len() + k + 1);
            k = k + 1;
        }
        assert(members.take(k as int) =~= members);
        assert(rest.take(index as int) =~= before.take(index as int));
        assert(rest.skip(index as int) =~= before.skip(index + 1));
        Ok(())
    }

    /// Moves a folder among the root items so that it lands before the item now at
    /// `insert_index`. Returns whether anything moved.
    pub fn move_folder(&mut self, folder_id: &str, insert_index: usize) -> (r: Result<bool, WorkspaceLayoutError>)
        ensures
            (r, final(self)@) == spec_move_folder(old(self)@, folder_id@, insert_index as int),
            final(self)@.to_multiset() == old(self)@.to_multiset(),
            layout_laws::workspace_multiset(final(self)@) == layout_laws::workspace_multiset(old(self)@),
    {
        proof {
            layout_laws::lemma_move_folder_keeps_items(self@, folder_id@, insert_index as int);
        }
        let source_index = match self.find_folder_index(folder_id) {
            Some(i) => i,
            None => return Err(WorkspaceLayoutError::FolderNotFound),
        };
        proof {
            seq_search::lemma_first_where(self@, |e: LayoutEntry| is_folder_with_id(e, folder_id@));
        }
        if insert_index > self.items.len() {
            return Err(WorkspaceLayoutError::InsertIndexOutOfBounds);
        }
        let target_index = if source_index < insert_index {
            insert_index - 1
        } else {
            insert_index
        };
        if source_index == target_index {
            return Ok(false);
        }
        let ghost before = self@;
        let folder = self.items.remove(source_index);
        self.items.insert(target_index, folder);
        assert(self@ =~= before.remove(source_index as int).insert(target_index as int, before[source_index as int]));
        Ok(true)
    }

    /// Adds a workspace at the end of the root, unless it is already in the layout.
    pub fn append_workspace(&mut self, workspace_id: String)
        ensures
            final(self)@ == (if workspace_position(old(self)@, workspace_id@) is None {
                old(self)@.push(LayoutEntry::Workspace(workspace_id@))
            } else {
                old(self)@
            }),
    {
        if self.find_workspace_position(workspace_id.as_str()).is_none() {
            let ghost before = self@;
            self.items.push(WorkspaceLayoutItem::Workspace(workspace_id));
            assert(self@ =~= before.push(LayoutEntry::Workspace(workspace_id@)));
        }
    }

    /// Takes the first occurrence of a workspace out of the layout. Returns whether it
    /// was there.
    pub fn remove_workspace(&mut self, workspace_id: &str) -> (r: bool)
        ensures
            r == workspace_position(old(self)@, workspace_id@) is Some,
            final(self)@ == spec_remove_workspace(old(self)@, workspace_id@),
    {
        let (item_index, child_index) = match self.find_workspace_position(workspace_id) {
            Some(p) => p,
            None => return false,
        };
        proof {
            seq_search::lemma_first_where(self@, |e: LayoutEntry| entry_holds(e, workspace_id@));
            text::lemma_first_index_of(members_of(self@[item_index as int]), workspace_id@);
        }
        self.remove_at(item_index, child_index);
        true
    }

    fn remove_at(&mut self, item_index: usize, child_index: Option<usize>)
        requires
            item_index < old(self)@.len(),
            match child_index {
                None => old(self)@[item_index as int] is Workspace,
                Some(c) => old(self)@[item_index as int] is Folder && c < members_of(old(self)@[item_index as int]).len(),
            },
        ensures
            final(self)@ == spec_remove_at(
                old(self)@,
                item_index as int,
                match child_index {
                    Some(c) => Some(c as int),
                    None => None,
                },
            ),
    {
        let ghost before = self@;
        if let Some(child_index) = child_index {
            let item = self.items.remove(item_index);
            match item {
                WorkspaceLayoutItem::Folder(mut folder) => {
                    let ghost old_members = folder@.members;
                    folder.workspace_ids.remove(child_index);
                    assert(folder@.members =~= old_members.remove(child_index as int));
                    self.items.insert(item_index, WorkspaceLayoutItem::Folder(folder));
                    assert(self@ =~= before.update(item_index as int, with_members(before[item_index as int], members_of(before[item_index as int]).remove(child_index as int))));
                },
                WorkspaceLayoutItem::Workspace(w) => {
                    assert(false);
                    self.items.insert(item_index, WorkspaceLayoutItem::Workspace(w));
                },
            }
        } else {
            self.items.remove(item_index);
            assert(self@ =~= before.remove(item_index as int));
        }
    }

    /// Moves a workspace to `insert_index` within folder `folder_id`, or within the root
    /// for `None`. Returns whether anything moved.
    #[verifier::spinoff_prover]
    #[verifier::rlimit(40)]
    pub fn place_workspace(&mut self, workspace_id: &str, folder_id: Option<&str>, insert_index: usize) -> (r: Result<bool, WorkspaceLayoutError>)
        ensures
            (r, final(self)@) == spec_place_workspace(
                old(self)@,
                workspace_id@,
                match folder_id {
                    Some(f) => Some(f@),
                    None => None,
                },
                insert_index as int,
            ),
            layout_laws::workspace_multiset(final(self)@) == layout_laws::workspace_multiset(old(self)@),
    {
        proof {
            layout_laws::lemma_place_workspace_keeps_workspaces(
                self@,
                workspace_id@,
                match folder_id {
                    Some(f) => Some(f@),
                    None => None,
                },
                insert_index as int,
            );
        }
        let ghost fid = match folder_id {
            Some(f) => Some(f@),
            None => None::<Seq<char>>,
        };
        let (source_item_index, source_child_index) = match self.find_workspace_position(workspace_id) {
            Some(p) => p,
            None => return Err(WorkspaceLayoutError::WorkspaceNotFound),
        };
        proof {
            seq_search::lemma_first_where(self@, |e: LayoutEntry| entry_holds(e, workspace_id@));
            text::lemma_first_index_of(members_of(self@[source_item_index as int]), workspace_id@);
        }
        let dest_index: Option<usize> = match folder_id {
            Some(f) => match self.find_folder_index(f) {
                Some(d) => Some(d),
                None => return Err(WorkspaceLayoutError::FolderNotFound),
            },
            None => None,
        };
        proof {
            if let Some(f) = folder_id {
                seq_search::lemma_first_where(self@, |e: LayoutEntry| is_folder_with_id(e, f@));
            }
        }
        let destination_len = match dest_index {
            Some(d) => match &self.items[d] {
                WorkspaceLayoutItem::Folder(folder) => folder.workspace_ids.len(),
                WorkspaceLayoutItem::Workspace(_) => {
                    assert(false);
                    0
                },
            },
            None => self.items.len(),
        };
        if insert_index > destination_len {
            return Err(WorkspaceLayoutError::InsertIndexOutOfBounds);
        }
        let same_folder = match (source_child_index, folder_id) {
            (Some(_), Some(f)) => match &self.items[source_item_index] {
                WorkspaceLayoutItem::Folder(folder) => text::str_eq(folder.id.as_str(), f),
                WorkspaceLayoutItem::Workspace(_) => false,
            },
            _ => false,
        };
        let root_move = folder_id.is_none() && source_child_index.is_none();
        let child_before_insert = match source_child_index {
            Some(c) => c < insert_index,
            None => false,
        };
        let target_index = if (same_folder && child_before_insert) || (root_move && source_item_index
            < insert_index) {
            insert_index - 1
        } else {
            insert_index
        };
        let child_at_target = match source_child_index {
            Some(c) => c == target_index,
            None => false,
        };
        if (same_folder && child_at_target) || (root_move && source_item_index == target_index) {
            return Ok(false);
        }
        let ghost before = self@;
        self.remove_at(source_item_index, source_child_index);
        let ghost removed = self@;
        match folder_id {
            Some(f) => {
                proof {
                    lemma_remove_keeps_folder(
                        before,
                        source_item_index as int,
                        match source_child_index {
                            Some(c) => Some(c as int),
                            None => None,
                        },
                        f@,
                    );
                }
                let d = match self.find_folder_index(f) {
                    Some(d) => d,
                    None => return Err(WorkspaceLayoutError::FolderNotFound),
                };
                proof {
                    seq_search::lemma_first_where(self@, |e: LayoutEntry| is_folder_with_id(e, f@));
                }
                let item = self.items.remove(d);
                match item {
                    WorkspaceLayoutItem::Folder(mut folder) => {
                        let ghost old_members = folder@.members;
                        let len = folder.workspace_ids.len();
                        let at = if target_index < len {
                            target_index
                        } else {
                            len
                        };
                        folder.workspace_ids.insert(at, workspace_id.to_owned());
                        assert(folder@.members =~= old_members.insert(at as int, workspace_id@));
                        self.items.insert(d, WorkspaceLayoutItem::Folder(folder));
                        assert(self@ =~= removed.update(d as int, with_members(removed[d as int], old_members.insert(at as int, workspace_id@))));
                    },
                    WorkspaceLayoutItem::Workspace(w) => {
                        assert(false);
                        self.items.insert(d, WorkspaceLayoutItem::Workspace(w));
                    },
                }
            },
            None => {
                let len = self.items.len();
                let at = if target_index < len {
                    target_index
                } else {
                    len
                };
                self.items.insert(at, WorkspaceLayoutItem::Workspace(workspace_id.to_owned()));
                assert(self@ =~= removed.insert(at as int, LayoutEntry::Workspace(workspace_id@)));
            },
        }
        Ok(true)
    }

    /// Moves the listed workspaces, in the order given, to the root: before the item that
    /// holds `before_workspace_id`, or at the end. Returns whether the layout changed.
    pub fn place_workspaces_at_root(&mut self, workspace_ids: &[String], before_workspace_id: Option<&str>) -> (r: Result<bool, WorkspaceLayoutError>)
        ensures
            (r, final(self)@) == spec_place_workspaces_at_root(
                old(self)@,
                string_views(workspace_ids@),
                match before_workspace_id {
                    Some(b) => Some(b@),
                    None => None,
                },
            ),
    {
        let ghost ids = string_views(workspace_ids@);
        let mut k: usize = 0;
        while k < workspace_ids.len()
            invariant
                ids == string_views(workspace_ids@),
                k <= workspace_ids.len(),
                forall|j: int| 0 <= j < k ==> #[trigger] workspace_position(self@, ids[j]) is Some,
            decreases workspace_ids.len() - k,
        {
            if self.find_workspace_position(workspace_ids[k].as_str()).is_none() {
                assert(workspace_ids@[k as int]@ == ids[k as int]);
                return Err(WorkspaceLayoutError::WorkspaceNotFound);
            }
            k = k + 1;
        }
        assert(all_present(self@, ids));
        if let Some(b) = before_workspace_id {
            if self.find_workspace_position(b).is_none() {
                return Err(WorkspaceLayoutError::WorkspaceNotFound);
            }
        }
        let ghost original = self@;
        let previous = clone_items(&self.items);
        let mut k: usize = 0;
        while k < workspace_ids.len()
            invariant
                ids == string_views(workspace_ids@),
                k <= workspace_ids.len(),
                self@ == remove_all(original, ids, k as nat),
            decreases workspace_ids.len() - k,
        {
            self.remove_workspace(workspace_ids[k].as_str());
            assert(workspace_ids@[k as int]@ == ids[k as int]);
            k = k + 1;
        }
        let ghost after = self@;
        let insert_index = match before_workspace_id {
            Some(b) => match self.find_workspace_root_index(b) {
                Some(i) => i,
                None => self.items.len(),
            },
            None => self.items.len(),
        };
        proof {
            if let Some(b) = before_workspace_id {
                seq_search::lemma_first_where(after, |e: LayoutEntry| entry_holds(e, b@));
            }
        }
        let mut k: usize = 0;
        while k < workspace_ids.len()
            invariant
                ids == string_views(workspace_ids@),
                k <= workspace_ids.len(),
                insert_index <= after.len(),
                self.items.len() == after.len() + k,
                self@ == after.take(insert_index as int) + workspace_entries(ids.take(k as int)) + after.skip(insert_index as int),
            decreases workspace_ids.len() - k,
        {
            let ghost prev = self@;
            self.items.insert(insert_index + k, WorkspaceLayoutItem::Workspace(workspace_ids[k].clone()));
            assert(self@ =~= prev.insert(insert_index + k, LayoutEntry::Workspace(ids[k as int])));
            assert(workspace_entries(ids.take(k + 1)) =~= workspace_entries(ids.take(k as int)).push(LayoutEntry::Workspace(ids[k as int])));
            assert(self@ =~= after.take(insert_index as int) + workspace_entries(ids.take(k + 1)) + after.skip(insert_index as int));
            k = k + 1;
        }
        assert(ids.take(k as int) =~= ids);
        Ok(!items_eq(&self.items, &previous))
    }

    /// The folder with id `folder_id`, if any (the first one).
    pub fn find_folder(&self, folder_id: &str) -> (r: Option<&WorkspaceFolder>)
        ensures
            match folder_index(self@, folder_id@) {
                Some(i) => r is Some && self@[i] == LayoutEntry::Folder(r.unwrap()@),
                None => r is None,
            },
    {
        let i = self.find_folder_index(folder_id)?;
        proof {
            seq_search::lemma_first_where(self@, |e: LayoutEntry| is_folder_with_id(e, folder_id@));
        }
        match &self.items[i] {
            WorkspaceLayoutItem::Folder(folder) => Some(folder),
            WorkspaceLayoutItem::Workspace(_) => {
                assert(false);
                None
            },
        }
    }

    /// The root position of the item that holds a workspace.
    pub fn find_workspace_root_index(&self, workspace_id: &str) -> (r: Option<usize>)
        ensures
            match workspace_position(self@, workspace_id@) {
                Some((i, _)) => r == Some(i as usize),
                None => r is None,
            },
    {
        match self.find_workspace_position(workspace_id) {
            Some((item_index, _)) => Some(item_index),
            None => None,
        }
    }

    fn find_folder_index(&self, folder_id: &str) -> (r: Option<usize>)
        ensures
            match r {
                Some(i) => folder_index(self@, folder_id@) == Some(i as int),
                None => folder_index(self@, folder_id@) is None,
            },
    {
        let ghost p = |e: LayoutEntry| is_folder_with_id(e, folder_id@);
        let ghost v = self@;
        let mut i: usize = 0;
        while i < self.items.len()
            invariant
                v == self@,
                p == (|e: LayoutEntry| is_folder_with_id(e, folder_id@)),
                i <= self.items.len(),
                seq_search::first_where(v.take(i as int), p) is None,
            decreases self.items.len() - i,
        {
            assert(v.take(i + 1).drop_last() =~= v.take(i as int));
            assert(v.take(i + 1).last() == self.items@[i as int]@);
            let hit = match &self.items[i] {
                WorkspaceLayoutItem::Folder(folder) => text::str_eq(folder.id.as_str(), folder_id),
                WorkspaceLayoutItem::Workspace(_) => false,
            };
            if hit {
                proof {
                    seq_search::lemma_first_where_prefix(v, p, i + 1);
                }
                return Some(i);
            }
            i = i + 1;
        }
        assert(v.take(i as int) =~= v);
        None
    }

    fn find_workspace_position(&self, workspace_id: &str) -> (r: Option<(usize, Option<usize>)>)
        ensures
            match r {
                Some((i, c)) => workspace_position(self@, workspace_id@) == Some(
                    (
                        i as int,
                        match c {
                            Some(c) => Some(c as int),
                            None => None,
                        },
                    ),
                ),
                None => workspace_position(self@, workspace_id@) is None,
            },
    {
        let ghost p = |e: LayoutEntry| entry_holds(e, workspace_id@);
        let ghost v = self@;
        let mut i: usize = 0;
        while i < self.items.len()
            invariant
                v == self@,
                p == (|e: LayoutEntry| entry_holds(e, workspace_id@)),
                i <= self.items.len(),
                seq_search::first_where(v.take(i as int), p) is None,
            decreases self.items.len() - i,
        {
            assert(v.take(i + 1).drop_last() =~= v.take(i as int));
            assert(v.take(i + 1).last() == self.items@[i as int]@);
            match &self.items[i] {
                WorkspaceLayoutItem::Workspace(candidate) => {
                    if text::str_eq(candidate.as_str(), workspace_id) {
                        proof {
                            seq_search::lemma_first_where_prefix(v, p, i + 1);
                        }
                        return Some((i, None));
                    }
                },
                WorkspaceLayoutItem::Folder(folder) => {
                    if let Some(c) = position_of_string(&folder.workspace_ids, workspace_id) {
                        proof {
                            text::lemma_first_index_of(string_views(folder.workspace_ids@), workspace_id@);
                            seq_search::lemma_first_where_prefix(v, p, i + 1);
                        }
                        return Some((i, Some(c)));
                    } else {
                        proof {
                            text::lemma_first_index_of(string_views(folder.workspace_ids@), workspace_id@);
                        }
                    }
                },
            }
            i = i + 1;
        }
        assert(v.take(i as int) =~= v);
        None
    }

    /// All workspace ids in sidebar order.
    pub fn collect_ordered_workspace_ids(&self) -> (r: Vec<&str>)
        ensures
            r@.map_values(|s: &str| s@) == ordered_ids(self@),
    {
        let mut workspace_ids: Vec<&str> = Vec::new();
        let mut i: usize = 0;
        while i < self.items.len()
            invariant
                i <= self.items.len(),
                workspace_ids@.map_values(|s: &str| s@) == ordered_ids(self@.take(i as int)),
            decreases self.items.len() - i,
        {
            let ghost before = workspace_ids@;
            assert(self@.take(i + 1).drop_last() =~= self@.take(i as int));
            match &self.items[i] {
                WorkspaceLayoutItem::Workspace(workspace_id) => {
                    workspace_ids.push(workspace_id.as_str());
                },
                WorkspaceLayoutItem::Folder(folder) => {
                    let mut k: usize = 0;
                    while k < folder.workspace_ids.len()
                        invariant
                            k <= folder.workspace_ids.len(),
                            forall|j: int| 0 <= j < before.len() ==> #[trigger] workspace_ids@[j] == before[j],
                            workspace_ids@.len() == before.len() + k,
                            forall|j: int|
                                0 <= j < k ==> #[trigger] workspace_ids@[before.len() + j]@
                                    == folder.workspace_ids@[j]@,
                        decreases folder.workspace_ids.len() - k,
                    {
                        workspace_ids.push(folder.workspace_ids[k].as_str());
                        k = k + 1;
                    }
                    let ghost fv = string_views(folder.workspace_ids@);
                    assert forall|j: int| before.len() <= j < workspace_ids@.len() implies #[trigger] workspace_ids@[j]@ == fv[j - before.len()] by {
                        assert(workspace_ids@[before.len() + (j - before.len())]@ == folder.workspace_ids@[j - before.len()]@);
                    }
                    assert(workspace_ids@.map_values(|s: &str| s@) =~= before.map_values(
                        |s: &str| s@,
                    ) + string_views(folder.workspace_ids@));
                },
            }
            assert(workspace_ids@.map_values(|s: &str| s@) =~= ordered_ids(self@.take(i + 1)));
            i = i + 1;
        }
        assert(self@.take(i as int) =~= self@);
        workspace_ids
    }
}

} // verus!
