use herdr::workspace_folders::{AppState, Workspace};
use herdr::workspace_layout::{FolderIdAllocator, WorkspaceFolder, WorkspaceLayoutError, WorkspaceLayoutItem};

fn test_workspace(name: &str) -> Workspace {
    Workspace::new(format!("ws-{name}"), name.to_string())
}

#[test]
fn placing_workspace_reorders_canonical_workspaces_without_changing_focus() {
    let mut state = AppState::new();
    let mut ids = FolderIdAllocator::new();
    state.workspaces = vec![
        test_workspace("one"),
        test_workspace("two"),
        test_workspace("three"),
    ];
    state.active = Some(2);
    state.selected = 1;
    state.normalize_workspace_layout(&mut ids);
    let folder_id = state.create_workspace_folder("project".into(), &mut ids).unwrap();
    let moved_id = state.workspaces[1].id.clone();
    let active_id = state.workspaces[2].id.clone();

    assert_eq!(
        state.place_workspace_in_layout(&moved_id, Some(&folder_id), 0, &mut ids),
        Ok(true)
    );
    assert_eq!(state.move_workspace_folder(&folder_id, 0, &mut ids), Ok(true));

    assert_eq!(state.workspaces[0].id, moved_id);
    assert_eq!(
        state.active.map(|index| &state.workspaces[index].id),
        Some(&active_id)
    );
    assert_eq!(state.workspaces[state.selected].display_name(), "two");
}

#[test]
fn deleting_folder_keeps_children_and_their_order() {
    let mut state = AppState::new();
    let mut ids = FolderIdAllocator::new();
    state.workspaces = vec![test_workspace("one"), test_workspace("two")];
    let workspace_ids = state
        .workspaces
        .iter()
        .map(|workspace| workspace.id.clone())
        .collect::<Vec<_>>();
    state.workspace_layout.items = vec![WorkspaceLayoutItem::Folder(WorkspaceFolder {
        id: "f1".into(),
        name: "project".into(),
        workspace_ids: workspace_ids.clone(),
    })];

    assert_eq!(state.delete_workspace_folder("f1", &mut ids), Ok(()));

    assert_eq!(
        state.workspace_layout.items,
        workspace_ids
            .into_iter()
            .map(WorkspaceLayoutItem::Workspace)
            .collect::<Vec<_>>()
    );
    assert_eq!(state.workspaces.len(), 2);
}

#[test]
fn toggling_collapses_only_folders_with_workspaces() {
    let mut state = AppState::new();
    let mut ids = FolderIdAllocator::new();
    state.workspaces = vec![test_workspace("one")];
    state.normalize_workspace_layout(&mut ids);
    let empty = state.create_workspace_folder("empty".into(), &mut ids).unwrap();
    assert!(!state.toggle_workspace_folder(&empty));
    assert!(!state.toggle_workspace_folder("missing"));
    let full = state.create_workspace_folder("full".into(), &mut ids).unwrap();
    assert_eq!(state.place_workspace_in_layout("ws-one", Some(&full), 0, &mut ids), Ok(true));
    assert!(state.toggle_workspace_folder(&full));
    assert_eq!(state.collapsed_folder_ids.ids(), &vec![full.clone()]);
    assert!(state.collapsed_folder_ids.contains(&full));
    assert!(state.toggle_workspace_folder(&full));
    assert!(state.collapsed_folder_ids.ids().is_empty());
}

#[test]
fn deleting_folder_forgets_its_collapsed_and_selected_state() {
    let mut state = AppState::new();
    let mut ids = FolderIdAllocator::new();
    state.workspaces = vec![test_workspace("one")];
    state.normalize_workspace_layout(&mut ids);
    let folder = state.create_workspace_folder("f".into(), &mut ids).unwrap();
    state.place_workspace_in_layout("ws-one", Some(&folder), 0, &mut ids).unwrap();
    assert!(state.toggle_workspace_folder(&folder));
    state.selected_folder_id = Some(folder.clone());
    state.session_dirty = false;
    assert_eq!(state.delete_workspace_folder(&folder, &mut ids), Ok(()));
    assert!(state.collapsed_folder_ids.ids().is_empty());
    assert_eq!(state.selected_folder_id, None);
    assert!(state.session_dirty);
    assert_eq!(
        state.delete_workspace_folder(&folder, &mut ids),
        Err(WorkspaceLayoutError::FolderNotFound)
    );
}

#[test]
fn renaming_marks_the_session_dirty_only_on_change() {
    let mut state = AppState::new();
    let mut ids = FolderIdAllocator::new();
    let folder = state.create_workspace_folder("name".into(), &mut ids).unwrap();
    state.session_dirty = false;
    assert_eq!(state.rename_workspace_folder(&folder, "name".into(), &mut ids), Ok(false));
    assert!(!state.session_dirty);
    assert_eq!(state.rename_workspace_folder(&folder, "other".into(), &mut ids), Ok(true));
    assert!(state.session_dirty);
    assert_eq!(
        state.rename_workspace_folder(&folder, " ".into(), &mut ids),
        Err(WorkspaceLayoutError::EmptyFolderName)
    );
}

#[test]
fn pushing_and_removing_workspaces_updates_the_layout() {
    let mut state = AppState::new();
    let mut ids = FolderIdAllocator::new();
    assert_eq!(state.push_workspace(test_workspace("a"), &mut ids), 0);
    assert_eq!(state.push_workspace(test_workspace("b"), &mut ids), 1);
    assert_eq!(
        state.workspace_layout.collect_ordered_workspace_ids(),
        vec!["ws-a", "ws-b"]
    );
    let removed = state.remove_workspace_at(0);
    assert_eq!(removed.id, "ws-a");
    assert_eq!(
        state.workspace_layout.collect_ordered_workspace_ids(),
        vec!["ws-b"]
    );
    assert_eq!(state.workspaces.len(), 1);
}

#[test]
fn placing_several_workspaces_at_root_reorders_the_list() {
    let mut state = AppState::new();
    let mut ids = FolderIdAllocator::new();
    state.workspaces = vec![test_workspace("a"), test_workspace("b"), test_workspace("c")];
    state.selected = 0;
    state.normalize_workspace_layout(&mut ids);
    assert_eq!(
        state.place_workspaces_at_layout_root(&["ws-c".into()], Some("ws-a"), &mut ids),
        Ok(true)
    );
    let names: Vec<&str> = state.workspaces.iter().map(|w| w.display_name()).collect();
    assert_eq!(names, vec!["c", "a", "b"]);
    assert_eq!(state.workspaces[state.selected].display_name(), "a");
}
