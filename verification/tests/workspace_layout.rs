use herdr::workspace_layout::{
    FolderIdAllocator, WorkspaceFolder, WorkspaceLayout, WorkspaceLayoutError,
    WorkspaceLayoutItem,
};

fn workspace(id: &str) -> WorkspaceLayoutItem {
    WorkspaceLayoutItem::Workspace(id.to_string())
}

fn folder(id: &str, workspace_ids: &[&str]) -> WorkspaceLayoutItem {
    WorkspaceLayoutItem::Folder(WorkspaceFolder {
        id: id.to_string(),
        name: id.to_string(),
        workspace_ids: workspace_ids.iter().map(|id| (*id).to_string()).collect(),
    })
}

#[test]
fn normalizing_removes_stale_duplicates_and_appends_missing_workspaces() {
    let mut layout = WorkspaceLayout {
        items: vec![
            workspace("w2"),
            folder("f1", &["w1", "w2", "gone"]),
            workspace("w1"),
        ],
    };

    let mut folder_ids = FolderIdAllocator::new();
    layout.normalize(&["w1".into(), "w2".into(), "w3".into()], &mut folder_ids);

    assert_eq!(
        layout.items,
        vec![workspace("w2"), folder("f1", &["w1"]), workspace("w3")]
    );
    assert_eq!(
        layout.collect_ordered_workspace_ids(),
        vec!["w2", "w1", "w3"]
    );
}

#[test]
fn deleting_folder_dissolves_it_in_place() {
    let mut layout = WorkspaceLayout {
        items: vec![
            workspace("w1"),
            folder("f1", &["w2", "w3"]),
            workspace("w4"),
        ],
    };

    assert_eq!(layout.delete_folder("f1"), Ok(()));

    assert_eq!(
        layout.items,
        vec![
            workspace("w1"),
            workspace("w2"),
            workspace("w3"),
            workspace("w4")
        ]
    );
}

#[test]
fn placing_workspace_moves_between_root_and_folders() {
    let mut layout = WorkspaceLayout {
        items: vec![workspace("w1"), folder("f1", &["w2"]), workspace("w3")],
    };

    assert_eq!(layout.place_workspace("w3", Some("f1"), 1), Ok(true));
    assert_eq!(
        layout.items,
        vec![workspace("w1"), folder("f1", &["w2", "w3"])]
    );
    assert_eq!(layout.place_workspace("w2", None, 0), Ok(true));
    assert_eq!(
        layout.items,
        vec![workspace("w2"), workspace("w1"), folder("f1", &["w3"])]
    );
}

#[test]
fn placing_multiple_workspaces_at_root_preserves_requested_order() {
    let mut layout = WorkspaceLayout {
        items: vec![
            workspace("child"),
            workspace("normal"),
            workspace("parent"),
            workspace("tail"),
        ],
    };

    assert_eq!(
        layout.place_workspaces_at_root(&["parent".into(), "child".into()], Some("tail")),
        Ok(true)
    );
    assert_eq!(
        layout.collect_ordered_workspace_ids(),
        vec!["normal", "parent", "child", "tail"]
    );
}

#[test]
fn folder_names_are_trimmed_and_must_not_be_empty() {
    let mut layout = WorkspaceLayout::default();
    let mut folder_ids = FolderIdAllocator::new();

    let folder = layout.create_folder("  project  ".into(), &mut folder_ids).unwrap();
    assert_eq!(folder.name, "project");
    assert_eq!(
        layout.create_folder("   ".into(), &mut folder_ids),
        Err(WorkspaceLayoutError::EmptyFolderName)
    );
}

#[test]
fn normalizing_drops_repeated_folders_and_reserves_their_ids() {
    let mut layout = WorkspaceLayout {
        items: vec![
            folder("f7", &["w1"]),
            folder("f7", &["w2"]),
            workspace("w1"),
        ],
    };
    let mut folder_ids = FolderIdAllocator::new();
    layout.normalize(&["w1".into(), "w2".into()], &mut folder_ids);
    assert_eq!(layout.items, vec![folder("f7", &["w1"]), workspace("w2")]);
    let created = layout.create_folder("next".into(), &mut folder_ids).unwrap();
    assert_eq!(created.id, "f8");
    assert!(created.workspace_ids.is_empty());
}

#[test]
fn folder_ids_count_up_from_one() {
    let mut layout = WorkspaceLayout::default();
    let mut folder_ids = FolderIdAllocator::new();
    assert_eq!(layout.create_folder("a".into(), &mut folder_ids).unwrap().id, "f1");
    assert_eq!(layout.create_folder("b".into(), &mut folder_ids).unwrap().id, "f2");
    assert_eq!(layout.items.len(), 2);
}

#[test]
fn renaming_reports_changes_and_errors() {
    let mut layout = WorkspaceLayout { items: vec![folder("f1", &[])] };
    assert_eq!(layout.rename_folder("f1", " f1 ".into()), Ok(false));
    assert_eq!(layout.rename_folder("f1", "renamed".into()), Ok(true));
    assert_eq!(layout.find_folder("f1").unwrap().name, "renamed");
    assert_eq!(
        layout.rename_folder("f9", "x".into()),
        Err(WorkspaceLayoutError::FolderNotFound)
    );
    assert_eq!(
        layout.rename_folder("f9", "\t\n".into()),
        Err(WorkspaceLayoutError::EmptyFolderName)
    );
}

#[test]
fn moving_folder_checks_bounds_and_reports_changes() {
    let mut layout = WorkspaceLayout {
        items: vec![workspace("w1"), folder("f1", &["w2"]), workspace("w3")],
    };
    assert_eq!(layout.move_folder("f1", 4), Err(WorkspaceLayoutError::InsertIndexOutOfBounds));
    assert_eq!(layout.move_folder("f2", 0), Err(WorkspaceLayoutError::FolderNotFound));
    assert_eq!(layout.move_folder("f1", 1), Ok(false));
    assert_eq!(layout.move_folder("f1", 2), Ok(false));
    assert_eq!(layout.move_folder("f1", 3), Ok(true));
    assert_eq!(
        layout.items,
        vec![workspace("w1"), workspace("w3"), folder("f1", &["w2"])]
    );
    assert_eq!(layout.move_folder("f1", 0), Ok(true));
    assert_eq!(
        layout.items,
        vec![folder("f1", &["w2"]), workspace("w1"), workspace("w3")]
    );
}

#[test]
fn placing_workspace_reports_errors_and_no_ops() {
    let mut layout = WorkspaceLayout {
        items: vec![workspace("w1"), folder("f1", &["w2", "w3"])],
    };
    assert_eq!(
        layout.place_workspace("nope", None, 0),
        Err(WorkspaceLayoutError::WorkspaceNotFound)
    );
    assert_eq!(
        layout.place_workspace("w1", Some("f9"), 0),
        Err(WorkspaceLayoutError::FolderNotFound)
    );
    assert_eq!(
        layout.place_workspace("w1", Some("f1"), 3),
        Err(WorkspaceLayoutError::InsertIndexOutOfBounds)
    );
    assert_eq!(layout.place_workspace("w2", Some("f1"), 1), Ok(false));
    assert_eq!(layout.place_workspace("w1", None, 1), Ok(false));
    assert_eq!(layout.place_workspace("w2", Some("f1"), 2), Ok(true));
    assert_eq!(layout.items, vec![workspace("w1"), folder("f1", &["w3", "w2"])]);
}

#[test]
fn appending_and_removing_workspaces() {
    let mut layout = WorkspaceLayout { items: vec![folder("f1", &["w1"])] };
    layout.append_workspace("w1".into());
    assert_eq!(layout.items.len(), 1);
    layout.append_workspace("w2".into());
    assert_eq!(layout.items, vec![folder("f1", &["w1"]), workspace("w2")]);
    assert_eq!(layout.find_workspace_root_index("w1"), Some(0));
    assert_eq!(layout.find_workspace_root_index("w2"), Some(1));
    assert!(layout.remove_workspace("w1"));
    assert!(!layout.remove_workspace("w1"));
    assert_eq!(layout.find_workspace_root_index("w1"), None);
    assert_eq!(layout.items, vec![folder("f1", &[]), workspace("w2")]);
}

#[test]
fn placing_at_root_without_anchor_appends_and_reports_unknown_ids() {
    let mut layout = WorkspaceLayout {
        items: vec![folder("f1", &["a"]), workspace("b")],
    };
    assert_eq!(
        layout.place_workspaces_at_root(&["zzz".into()], None),
        Err(WorkspaceLayoutError::WorkspaceNotFound)
    );
    assert_eq!(
        layout.place_workspaces_at_root(&["a".into()], Some("zzz")),
        Err(WorkspaceLayoutError::WorkspaceNotFound)
    );
    assert_eq!(layout.place_workspaces_at_root(&["b".into()], None), Ok(false));
    assert_eq!(layout.place_workspaces_at_root(&["a".into()], None), Ok(true));
    assert_eq!(layout.items, vec![folder("f1", &[]), workspace("b"), workspace("a")]);
}
