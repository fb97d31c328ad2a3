use herdr::workspace_visibility::{
    collect_hidden_workspace_rows, contains, render_hidden_workspace_row, ClickStep,
    HiddenHitMap, HiddenRowHit, HiddenWorkspaceRow, HiddenWorkspaces, HideStep, HitRect,
    ShellEndpoint, ShellSnapshot, ShellWorkspace, VisibilityState,
};

fn workspace(id: &str, label: &str) -> ShellWorkspace {
    ShellWorkspace {
        workspace_id: id.to_string(),
        label: label.to_string(),
    }
}

fn snapshot(focused: Option<&str>, ids: &[(&str, &str)]) -> ShellSnapshot {
    ShellSnapshot {
        focused_workspace_id: focused.map(|f| f.to_string()),
        workspaces: ids.iter().map(|(id, label)| workspace(id, label)).collect(),
    }
}

fn endpoint(key: &str, label: &str, online: bool, snap: Option<ShellSnapshot>) -> ShellEndpoint {
    ShellEndpoint {
        endpoint_id: key.to_string(),
        label: label.to_string(),
        online,
        snapshot: snap,
    }
}

/// One local endpoint with three workspaces, `focused` having focus.
fn local_state(focused: &str) -> VisibilityState {
    let ids = [("ws_1", "project-1"), ("ws_2", "project-2"), ("ws_3", "project-3")];
    VisibilityState {
        hidden_workspaces: HiddenWorkspaces::new(),
        active_endpoint_id: "local".to_string(),
        snapshot: Some(snapshot(Some(focused), &ids)),
        endpoints: vec![endpoint("local", "Local", true, Some(snapshot(Some(focused), &ids)))],
        pending_workspace_hide: None,
        hidden_focus_redirect_attempted: false,
        navigate_workspace_id: None,
        reveal_focused_workspace: false,
        hidden_workspaces_expanded: false,
    }
}

/// Moves focus on the active endpoint, in the shell's snapshot and in its endpoint list.
fn set_focus(state: &mut VisibilityState, focused: &str) {
    if let Some(s) = state.snapshot.as_mut() {
        s.focused_workspace_id = Some(focused.to_string());
    }
    for e in state.endpoints.iter_mut() {
        if e.endpoint_id == state.active_endpoint_id {
            if let Some(s) = e.snapshot.as_mut() {
                s.focused_workspace_id = Some(focused.to_string());
            }
        }
    }
}

fn rect(x: u16, y: u16, width: u16, height: u16) -> HitRect {
    HitRect { x, y, width, height }
}

#[test]
fn hide_active_waits_for_focus_and_protects_last_visible_workspace() {
    let mut state = local_state("ws_1");
    state.navigate_workspace_id = Some("ws_1".to_string());

    let step = state.hide_workspace("ws_1".to_string());
    assert_eq!(
        step,
        HideStep::Focus {
            endpoint_id: "local".to_string(),
            workspace_id: "ws_2".to_string(),
        }
    );
    assert_eq!(
        state.pending_workspace_hide,
        Some(("local".to_string(), "ws_1".to_string()))
    );
    assert!(!state.hidden_workspaces.is_hidden("local", "ws_1"));
    assert_eq!(state.navigate_workspace_id, None);

    set_focus(&mut state, "ws_2");
    assert!(state.reconcile_workspace_visibility(true));
    assert!(state.hidden_workspaces.is_hidden("local", "ws_1"));
    assert_eq!(state.pending_workspace_hide, None);

    assert_eq!(state.hide_workspace("ws_3".to_string()), HideStep::Hidden);
    assert!(state.hidden_workspaces.is_hidden("local", "ws_3"));

    // Only ws_2 is left visible: hiding it waits for a default workspace.
    assert_eq!(state.hide_workspace("ws_2".to_string()), HideStep::CreateDefault);
    assert!(!state.hidden_workspaces.is_hidden("local", "ws_2"));
    assert_eq!(
        state.pending_workspace_hide,
        Some(("local".to_string(), "ws_2".to_string()))
    );
}

#[test]
fn rejected_focus_cancels_hide_without_removing_the_active_workspace() {
    let mut state = local_state("ws_1");
    assert!(matches!(
        state.hide_workspace("ws_1".to_string()),
        HideStep::Focus { .. }
    ));
    state.cancel_pending_workspace_hide();
    assert_eq!(state.pending_workspace_hide, None);
    assert!(!state.reconcile_workspace_visibility(false));
    assert!(!state.hidden_workspaces.is_hidden("local", "ws_1"));
}

#[test]
fn hiding_parent_leaves_worktree_visible_and_prunes_closed_hidden_workspaces() {
    let mut state = local_state("ws_1");
    assert_eq!(state.hide_workspace("ws_2".to_string()), HideStep::Hidden);
    assert!(state.hidden_workspaces.is_hidden("local", "ws_2"));
    assert!(!state.hidden_workspaces.is_hidden("local", "ws_3"));

    // ws_2 was closed: the next snapshot no longer lists it.
    let next = snapshot(Some("ws_1"), &[("ws_1", "project-1"), ("ws_3", "project-3")]);
    assert!(state.prune_hidden_workspaces("local", &next));
    assert!(!state.hidden_workspaces.is_hidden("local", "ws_2"));
    assert!(!state.prune_hidden_workspaces("local", &next));
}

#[test]
fn hidden_tree_restores_individually_without_closing_runtime_objects() {
    let mut state = local_state("ws_1");
    assert_eq!(state.hide_workspace("ws_2".to_string()), HideStep::Hidden);
    assert_eq!(state.hide_workspace("ws_3".to_string()), HideStep::Hidden);

    let folded = collect_hidden_workspace_rows(&state.endpoints, &state.hidden_workspaces, false);
    assert_eq!(folded, vec![HiddenWorkspaceRow::Header(2)]);

    let mut hits = HiddenHitMap {
        hidden_workspaces_toggle: rect(0, 0, 0, 0),
        hidden_workspaces: Vec::new(),
    };
    let label = render_hidden_workspace_row(&mut hits, rect(0, 5, 20, 1), &folded[0], &state.endpoints, false);
    assert_eq!(label, " \u{25b8} Hidden (2)");
    assert_eq!(hits.hidden_workspaces_toggle, rect(0, 5, 20, 1));

    assert_eq!(
        state.handle_hidden_workspace_click(&hits, (3, 5)),
        ClickStep::Toggled
    );
    assert!(state.hidden_workspaces_expanded);

    let rows = collect_hidden_workspace_rows(&state.endpoints, &state.hidden_workspaces, true);
    assert_eq!(
        rows,
        vec![
            HiddenWorkspaceRow::Header(2),
            HiddenWorkspaceRow::Workspace(0, 1),
            HiddenWorkspaceRow::Workspace(0, 2),
        ]
    );
    let label = render_hidden_workspace_row(&mut hits, rect(0, 6, 20, 1), &rows[1], &state.endpoints, true);
    assert_eq!(label, "   project-2 \u{b7} Local");

    assert!(state.restore_hidden_workspace("local", "ws_2"));
    assert!(state.reveal_focused_workspace);
    assert!(!state.hidden_workspaces.is_hidden("local", "ws_2"));
    assert!(state.hidden_workspaces.is_hidden("local", "ws_3"));
    let rows = collect_hidden_workspace_rows(&state.endpoints, &state.hidden_workspaces, true);
    assert_eq!(
        rows,
        vec![HiddenWorkspaceRow::Header(1), HiddenWorkspaceRow::Workspace(0, 2)]
    );
}

#[test]
fn startup_preserves_hidden_default_focus_and_redirects_without_exposing_terminal() {
    let mut state = local_state("ws_1");
    state
        .hidden_workspaces
        .insert_hidden("local".to_string(), "ws_1".to_string());

    // A newly attached client inherits the server's focus: that shows nothing.
    assert!(!state.reconcile_workspace_visibility(false));
    assert!(state.hidden_workspaces.is_hidden("local", "ws_1"));
    assert!(state.is_focused_workspace_hidden());

    assert_eq!(
        state.redirect_hidden_workspace_focus(),
        Some(("local".to_string(), "ws_2".to_string()))
    );
    assert!(state.hidden_focus_redirect_attempted);
    assert_eq!(state.redirect_hidden_workspace_focus(), None);

    set_focus(&mut state, "ws_2");
    assert!(!state.reconcile_workspace_visibility(false));
    assert!(!state.hidden_focus_redirect_attempted);
    assert!(state.hidden_workspaces.is_hidden("local", "ws_1"));
}

#[test]
fn notification_click_restores_hidden_workspace_and_keeps_notifications_enabled() {
    let mut state = local_state("ws_1");
    assert_eq!(state.hide_workspace("ws_2".to_string()), HideStep::Hidden);
    assert!(state.restore_hidden_workspace("local", "ws_2"));
    assert!(state.reveal_focused_workspace);
    assert!(!state.hidden_workspaces.is_hidden("local", "ws_2"));
    assert!(!state.restore_hidden_workspace("local", "ws_2"));
}

#[test]
fn focus_change_shows_the_focused_workspace() {
    let mut state = local_state("ws_1");
    assert_eq!(state.hide_workspace("ws_2".to_string()), HideStep::Hidden);
    set_focus(&mut state, "ws_2");
    assert!(state.reconcile_workspace_visibility(true));
    assert!(!state.hidden_workspaces.is_hidden("local", "ws_2"));
}

#[test]
fn hide_then_restore_leaves_other_workspaces_alone() {
    let mut hidden = HiddenWorkspaces::new();
    assert!(hidden.insert_hidden("remote".to_string(), "ws_9".to_string()));
    assert!(hidden.insert_hidden("local".to_string(), "ws_1".to_string()));
    assert!(!hidden.insert_hidden("local".to_string(), "ws_1".to_string()));
    assert!(hidden.remove_hidden("local", "ws_1"));
    assert!(!hidden.remove_hidden("local", "ws_1"));
    assert!(!hidden.is_hidden("local", "ws_1"));
    assert!(hidden.is_hidden("remote", "ws_9"));
    assert!(!hidden.is_hidden("local", "ws_9"));
    assert_eq!(hidden.get_hidden_workspace_ids("remote"), vec!["ws_9".to_string()]);
    assert!(hidden.get_hidden_workspace_ids("elsewhere").is_empty());
}

#[test]
fn redirect_skips_offline_endpoints_and_hidden_workspaces() {
    let mut state = local_state("ws_1");
    state.hidden_workspaces.insert_hidden("local".to_string(), "ws_1".to_string());
    state.hidden_workspaces.insert_hidden("remote".to_string(), "r_1".to_string());
    state.endpoints.insert(
        0,
        endpoint("offline", "Offline", false, Some(snapshot(None, &[("o_1", "o")]))),
    );
    state.endpoints.insert(
        1,
        endpoint("remote", "Remote", true, Some(snapshot(None, &[("r_1", "r1"), ("r_2", "r2")]))),
    );
    assert_eq!(
        state.redirect_hidden_workspace_focus(),
        Some(("remote".to_string(), "r_2".to_string()))
    );
}

#[test]
fn hiding_unknown_workspace_is_ignored() {
    let mut state = local_state("ws_1");
    state.navigate_workspace_id = Some("ws_1".to_string());
    assert_eq!(state.hide_workspace("ws_7".to_string()), HideStep::Ignored);
    assert_eq!(state.navigate_workspace_id, Some("ws_1".to_string()));
    state.snapshot = None;
    assert_eq!(state.hide_workspace("ws_1".to_string()), HideStep::Ignored);
}

#[test]
fn clicks_hit_rows_by_half_open_rectangles() {
    let mut state = local_state("ws_1");
    let hits = HiddenHitMap {
        hidden_workspaces_toggle: rect(0, 0, 10, 1),
        hidden_workspaces: vec![HiddenRowHit {
            rect: rect(0, 1, 10, 1),
            endpoint_id: "local".to_string(),
            workspace_id: "ws_3".to_string(),
        }],
    };
    assert_eq!(
        state.handle_hidden_workspace_click(&hits, (9, 1)),
        ClickStep::Focus {
            endpoint_id: "local".to_string(),
            workspace_id: "ws_3".to_string(),
        }
    );
    assert_eq!(state.handle_hidden_workspace_click(&hits, (10, 1)), ClickStep::Missed);
    assert_eq!(state.handle_hidden_workspace_click(&hits, (0, 2)), ClickStep::Missed);
    assert!(!state.hidden_workspaces_expanded);
    assert!(contains(rect(u16::MAX - 1, 0, 5, 1), (u16::MAX - 1, 0)));
    assert!(!contains(rect(u16::MAX - 1, 0, 5, 1), (u16::MAX, 0)));
}

#[test]
fn no_hidden_workspaces_means_no_tree() {
    let state = local_state("ws_1");
    assert!(collect_hidden_workspace_rows(&state.endpoints, &state.hidden_workspaces, true).is_empty());
    let mut hits = HiddenHitMap {
        hidden_workspaces_toggle: rect(0, 0, 0, 0),
        hidden_workspaces: Vec::new(),
    };
    let label = render_hidden_workspace_row(
        &mut hits,
        rect(1, 2, 3, 1),
        &HiddenWorkspaceRow::Header(12),
        &state.endpoints,
        true,
    );
    assert_eq!(label, " \u{25be} Hidden (12)");
}

#[test]
fn failed_default_workspace_request_cancels_the_pending_hide() {
    let mut state = local_state("ws_1");
    assert_eq!(state.hide_workspace("ws_2".to_string()), HideStep::Hidden);
    assert_eq!(state.hide_workspace("ws_3".to_string()), HideStep::Hidden);
    assert_eq!(state.hide_workspace("ws_1".to_string()), HideStep::CreateDefault);
    assert_eq!(
        state.pending_workspace_hide,
        Some(("local".to_string(), "ws_1".to_string()))
    );
    // The request for a default workspace could not be sent.
    state.cancel_pending_workspace_hide();
    assert_eq!(state.pending_workspace_hide, None);
    assert!(!state.reconcile_workspace_visibility(false));
    assert!(!state.hidden_workspaces.is_hidden("local", "ws_1"));
}
