# herdr workspace library

Verified core of herdr's workspace handling, written in Verus.

- `src/terminal_theme.rs`: host terminal colors: OSC 10/11/4 replies parsed into RGB
  colors, OSC sequences that set, reset and query colors.
- `src/workspace_layout.rs`: the sidebar layout of workspaces and folders: normalizing
  against the live workspaces, creating, renaming, deleting and moving folders, placing
  workspaces, and the folder id counter.
- `src/workspace_folders.rs`: the application state around the layout: the canonical
  workspace order follows the layout while focus and selection stay on their workspaces.
- `src/workspace_visibility.rs`: hidden workspaces per endpoint, the hide protocol (focus
  moves away first, a default workspace is created when nothing else is visible), focus
  redirection, pruning, and the hidden-workspace tree in the sidebar.
- `src/layout_laws.rs`, `src/visibility_laws.rs`: properties that span operations.
- `src/text.rs`, `src/seq_search.rs`: string and sequence helpers with their specifications.

`app/` holds what Verus does not see: the serde forms of the layout types and the
process-wide folder id counter.
