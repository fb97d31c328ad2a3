//! Terminal theme parsing, workspace layout management and workspace visibility.

pub mod seq_search;
pub mod terminal_theme;
pub mod text;
pub mod edit_laws;
pub mod layout_laws;
pub mod visibility_laws;
pub mod workspace_folders;
pub mod workspace_layout;
pub mod workspace_visibility;
