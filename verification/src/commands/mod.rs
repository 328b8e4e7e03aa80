//! The operations that callers invoke, one module per table.
//!
//! An operation that writes takes the time of the write as `now` and stamps
//! the row with that text as it is; the store has no clock of its own. A
//! write that would go through but comes with an empty time is refused as a
//! store failure, so no row ever carries an empty stamp. A
//! create draws the id of the new row itself; the `insert_*` operations take
//! the id from the caller, and say for every id what a create does with the
//! id it drew.
//!
//! An operation that fails leaves the store as it was.

pub mod nodes;
pub mod projects;
pub mod settings;
pub mod trees;

pub use nodes::{
    create_node, delete_node, get_child_nodes, get_leaf_nodes, get_node, get_node_path,
    get_root_nodes, insert_node, list_nodes, permanently_delete_node, restore_node, update_node,
};
pub use projects::{
    create_project, delete_project, get_project, insert_project, list_deleted_projects,
    list_projects, permanently_delete_project, restore_project, update_project,
};
pub use settings::{delete_setting, get_setting, get_setting_value, list_settings, set_setting};
pub use trees::{
    create_tree, delete_tree, get_tree, insert_tree, list_deleted_trees, list_staging_trees,
    list_trees, permanently_delete_tree, restore_tree, update_tree,
};
