//! What each tree operation does to the tables.

use vstd::prelude::*;
use crate::error::{AppErrorView, EntityKind};
use crate::models::{CreateTreeView, NodeView, TreeView, UpdateTreeView};
use crate::seqs::{lemma_kept_origin, origin};
use crate::tables::nodes::lemma_filter_nodes_have_trees;
use crate::tables::order::{listed, Order};
use crate::tables::{
    has_row, keeps_rows, lemma_filter_nodes, lemma_filter_rows, lemma_push_puts, lemma_same_keys,
    lemma_update_puts, puts_row, row_at, row_index, trees_have_projects, Keyed, Tables,
};

verus! {

impl Tables {
    /// The row that a create writes.
    pub open spec fn new_tree(id: Seq<char>, now: Seq<char>, input: CreateTreeView) -> TreeView {
        TreeView {
            id,
            project_id: input.project_id,
            name: input.name,
            system_prompt: input.system_prompt,
            created_at: now,
            updated_at: None,
            deleted_at: None,
        }
    }

    /// The id is free and the project, if one is named, exists.
    pub open spec fn accepts_tree(self, id: Seq<char>, input: CreateTreeView) -> bool {
        &&& !self.has_tree(id)
        &&& match input.project_id {
            Some(p) => self.has_project(p),
            None => true,
        }
    }

    /// Create: appends the new row, or reports a conflict.
    pub open spec fn insert_tree(self, id: Seq<char>, now: Seq<char>, input: CreateTreeView) -> (
        Tables,
        Result<TreeView, AppErrorView>,
    ) {
        if self.accepts_tree(id, input) && now.len() == 0 {
            (self, Err(AppErrorView::no_time()))
        } else if self.accepts_tree(id, input) {
            let row = Self::new_tree(id, now, input);
            (Tables { trees: self.trees.push(row), ..self }, Ok(row))
        } else {
            (self, Err(AppErrorView::Conflict))
        }
    }

    /// Get: the row with this id, whatever its deletion state.
    pub open spec fn get_tree(self, id: Seq<char>) -> Result<TreeView, AppErrorView> {
        if self.has_tree(id) {
            Ok(self.tree(id))
        } else {
            Err(AppErrorView::NotFound(EntityKind::Tree, id))
        }
    }

    /// A row after a patch: each present field takes its new value, the
    /// update stamp is set, and everything else stays.
    pub open spec fn patched_tree(row: TreeView, now: Seq<char>, patch: UpdateTreeView) -> TreeView {
        TreeView {
            project_id: match patch.project_id {
                Some(v) => v,
                None => row.project_id,
            },
            name: match patch.name {
                Some(v) => v,
                None => row.name,
            },
            system_prompt: match patch.system_prompt {
                Some(v) => v,
                None => row.system_prompt,
            },
            updated_at: Some(now),
            ..row
        }
    }

    /// A patch that moves the tree into a project names one that exists.
    pub open spec fn accepts_tree_patch(self, patch: UpdateTreeView) -> bool {
        match patch.project_id {
            Some(Some(p)) => self.has_project(p),
            _ => true,
        }
    }

    /// There is a row with this id and it is not in the trash.
    pub open spec fn tree_is_active(self, id: Seq<char>) -> bool {
        self.has_tree(id) && self.tree(id).deleted_at is None
    }

    /// There is a row with this id and it is in the trash.
    pub open spec fn tree_is_trashed(self, id: Seq<char>) -> bool {
        self.has_tree(id) && self.tree(id).deleted_at is Some
    }

    /// The tables with the row of this id replaced.
    pub open spec fn with_tree(self, id: Seq<char>, row: TreeView) -> Tables {
        Tables { trees: self.trees.update(row_index(self.trees, id), row), ..self }
    }

    /// Update: patches an active row, unless the patch names a project that
    /// does not exist.
    pub open spec fn update_tree(self, id: Seq<char>, now: Seq<char>, patch: UpdateTreeView) -> (
        Tables,
        Result<TreeView, AppErrorView>,
    ) {
        if !self.tree_is_active(id) {
            (self, Err(AppErrorView::NotFound(EntityKind::Tree, id)))
        } else if !self.accepts_tree_patch(patch) {
            (self, Err(AppErrorView::Conflict))
        } else if now.len() == 0 {
            (self, Err(AppErrorView::no_time()))
        } else {
            let row = Self::patched_tree(self.tree(id), now, patch);
            (self.with_tree(id, row), Ok(row))
        }
    }

    /// Soft delete: stamps an active row as deleted. The nodes of the tree
    /// stay as they are.
    pub open spec fn soft_delete_tree(self, id: Seq<char>, now: Seq<char>) -> (
        Tables,
        Result<TreeView, AppErrorView>,
    ) {
        if self.tree_is_active(id) && now.len() == 0 {
            (self, Err(AppErrorView::no_time()))
        } else if self.tree_is_active(id) {
            let row = TreeView { deleted_at: Some(now), updated_at: Some(now), ..self.tree(id) };
            (self.with_tree(id, row), Ok(row))
        } else {
            (self, Err(AppErrorView::NotFound(EntityKind::Tree, id)))
        }
    }

    /// Restore: clears the deletion stamp of a row in the trash.
    pub open spec fn restore_tree(self, id: Seq<char>, now: Seq<char>) -> (
        Tables,
        Result<TreeView, AppErrorView>,
    ) {
        if self.tree_is_trashed(id) && now.len() == 0 {
            (self, Err(AppErrorView::no_time()))
        } else if self.tree_is_trashed(id) {
            let row = TreeView { deleted_at: None, updated_at: Some(now), ..self.tree(id) };
            (self.with_tree(id, row), Ok(row))
        } else {
            (self, Err(AppErrorView::NotFound(EntityKind::Tree, id)))
        }
    }

    /// The trees other than `id`.
    pub open spec fn other_tree(id: Seq<char>) -> spec_fn(TreeView) -> bool {
        |t: TreeView| t.id != id
    }

    /// The nodes of trees other than `id`.
    pub open spec fn outside_tree(id: Seq<char>) -> spec_fn(NodeView) -> bool {
        |n: NodeView| n.tree_id != id
    }

    /// Purge: removes the row and every node of the tree, whatever their
    /// deletion state.
    pub open spec fn purge_tree(self, id: Seq<char>) -> (Tables, Result<(), AppErrorView>) {
        if self.has_tree(id) {
            (
                Tables {
                    trees: self.trees.filter(Self::other_tree(id)),
                    nodes: self.nodes.filter(Self::outside_tree(id)),
                    ..self
                },
                Ok(()),
            )
        } else {
            (self, Err(AppErrorView::NotFound(EntityKind::Tree, id)))
        }
    }

    pub open spec fn active_tree() -> spec_fn(TreeView) -> bool {
        |t: TreeView| t.deleted_at is None
    }

    pub open spec fn active_tree_in(project_id: Seq<char>) -> spec_fn(TreeView) -> bool {
        |t: TreeView| t.project_id == Some(project_id) && t.deleted_at is None
    }

    pub open spec fn active_staging_tree() -> spec_fn(TreeView) -> bool {
        |t: TreeView| t.project_id is None && t.deleted_at is None
    }

    /// The trees of the project `project_id`.
    pub open spec fn tree_of(project_id: Seq<char>) -> spec_fn(TreeView) -> bool {
        |t: TreeView| t.project_id == Some(project_id)
    }

    /// The trees of no project.
    pub open spec fn tree_of_none() -> spec_fn(TreeView) -> bool {
        |t: TreeView| t.project_id is None
    }

    pub open spec fn trashed_tree() -> spec_fn(TreeView) -> bool {
        |t: TreeView| t.deleted_at is Some
    }

    /// Which trees a listing of active trees shows: those of one project, or
    /// all of them.
    pub open spec fn listed_tree(project_id: Option<Seq<char>>) -> spec_fn(TreeView) -> bool {
        match project_id {
            Some(p) => Self::active_tree_in(p),
            None => Self::active_tree(),
        }
    }

    /// The trees in the trash, the one deleted last first; trees deleted at
    /// the same time keep the order of the table.
    pub open spec fn trashed_trees(self) -> Seq<TreeView> {
        listed(Order::LastDeletedFirst, self.trees.filter(Self::trashed_tree()))
    }

    /// The active trees, of one project or of all, oldest first; trees
    /// created at the same time keep the order of the table.
    pub open spec fn active_trees(self, project_id: Option<Seq<char>>) -> Seq<TreeView> {
        listed(Order::OldestFirst, self.trees.filter(Self::listed_tree(project_id)))
    }

    /// The active trees that belong to no project, oldest first.
    pub open spec fn staging_trees(self) -> Seq<TreeView> {
        listed(Order::OldestFirst, self.trees.filter(Self::active_staging_tree()))
    }
}

/// Appending an accepted tree keeps the integrity rules.
pub proof fn lemma_push_tree(t: Tables, id: Seq<char>, now: Seq<char>, input: CreateTreeView)
    requires
        t.wf(),
    ensures
        t.insert_tree(id, now, input).0.wf(),
        t.insert_tree(id, now, input).1 is Ok ==> puts_row(
            t.trees,
            t.insert_tree(id, now, input).0.trees,
            Tables::new_tree(id, now, input),
        ),
{
    if t.accepts_tree(id, input) {
        lemma_push_puts(t.trees, Tables::new_tree(id, now, input));
        let row = Tables::new_tree(id, now, input);
        let after = t.trees.push(row);
        let n = t.trees.len() as int;
        assert forall|i: int, j: int| 0 <= i < j < after.len() implies after[i].key()
            != after[j].key() by {
            if j == n {
                assert(!row_at(t.trees, i, id));
            }
        }
        assert forall|i: int| 0 <= i < after.len() implies match (#[trigger] after[i]).project_id {
            Some(p) => has_row(t.projects, p),
            None => true,
        } by {
            if i < n {
                assert(t.trees[i].project_id is Some ==> has_row(
                    t.projects,
                    t.trees[i].project_id->0,
                ));
            }
        }
        assert forall|i: int| 0 <= i < t.nodes.len() implies has_row(
            after,
            (#[trigger] t.nodes[i]).tree_id,
        ) by {
            let k = row_index(t.trees, t.nodes[i].tree_id);
            assert(row_at(t.trees, k, t.nodes[i].tree_id));
            assert(row_at(after, k, t.nodes[i].tree_id));
        }
    }
}

/// Replacing a tree by a row with the same id, and with a project that
/// exists if it names one, keeps the integrity rules, and the row is then the
/// one found under that id.
pub proof fn lemma_edit_tree(t: Tables, id: Seq<char>, row: TreeView)
    requires
        t.wf(),
        t.has_tree(id),
        row.id == id,
        row.project_id is Some ==> t.has_project(row.project_id->0),
    ensures
        t.with_tree(id, row).wf(),
        t.with_tree(id, row).has_tree(id),
        t.with_tree(id, row).tree(id) == row,
        puts_row(t.trees, t.with_tree(id, row).trees, row),
{
    lemma_update_puts(t.trees, row);
    let k = row_index(t.trees, id);
    assert(row_at(t.trees, k, id));
    let after = t.trees.update(k, row);
    lemma_same_keys(t.trees, after);
    assert forall|i: int| 0 <= i < after.len() implies match (#[trigger] after[i]).project_id {
        Some(p) => has_row(t.projects, p),
        None => true,
    } by {
        if i != k {
            assert(t.trees[i].project_id is Some ==> has_row(t.projects, t.trees[i].project_id->0));
        }
    }
    assert forall|i: int| 0 <= i < t.nodes.len() implies has_row(
        after,
        (#[trigger] t.nodes[i]).tree_id,
    ) by {
        assert(has_row(t.trees, t.nodes[i].tree_id));
    }
    assert(has_row(after, id));
    assert(row_index(after, id) == k);
}

/// What a filter leaves of the trees still names projects that exist.
pub proof fn lemma_filter_trees_have_projects(
    trees: Seq<TreeView>,
    projects: Seq<crate::models::ProjectView>,
    keep: spec_fn(TreeView) -> bool,
)
    requires
        trees_have_projects(trees, projects),
    ensures
        trees_have_projects(trees.filter(keep), projects),
{
    let kept = trees.filter(keep);
    assert forall|a: int| 0 <= a < kept.len() implies match (#[trigger] kept[a]).project_id {
        Some(p) => has_row(projects, p),
        None => true,
    } by {
        lemma_kept_origin(trees, keep, a);
        let i = origin(trees, keep, a);
        assert(trees[i].project_id is Some ==> has_row(projects, trees[i].project_id->0));
    }
}

/// Purging a tree with its nodes keeps the integrity rules.
pub proof fn lemma_purge_tree(t: Tables, id: Seq<char>)
    requires
        t.wf(),
    ensures
        t.purge_tree(id).0.wf(),
        keeps_rows(t.trees, t.purge_tree(id).0.trees),
        keeps_rows(t.nodes, t.purge_tree(id).0.nodes),
        !t.purge_tree(id).0.has_tree(id),
{
    lemma_filter_rows(t.trees, Tables::other_tree(id));
    lemma_filter_rows(t.nodes, Tables::outside_tree(id));
    if t.has_tree(id) {
        assert(row_at(t.trees, row_index(t.trees, id), id));
    }
    if t.has_tree(id) {
        let keep_tree = Tables::other_tree(id);
        let keep_node = Tables::outside_tree(id);
        let trees = t.trees.filter(keep_tree);
        let nodes = t.nodes.filter(keep_node);
        lemma_filter_trees_have_projects(t.trees, t.projects, keep_tree);
        lemma_filter_nodes(t.nodes, keep_node);
        lemma_filter_nodes_have_trees(t.nodes, t.trees, keep_node);
        assert forall|a: int| 0 <= a < nodes.len() implies has_row(
            trees,
            (#[trigger] nodes[a]).tree_id,
        ) by {
            lemma_kept_origin(t.nodes, keep_node, a);
            let key = nodes[a].tree_id;
            assert(has_row(t.trees, key));
            let k = row_index(t.trees, key);
            assert(row_at(t.trees, k, key));
            assert(keep_tree(t.trees[k]));
        }
    }
}

} // verus!
