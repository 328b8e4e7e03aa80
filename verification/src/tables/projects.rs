//! What each project operation does to the tables.

use vstd::prelude::*;
use crate::error::{AppErrorView, EntityKind};
use crate::models::{CreateProjectView, NodeView, ProjectView, TreeView, UpdateProjectView};
use crate::seqs::{lemma_kept_origin, origin};
use crate::tables::order::{listed, Order};
use crate::tables::{
    has_row, keeps_rows, lemma_filter_nodes, lemma_filter_rows, lemma_push_puts, lemma_same_keys,
    lemma_update_puts, puts_row, row_at, row_index, Keyed, Tables,
};

verus! {

impl Tables {
    /// The row that a create writes.
    pub open spec fn new_project(id: Seq<char>, now: Seq<char>, input: CreateProjectView) -> ProjectView {
        ProjectView { id, name: input.name, created_at: now, updated_at: None, deleted_at: None }
    }

    /// Create: appends the new row, or reports a conflict where the id is
    /// taken.
    pub open spec fn insert_project(self, id: Seq<char>, now: Seq<char>, input: CreateProjectView) -> (
        Tables,
        Result<ProjectView, AppErrorView>,
    ) {
        if !self.has_project(id) && now.len() == 0 {
            (self, Err(AppErrorView::no_time()))
        } else if !self.has_project(id) {
            let row = Self::new_project(id, now, input);
            (Tables { projects: self.projects.push(row), ..self }, Ok(row))
        } else {
            (self, Err(AppErrorView::Conflict))
        }
    }

    /// Get: the row with this id, whatever its deletion state.
    pub open spec fn get_project(self, id: Seq<char>) -> Result<ProjectView, AppErrorView> {
        if self.has_project(id) {
            Ok(self.project(id))
        } else {
            Err(AppErrorView::NotFound(EntityKind::Project, id))
        }
    }

    /// A row after a patch: the name takes its new value if the patch holds
    /// one, the update stamp is set, and everything else stays.
    pub open spec fn patched_project(
        row: ProjectView,
        now: Seq<char>,
        patch: UpdateProjectView,
    ) -> ProjectView {
        ProjectView {
            name: match patch.name {
                Some(v) => v,
                None => row.name,
            },
            updated_at: Some(now),
            ..row
        }
    }

    /// There is a row with this id and it is not in the trash.
    pub open spec fn project_is_active(self, id: Seq<char>) -> bool {
        self.has_project(id) && self.project(id).deleted_at is None
    }

    /// There is a row with this id and it is in the trash.
    pub open spec fn project_is_trashed(self, id: Seq<char>) -> bool {
        self.has_project(id) && self.project(id).deleted_at is Some
    }

    /// The tables with the row of this id replaced.
    pub open spec fn with_project(self, id: Seq<char>, row: ProjectView) -> Tables {
        Tables { projects: self.projects.update(row_index(self.projects, id), row), ..self }
    }

    /// Update: patches an active row.
    pub open spec fn update_project(self, id: Seq<char>, now: Seq<char>, patch: UpdateProjectView) -> (
        Tables,
        Result<ProjectView, AppErrorView>,
    ) {
        if self.project_is_active(id) && now.len() == 0 {
            (self, Err(AppErrorView::no_time()))
        } else if self.project_is_active(id) {
            let row = Self::patched_project(self.project(id), now, patch);
            (self.with_project(id, row), Ok(row))
        } else {
            (self, Err(AppErrorView::NotFound(EntityKind::Project, id)))
        }
    }

    /// Soft delete: stamps an active row as deleted. The trees of the
    /// project stay as they are.
    pub open spec fn soft_delete_project(self, id: Seq<char>, now: Seq<char>) -> (
        Tables,
        Result<ProjectView, AppErrorView>,
    ) {
        if self.project_is_active(id) && now.len() == 0 {
            (self, Err(AppErrorView::no_time()))
        } else if self.project_is_active(id) {
            let row = ProjectView {
                deleted_at: Some(now),
                updated_at: Some(now),
                ..self.project(id)
            };
            (self.with_project(id, row), Ok(row))
        } else {
            (self, Err(AppErrorView::NotFound(EntityKind::Project, id)))
        }
    }

    /// Restore: clears the deletion stamp of a row in the trash.
    pub open spec fn restore_project(self, id: Seq<char>, now: Seq<char>) -> (
        Tables,
        Result<ProjectView, AppErrorView>,
    ) {
        if self.project_is_trashed(id) && now.len() == 0 {
            (self, Err(AppErrorView::no_time()))
        } else if self.project_is_trashed(id) {
            let row = ProjectView { deleted_at: None, updated_at: Some(now), ..self.project(id) };
            (self.with_project(id, row), Ok(row))
        } else {
            (self, Err(AppErrorView::NotFound(EntityKind::Project, id)))
        }
    }

    /// The projects other than `id`.
    pub open spec fn other_project(id: Seq<char>) -> spec_fn(ProjectView) -> bool {
        |p: ProjectView| p.id != id
    }

    /// The trees that do not belong to the project `id`.
    pub open spec fn tree_outside_project(id: Seq<char>) -> spec_fn(TreeView) -> bool {
        |t: TreeView| t.project_id != Some(id)
    }

    /// The nodes whose tree does not belong to the project `id`.
    pub open spec fn node_outside_project(self, id: Seq<char>) -> spec_fn(NodeView) -> bool {
        |n: NodeView| self.tree(n.tree_id).project_id != Some(id)
    }

    /// Purge: removes the row, every tree of the project and every node of
    /// those trees, whatever their deletion state.
    pub open spec fn purge_project(self, id: Seq<char>) -> (Tables, Result<(), AppErrorView>) {
        if self.has_project(id) {
            (
                Tables {
                    projects: self.projects.filter(Self::other_project(id)),
                    trees: self.trees.filter(Self::tree_outside_project(id)),
                    nodes: self.nodes.filter(self.node_outside_project(id)),
                    ..self
                },
                Ok(()),
            )
        } else {
            (self, Err(AppErrorView::NotFound(EntityKind::Project, id)))
        }
    }

    pub open spec fn active_project() -> spec_fn(ProjectView) -> bool {
        |p: ProjectView| p.deleted_at is None
    }

    pub open spec fn trashed_project() -> spec_fn(ProjectView) -> bool {
        |p: ProjectView| p.deleted_at is Some
    }

    /// The projects in the trash, the one deleted last first; projects
    /// deleted at the same time keep the order of the table.
    pub open spec fn trashed_projects(self) -> Seq<ProjectView> {
        listed(Order::LastDeletedFirst, self.projects.filter(Self::trashed_project()))
    }

    /// The active projects, oldest first; projects created at the same time
    /// keep the order of the table.
    pub open spec fn active_projects(self) -> Seq<ProjectView> {
        listed(Order::OldestFirst, self.projects.filter(Self::active_project()))
    }
}

/// Appending a project under a free id keeps the integrity rules.
pub proof fn lemma_push_project(t: Tables, id: Seq<char>, now: Seq<char>, input: CreateProjectView)
    requires
        t.wf(),
    ensures
        t.insert_project(id, now, input).0.wf(),
        t.insert_project(id, now, input).1 is Ok ==> puts_row(
            t.projects,
            t.insert_project(id, now, input).0.projects,
            Tables::new_project(id, now, input),
        ),
{
    if !t.has_project(id) {
        lemma_push_puts(t.projects, Tables::new_project(id, now, input));
        let row = Tables::new_project(id, now, input);
        let after = t.projects.push(row);
        let n = t.projects.len() as int;
        assert forall|i: int, j: int| 0 <= i < j < after.len() implies after[i].key()
            != after[j].key() by {
            if j == n {
                assert(!row_at(t.projects, i, id));
            }
        }
        assert forall|i: int| 0 <= i < t.trees.len() implies match (#[trigger] t.trees[i]).project_id {
            Some(p) => has_row(after, p),
            None => true,
        } by {
            if t.trees[i].project_id is Some {
                let p = t.trees[i].project_id->0;
                assert(has_row(t.projects, p));
                let k = row_index(t.projects, p);
                assert(row_at(t.projects, k, p));
                assert(row_at(after, k, p));
            }
        }
    }
}

/// Replacing a project by a row with the same id keeps the integrity rules,
/// and the row is then the one found under that id.
pub proof fn lemma_edit_project(t: Tables, id: Seq<char>, row: ProjectView)
    requires
        t.wf(),
        t.has_project(id),
        row.id == id,
    ensures
        t.with_project(id, row).wf(),
        t.with_project(id, row).has_project(id),
        t.with_project(id, row).project(id) == row,
        puts_row(t.projects, t.with_project(id, row).projects, row),
{
    lemma_update_puts(t.projects, row);
    let k = row_index(t.projects, id);
    assert(row_at(t.projects, k, id));
    let after = t.projects.update(k, row);
    lemma_same_keys(t.projects, after);
    assert forall|i: int| 0 <= i < t.trees.len() implies match (#[trigger] t.trees[i]).project_id {
        Some(p) => has_row(after, p),
        None => true,
    } by {
        if t.trees[i].project_id is Some {
            assert(has_row(t.projects, t.trees[i].project_id->0));
        }
    }
    assert(has_row(after, id));
    assert(row_index(after, id) == k);
}

/// Purging a project with its trees and their nodes keeps the integrity
/// rules.
pub proof fn lemma_purge_project(t: Tables, id: Seq<char>)
    requires
        t.wf(),
    ensures
        t.purge_project(id).0.wf(),
        keeps_rows(t.projects, t.purge_project(id).0.projects),
        keeps_rows(t.trees, t.purge_project(id).0.trees),
        keeps_rows(t.nodes, t.purge_project(id).0.nodes),
        !t.purge_project(id).0.has_project(id),
{
    lemma_filter_rows(t.projects, Tables::other_project(id));
    lemma_filter_rows(t.trees, Tables::tree_outside_project(id));
    lemma_filter_rows(t.nodes, t.node_outside_project(id));
    if t.has_project(id) {
        assert(row_at(t.projects, row_index(t.projects, id), id));
    }
    if t.has_project(id) {
        let keep_project = Tables::other_project(id);
        let keep_tree = Tables::tree_outside_project(id);
        let keep_node = t.node_outside_project(id);
        let projects = t.projects.filter(keep_project);
        let trees = t.trees.filter(keep_tree);
        let nodes = t.nodes.filter(keep_node);
        lemma_filter_nodes(t.nodes, keep_node);
        assert forall|a: int| 0 <= a < trees.len() implies match (#[trigger] trees[a]).project_id {
            Some(p) => has_row(projects, p),
            None => true,
        } by {
            lemma_kept_origin(t.trees, keep_tree, a);
            let i = origin(t.trees, keep_tree, a);
            if t.trees[i].project_id is Some {
                let p = t.trees[i].project_id->0;
                assert(has_row(t.projects, p));
                let k = row_index(t.projects, p);
                assert(row_at(t.projects, k, p));
                assert(keep_project(t.projects[k]));
            }
        }
        assert forall|a: int| 0 <= a < nodes.len() implies has_row(
            trees,
            (#[trigger] nodes[a]).tree_id,
        ) by {
            lemma_kept_origin(t.nodes, keep_node, a);
            let key = nodes[a].tree_id;
            assert(has_row(t.trees, key));
            let k = row_index(t.trees, key);
            assert(row_at(t.trees, k, key));
            assert(keep_tree(t.trees[k]));
        }
    }
}

} // verus!
