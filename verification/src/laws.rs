//! What holds of the operations taken together, stated over the model of the
//! tables and proved for every store that keeps the integrity rules.

use vstd::prelude::*;
use crate::db::migrations::{
    applied_by, ledger_after, lemma_run_applies, lemma_run_distinct, lemma_run_records,
    lemma_run_resumes, lemma_run_settled, stop_of,
};
use crate::seqs::{lemma_filter_holds, lemma_filter_twice};
use crate::tables::nodes::has_active_child;
use crate::tables::order::{
    in_order, lemma_listed, lemma_listed_filter, lemma_listed_in_order, Order,
};
use crate::text::before;
use crate::error::{AppErrorView, EntityKind};
use crate::models::{
    CreateNodeView, CreateProjectView, CreateTreeView, NodeView, ProjectView, SettingView, TreeView,
    UpdateNodeView, UpdateProjectView, UpdateTreeView,
};
use crate::tables::nodes::{
    in_subtree, lemma_edit_node, lemma_path_shape, lemma_push_node, lemma_same_links, path_to,
};
use crate::tables::projects::{lemma_edit_project, lemma_push_project};
use crate::tables::settings::lemma_set_setting;
use crate::tables::trees::{lemma_edit_tree, lemma_push_tree};
use crate::tables::{
    lemma_filter_rows, lemma_parent_found, lemma_row_found, lemma_same_keys,
    lemma_sorted_distinct, parent_at, parent_index, row_at, row_index, Keyed, Tables,
};

verus! {

/// A project that was just created is read back as it was written: with the
/// name given, the creation stamp set, and neither updated nor deleted.
pub proof fn law_created_project_is_read_back(
    t: Tables,
    id: Seq<char>,
    now: Seq<char>,
    input: CreateProjectView,
)
    requires
        t.wf(),
        t.insert_project(id, now, input).1 is Ok,
    ensures
        ({
            let (after, made) = t.insert_project(id, now, input);
            &&& after.get_project(id) == made
            &&& made->Ok_0.id == id
            &&& made->Ok_0.name == input.name
            &&& made->Ok_0.created_at == now
            &&& made->Ok_0.created_at.len() > 0
            &&& made->Ok_0.updated_at is None
            &&& made->Ok_0.deleted_at is None
        }),
{
    let after = t.insert_project(id, now, input).0;
    lemma_push_project(t, id, now, input);
    let n = t.projects.len() as int;
    assert(row_at(after.projects, n, id));
    lemma_row_found(after.projects, n, id);
}

/// A tree that was just created is read back as it was written.
pub proof fn law_created_tree_is_read_back(
    t: Tables,
    id: Seq<char>,
    now: Seq<char>,
    input: CreateTreeView,
)
    requires
        t.wf(),
        t.insert_tree(id, now, input).1 is Ok,
    ensures
        ({
            let (after, made) = t.insert_tree(id, now, input);
            &&& after.get_tree(id) == made
            &&& made->Ok_0.id == id
            &&& made->Ok_0.project_id == input.project_id
            &&& made->Ok_0.name == input.name
            &&& made->Ok_0.system_prompt == input.system_prompt
            &&& made->Ok_0.created_at == now
            &&& made->Ok_0.created_at.len() > 0
            &&& made->Ok_0.updated_at is None
            &&& made->Ok_0.deleted_at is None
        }),
{
    let after = t.insert_tree(id, now, input).0;
    lemma_push_tree(t, id, now, input);
    let n = t.trees.len() as int;
    assert(row_at(after.trees, n, id));
    lemma_row_found(after.trees, n, id);
}

/// A node that was just created is read back as it was written.
pub proof fn law_created_node_is_read_back(
    t: Tables,
    id: Seq<char>,
    now: Seq<char>,
    input: CreateNodeView,
)
    requires
        t.wf(),
        t.insert_node(id, now, input).1 is Ok,
    ensures
        ({
            let (after, made) = t.insert_node(id, now, input);
            &&& after.get_node(id) == made
            &&& made->Ok_0.id == id
            &&& made->Ok_0.tree_id == input.tree_id
            &&& made->Ok_0.parent_id == input.parent_id
            &&& made->Ok_0.user_content == input.user_content
            &&& made->Ok_0.assistant_content == input.assistant_content
            &&& made->Ok_0.summary == input.summary
            &&& made->Ok_0.model == input.model
            &&& made->Ok_0.tokens == input.tokens
            &&& made->Ok_0.created_at == now
            &&& made->Ok_0.created_at.len() > 0
            &&& made->Ok_0.updated_at is None
            &&& made->Ok_0.deleted_at is None
            &&& !made->Ok_0.failed
        }),
{
    let after = t.insert_node(id, now, input).0;
    lemma_push_node(t, id, now, input);
    let n = t.nodes.len() as int;
    assert(row_at(after.nodes, n, id));
    lemma_row_found(after.nodes, n, id);
}

/// A setting that was just stored is read back with the key and the value
/// given. Under a key that was free it carries the time of the write as its
/// creation stamp, which is not empty, and no update stamp.
pub proof fn law_stored_setting_is_read_back(
    t: Tables,
    key: Seq<char>,
    value: Seq<char>,
    now: Seq<char>,
)
    requires
        t.wf(),
        t.set_setting(key, value, now).1 is Ok,
    ensures
        ({
            let (after, made) = t.set_setting(key, value, now);
            &&& after.get_setting(key) == made
            &&& after.get_setting_value(key) == Some(value)
            &&& made->Ok_0.key == key
            &&& made->Ok_0.value == value
            &&& !t.has_setting(key) ==> made->Ok_0.created_at == now && made->Ok_0.created_at.len()
                > 0 && made->Ok_0.updated_at is None
        }),
{
    lemma_set_setting(t, key, value, now);
}

/// A write that comes without a time changes nothing and fails. Where
/// nothing else stands against a create or a set, the failure says that the
/// time is missing.
pub proof fn law_write_without_time_is_refused(
    t: Tables,
    id: Seq<char>,
    project: CreateProjectView,
    tree: CreateTreeView,
    node: CreateNodeView,
    value: Seq<char>,
)
    ensures
        ({
            let none = Seq::<char>::empty();
            &&& t.insert_project(id, none, project).0 == t
            &&& t.insert_project(id, none, project).1 is Err
            &&& !t.has_project(id) ==> t.insert_project(id, none, project).1 == Err::<
                ProjectView,
                AppErrorView,
            >(AppErrorView::no_time())
            &&& t.insert_tree(id, none, tree).0 == t
            &&& t.insert_tree(id, none, tree).1 is Err
            &&& t.insert_node(id, none, node).0 == t
            &&& t.insert_node(id, none, node).1 is Err
            &&& t.soft_delete_project(id, none).0 == t
            &&& t.soft_delete_project(id, none).1 is Err
            &&& t.soft_delete_tree(id, none).0 == t
            &&& t.soft_delete_tree(id, none).1 is Err
            &&& t.soft_delete_node(id, none).0 == t
            &&& t.soft_delete_node(id, none).1 is Err
            &&& t.restore_project(id, none).0 == t
            &&& t.restore_project(id, none).1 is Err
            &&& t.restore_tree(id, none).0 == t
            &&& t.restore_tree(id, none).1 is Err
            &&& t.restore_node(id, none).0 == t
            &&& t.restore_node(id, none).1 is Err
            &&& t.set_setting(id, value, none) == (
                t,
                Err::<SettingView, AppErrorView>(AppErrorView::no_time()),
            )
        }),
{
}

/// An update that comes without a time changes nothing and fails.
pub proof fn law_update_without_time_is_refused(
    t: Tables,
    id: Seq<char>,
    project: UpdateProjectView,
    tree: UpdateTreeView,
    node: UpdateNodeView,
)
    ensures
        ({
            let none = Seq::<char>::empty();
            &&& t.update_project(id, none, project).0 == t
            &&& t.update_project(id, none, project).1 is Err
            &&& t.update_tree(id, none, tree).0 == t
            &&& t.update_tree(id, none, tree).1 is Err
            &&& t.update_node(id, none, node).0 == t
            &&& t.update_node(id, none, node).1 is Err
        }),
{
}

/// Trash and restore alternate: an active project can be deleted, then
/// restored, then deleted again, and is then in the trash with the stamp of
/// the last deletion. A second delete of a deleted project and a second
/// restore of a restored one fail as not found.
pub proof fn law_project_trash_alternates(
    t: Tables,
    id: Seq<char>,
    t1: Seq<char>,
    t2: Seq<char>,
    t3: Seq<char>,
    t4: Seq<char>,
)
    requires
        t.wf(),
        t.project_is_active(id),
        t1.len() > 0,
        t2.len() > 0,
        t3.len() > 0,
    ensures
        ({
            let missing = Err::<ProjectView, AppErrorView>(
                AppErrorView::NotFound(EntityKind::Project, id),
            );
            let deleted = t.soft_delete_project(id, t1);
            let restored = deleted.0.restore_project(id, t2);
            let again = restored.0.soft_delete_project(id, t3);
            &&& t.restore_project(id, t4) == (t, missing)
            &&& deleted.1 is Ok
            &&& deleted.0.soft_delete_project(id, t4) == (deleted.0, missing)
            &&& restored.1 is Ok
            &&& restored.0.restore_project(id, t4) == (restored.0, missing)
            &&& again.1 is Ok
            &&& again.0.get_project(id) == again.1
            &&& again.1->Ok_0.deleted_at == Some(t3)
        }),
{
    let deleted = t.soft_delete_project(id, t1);
    lemma_edit_project(t, id, deleted.1->Ok_0);
    let restored = deleted.0.restore_project(id, t2);
    lemma_edit_project(deleted.0, id, restored.1->Ok_0);
    let again = restored.0.soft_delete_project(id, t3);
    lemma_edit_project(restored.0, id, again.1->Ok_0);
}

/// Trash and restore alternate for a tree as they do for a project.
pub proof fn law_tree_trash_alternates(
    t: Tables,
    id: Seq<char>,
    t1: Seq<char>,
    t2: Seq<char>,
    t3: Seq<char>,
    t4: Seq<char>,
)
    requires
        t.wf(),
        t.tree_is_active(id),
        t1.len() > 0,
        t2.len() > 0,
        t3.len() > 0,
    ensures
        ({
            let missing = Err::<TreeView, AppErrorView>(AppErrorView::NotFound(EntityKind::Tree, id));
            let deleted = t.soft_delete_tree(id, t1);
            let restored = deleted.0.restore_tree(id, t2);
            let again = restored.0.soft_delete_tree(id, t3);
            &&& t.restore_tree(id, t4) == (t, missing)
            &&& deleted.1 is Ok
            &&& deleted.0.soft_delete_tree(id, t4) == (deleted.0, missing)
            &&& restored.1 is Ok
            &&& restored.0.restore_tree(id, t4) == (restored.0, missing)
            &&& again.1 is Ok
            &&& again.0.get_tree(id) == again.1
            &&& again.1->Ok_0.deleted_at == Some(t3)
        }),
{
    let k = row_index(t.trees, id);
    assert(row_at(t.trees, k, id));
    assert(t.trees[k].project_id is Some ==> t.has_project(t.trees[k].project_id->0));
    let deleted = t.soft_delete_tree(id, t1);
    lemma_edit_tree(t, id, deleted.1->Ok_0);
    let restored = deleted.0.restore_tree(id, t2);
    lemma_edit_tree(deleted.0, id, restored.1->Ok_0);
    let again = restored.0.soft_delete_tree(id, t3);
    lemma_edit_tree(restored.0, id, again.1->Ok_0);
}

/// Trash and restore alternate for a node as they do for a project.
pub proof fn law_node_trash_alternates(
    t: Tables,
    id: Seq<char>,
    t1: Seq<char>,
    t2: Seq<char>,
    t3: Seq<char>,
    t4: Seq<char>,
)
    requires
        t.wf(),
        t.node_is_active(id),
        t1.len() > 0,
        t2.len() > 0,
        t3.len() > 0,
    ensures
        ({
            let missing = Err::<NodeView, AppErrorView>(AppErrorView::NotFound(EntityKind::Node, id));
            let deleted = t.soft_delete_node(id, t1);
            let restored = deleted.0.restore_node(id, t2);
            let again = restored.0.soft_delete_node(id, t3);
            &&& t.restore_node(id, t4) == (t, missing)
            &&& deleted.1 is Ok
            &&& deleted.0.soft_delete_node(id, t4) == (deleted.0, missing)
            &&& restored.1 is Ok
            &&& restored.0.restore_node(id, t4) == (restored.0, missing)
            &&& again.1 is Ok
            &&& again.0.get_node(id) == again.1
            &&& again.1->Ok_0.deleted_at == Some(t3)
        }),
{
    let deleted = t.soft_delete_node(id, t1);
    lemma_edit_node(t, id, deleted.1->Ok_0);
    let restored = deleted.0.restore_node(id, t2);
    lemma_edit_node(deleted.0, id, restored.1->Ok_0);
    let again = restored.0.soft_delete_node(id, t3);
    lemma_edit_node(restored.0, id, again.1->Ok_0);
}

/// A delete or a restore of an id that no row carries fails as not found and
/// leaves the store as it was.
pub proof fn law_trash_of_unknown_id_fails(t: Tables, id: Seq<char>, now: Seq<char>)
    ensures
        !t.has_project(id) ==> t.soft_delete_project(id, now).1 is Err && t.restore_project(
            id,
            now,
        ).1 is Err && t.purge_project(id) == (
            t,
            Err::<(), AppErrorView>(AppErrorView::NotFound(EntityKind::Project, id)),
        ),
        !t.has_tree(id) ==> t.soft_delete_tree(id, now).1 is Err && t.restore_tree(id, now).1
            is Err && t.purge_tree(id) == (
            t,
            Err::<(), AppErrorView>(AppErrorView::NotFound(EntityKind::Tree, id)),
        ),
        !t.has_node(id) ==> t.soft_delete_node(id, now).1 is Err && t.restore_node(id, now).1
            is Err && t.purge_node(id) == (
            t,
            Err::<(), AppErrorView>(AppErrorView::NotFound(EntityKind::Node, id)),
        ),
{
}

/// Soft delete does not cascade: deleting a tree changes no node, and
/// deleting a project changes no tree and no node.
pub proof fn law_soft_delete_does_not_cascade(t: Tables, id: Seq<char>, now: Seq<char>)
    ensures
        t.soft_delete_tree(id, now).0.nodes == t.nodes,
        t.soft_delete_tree(id, now).0.projects == t.projects,
        t.soft_delete_project(id, now).0.trees == t.trees,
        t.soft_delete_project(id, now).0.nodes == t.nodes,
        t.soft_delete_node(id, now).0.nodes.len() == t.nodes.len(),
        forall|i: int|
            0 <= i < t.nodes.len() && t.nodes[i].id != id ==> #[trigger] t.soft_delete_node(
                id,
                now,
            ).0.nodes[i] == t.nodes[i],
{
    if t.node_is_active(id) {
        let k = row_index(t.nodes, id);
        assert(row_at(t.nodes, k, id));
    }
}

/// Purging a project removes it, every tree that belongs to it and every
/// node of those trees; all other rows stay as they were.
pub proof fn law_purge_project_cascades(t: Tables, id: Seq<char>)
    requires
        t.wf(),
        t.has_project(id),
    ensures
        ({
            let after = t.purge_project(id).0;
            &&& after.wf()
            &&& after.settings == t.settings
            &&& forall|p: Seq<char>| #[trigger] after.has_project(p) == (t.has_project(p) && p != id)
            &&& forall|p: Seq<char>| after.has_project(p) ==> #[trigger] after.project(p) == t.project(p)
            &&& forall|x: Seq<char>| #[trigger]
                after.has_tree(x) == (t.has_tree(x) && t.tree(x).project_id != Some(id))
            &&& forall|x: Seq<char>| after.has_tree(x) ==> #[trigger] after.tree(x) == t.tree(x)
            &&& forall|n: Seq<char>| #[trigger]
                after.has_node(n) == (t.has_node(n) && t.tree(t.node(n).tree_id).project_id != Some(
                    id,
                ))
            &&& forall|n: Seq<char>| after.has_node(n) ==> #[trigger] after.node(n) == t.node(n)
        }),
{
    crate::tables::projects::lemma_purge_project(t, id);
    lemma_filter_rows(t.projects, Tables::other_project(id));
    lemma_filter_rows(t.trees, Tables::tree_outside_project(id));
    lemma_filter_rows(t.nodes, t.node_outside_project(id));
    let after = t.purge_project(id).0;
    assert forall|p: Seq<char>| #[trigger] after.has_project(p) == (t.has_project(p) && p != id) by {
        if t.has_project(p) {
            assert(row_at(t.projects, row_index(t.projects, p), p));
        }
    }
    assert forall|x: Seq<char>| #[trigger]
        after.has_tree(x) == (t.has_tree(x) && t.tree(x).project_id != Some(id)) by {}
    assert forall|n: Seq<char>| #[trigger]
        after.has_node(n) == (t.has_node(n) && t.tree(t.node(n).tree_id).project_id != Some(id)) by {}
}

/// Purging a tree removes it and every node of it; its project, the other
/// trees and their nodes stay as they were.
pub proof fn law_purge_tree_cascades(t: Tables, id: Seq<char>)
    requires
        t.wf(),
        t.has_tree(id),
    ensures
        ({
            let after = t.purge_tree(id).0;
            &&& after.wf()
            &&& after.projects == t.projects
            &&& after.settings == t.settings
            &&& forall|x: Seq<char>| #[trigger] after.has_tree(x) == (t.has_tree(x) && x != id)
            &&& forall|x: Seq<char>| after.has_tree(x) ==> #[trigger] after.tree(x) == t.tree(x)
            &&& forall|n: Seq<char>| #[trigger]
                after.has_node(n) == (t.has_node(n) && t.node(n).tree_id != id)
            &&& forall|n: Seq<char>| after.has_node(n) ==> #[trigger] after.node(n) == t.node(n)
        }),
{
    crate::tables::trees::lemma_purge_tree(t, id);
    lemma_filter_rows(t.trees, Tables::other_tree(id));
    lemma_filter_rows(t.nodes, Tables::outside_tree(id));
    let after = t.purge_tree(id).0;
    assert forall|x: Seq<char>| #[trigger] after.has_tree(x) == (t.has_tree(x) && x != id) by {
        if t.has_tree(x) {
            assert(row_at(t.trees, row_index(t.trees, x), x));
        }
    }
}

/// Purging a node removes it and every node that descends from it; the other
/// nodes, and all trees and projects, stay as they were.
pub proof fn law_purge_node_cascades(t: Tables, id: Seq<char>)
    requires
        t.wf(),
        t.has_node(id),
    ensures
        ({
            let after = t.purge_node(id).0;
            &&& after.wf()
            &&& after.projects == t.projects
            &&& after.trees == t.trees
            &&& after.settings == t.settings
            &&& !after.has_node(id)
            &&& forall|n: Seq<char>| #[trigger]
                after.has_node(n) == (t.has_node(n) && !in_subtree(
                    t.nodes,
                    row_index(t.nodes, n),
                    row_index(t.nodes, id),
                ))
            &&& forall|n: Seq<char>| after.has_node(n) ==> #[trigger] after.node(n) == t.node(n)
            &&& forall|n: Seq<char>|
                t.has_node(n) && t.node(n).parent_id == Some(id) ==> !#[trigger] after.has_node(n)
        }),
{
    crate::tables::nodes::lemma_purge_node(t, id);
    lemma_filter_rows(t.nodes, t.outside_subtree(id));
    let after = t.purge_node(id).0;
    let root = row_index(t.nodes, id);
    assert(row_at(t.nodes, root, id));
    assert forall|n: Seq<char>| #[trigger]
        after.has_node(n) == (t.has_node(n) && !in_subtree(t.nodes, row_index(t.nodes, n), root)) by {
        if t.has_node(n) {
            assert(row_at(t.nodes, row_index(t.nodes, n), n));
        }
    }
    assert forall|n: Seq<char>|
        t.has_node(n) && t.node(n).parent_id == Some(id) implies !#[trigger] after.has_node(n) by {
        let i = row_index(t.nodes, n);
        assert(row_at(t.nodes, i, n));
        let j = parent_index(t.nodes, i);
        assert(parent_at(t.nodes, i, j));
        lemma_parent_found(t.nodes, i, j);
        assert(j == root);
        assert(in_subtree(t.nodes, j, root));
        assert(in_subtree(t.nodes, i, root));
    }
}

/// The path to a node ends at that node, starts at a root, and links each
/// row to the one before it as its parent, all within one tree.
pub proof fn law_path_shape(t: Tables, i: int)
    requires
        t.wf(),
        0 <= i < t.nodes.len(),
    ensures
        ({
            let path = path_to(t.nodes, i);
            &&& path.len() >= 1
            &&& path.last() == t.nodes[i]
            &&& path[0].parent_id is None
            &&& forall|k: int| 0 <= k < path.len() ==> (#[trigger] path[k]).tree_id == t.nodes[i].tree_id
            &&& forall|k: int| 0 <= k < path.len() ==> t.nodes.contains(#[trigger] path[k])
            &&& forall|k: int| 1 <= k < path.len() ==> (#[trigger] path[k]).parent_id == Some(path[k - 1].id)
        }),
{
    lemma_path_shape(t.nodes, i);
    let path = path_to(t.nodes, i);
    assert forall|k: int| 0 <= k < path.len() implies t.nodes.contains(#[trigger] path[k]) by {
        let at = row_index(t.nodes, path[k].id);
        assert(row_at(t.nodes, at, path[k].id));
    }
}

/// There is a path to a node exactly where the node exists and is not in the
/// trash; for a node in the trash, and for an id that no node carries, the
/// path is refused as not found. The path of an active node ends at it and
/// starts at a root.
pub proof fn law_path_needs_an_active_node(t: Tables, id: Seq<char>)
    requires
        t.wf(),
    ensures
        t.node_path(id) is Ok <==> t.has_node(id) && t.node(id).deleted_at is None,
        t.node_path(id) is Err ==> t.node_path(id) == Err::<Seq<NodeView>, AppErrorView>(
            AppErrorView::NotFound(EntityKind::Node, id),
        ),
        t.node_path(id) is Ok ==> t.node_path(id)->Ok_0.last() == t.node(id) && t.node_path(
            id,
        )->Ok_0[0].parent_id is None,
{
    if t.node_is_active(id) {
        let at = row_index(t.nodes, id);
        assert(row_at(t.nodes, at, id));
        lemma_path_shape(t.nodes, at);
    }
}

/// After an update the node is read back with every field of the patch set
/// and the update stamp new; its id, tree, parent, creation stamp and
/// deletion state are as before, and so is every field that the patch does
/// not hold and every other node.
pub proof fn law_updated_node_is_read_back(
    t: Tables,
    id: Seq<char>,
    now: Seq<char>,
    patch: UpdateNodeView,
)
    requires
        t.wf(),
        t.node_is_active(id),
        now.len() > 0,
    ensures
        ({
            let (after, got) = t.update_node(id, now, patch);
            let was = t.node(id);
            &&& got is Ok
            &&& after.get_node(id) == got
            &&& got->Ok_0.updated_at == Some(now)
            &&& got->Ok_0.id == id
            &&& got->Ok_0.tree_id == was.tree_id
            &&& got->Ok_0.parent_id == was.parent_id
            &&& got->Ok_0.created_at == was.created_at
            &&& got->Ok_0.deleted_at == was.deleted_at
            &&& patch.user_content is Some ==> got->Ok_0.user_content == patch.user_content->0
            &&& patch.user_content is None ==> got->Ok_0.user_content == was.user_content
            &&& patch.assistant_content is Some ==> got->Ok_0.assistant_content
                == patch.assistant_content->0
            &&& patch.assistant_content is None ==> got->Ok_0.assistant_content
                == was.assistant_content
            &&& patch.summary is Some ==> got->Ok_0.summary == patch.summary->0
            &&& patch.summary is None ==> got->Ok_0.summary == was.summary
            &&& patch.model is Some ==> got->Ok_0.model == patch.model->0
            &&& patch.model is None ==> got->Ok_0.model == was.model
            &&& patch.tokens is Some ==> got->Ok_0.tokens == patch.tokens->0
            &&& patch.tokens is None ==> got->Ok_0.tokens == was.tokens
            &&& patch.failed is Some ==> got->Ok_0.failed == patch.failed->0
            &&& patch.failed is None ==> got->Ok_0.failed == was.failed
            &&& forall|other: Seq<char>| other != id ==> #[trigger] after.get_node(other) == t.get_node(other)
            &&& after.projects == t.projects
            &&& after.trees == t.trees
            &&& after.settings == t.settings
        }),
{
    let (after, got) = t.update_node(id, now, patch);
    let k = row_index(t.nodes, id);
    assert(row_at(t.nodes, k, id));
    lemma_edit_node(t, id, got->Ok_0);
    lemma_same_links(t.nodes, after.nodes, t.trees);
    assert forall|other: Seq<char>| other != id implies #[trigger] after.get_node(other) == t.get_node(
        other,
    ) by {
        if t.has_node(other) {
            assert(row_at(t.nodes, row_index(t.nodes, other), other));
        }
    }
}

/// After an update the tree is read back with every field of the patch set
/// and the update stamp new; everything else is as before.
pub proof fn law_updated_tree_is_read_back(
    t: Tables,
    id: Seq<char>,
    now: Seq<char>,
    patch: UpdateTreeView,
)
    requires
        t.wf(),
        t.update_tree(id, now, patch).1 is Ok,
    ensures
        ({
            let (after, got) = t.update_tree(id, now, patch);
            let was = t.tree(id);
            &&& after.get_tree(id) == got
            &&& got->Ok_0.updated_at == Some(now)
            &&& got->Ok_0.id == id
            &&& got->Ok_0.created_at == was.created_at
            &&& got->Ok_0.deleted_at == was.deleted_at
            &&& patch.project_id is Some ==> got->Ok_0.project_id == patch.project_id->0
            &&& patch.project_id is None ==> got->Ok_0.project_id == was.project_id
            &&& patch.name is Some ==> got->Ok_0.name == patch.name->0
            &&& patch.name is None ==> got->Ok_0.name == was.name
            &&& patch.system_prompt is Some ==> got->Ok_0.system_prompt == patch.system_prompt->0
            &&& patch.system_prompt is None ==> got->Ok_0.system_prompt == was.system_prompt
            &&& forall|other: Seq<char>| other != id ==> #[trigger] after.get_tree(other) == t.get_tree(other)
            &&& after.projects == t.projects
            &&& after.nodes == t.nodes
            &&& after.settings == t.settings
        }),
{
    let (after, got) = t.update_tree(id, now, patch);
    let k = row_index(t.trees, id);
    assert(row_at(t.trees, k, id));
    assert(t.trees[k].project_id is Some ==> t.has_project(t.trees[k].project_id->0));
    lemma_edit_tree(t, id, got->Ok_0);
    lemma_same_keys(t.trees, after.trees);
    assert forall|other: Seq<char>| other != id implies #[trigger] after.get_tree(other) == t.get_tree(
        other,
    ) by {
        if t.has_tree(other) {
            assert(row_at(t.trees, row_index(t.trees, other), other));
        }
    }
}

/// After an update the project is read back with the name of the patch, if
/// it holds one, and the update stamp new; everything else is as before.
pub proof fn law_updated_project_is_read_back(
    t: Tables,
    id: Seq<char>,
    now: Seq<char>,
    patch: UpdateProjectView,
)
    requires
        t.wf(),
        t.project_is_active(id),
        now.len() > 0,
    ensures
        ({
            let (after, got) = t.update_project(id, now, patch);
            let was = t.project(id);
            &&& got is Ok
            &&& after.get_project(id) == got
            &&& got->Ok_0.updated_at == Some(now)
            &&& got->Ok_0.id == id
            &&& got->Ok_0.created_at == was.created_at
            &&& got->Ok_0.deleted_at == was.deleted_at
            &&& patch.name is Some ==> got->Ok_0.name == patch.name->0
            &&& patch.name is None ==> got->Ok_0.name == was.name
            &&& forall|other: Seq<char>|
                other != id ==> #[trigger] after.get_project(other) == t.get_project(other)
            &&& after.trees == t.trees
            &&& after.nodes == t.nodes
            &&& after.settings == t.settings
        }),
{
    let (after, got) = t.update_project(id, now, patch);
    let k = row_index(t.projects, id);
    assert(row_at(t.projects, k, id));
    lemma_edit_project(t, id, got->Ok_0);
    lemma_same_keys(t.projects, after.projects);
    assert forall|other: Seq<char>| other != id implies #[trigger] after.get_project(other)
        == t.get_project(other) by {
        if t.has_project(other) {
            assert(row_at(t.projects, row_index(t.projects, other), other));
        }
    }
}

/// An update that fails changes nothing.
pub proof fn law_failed_update_changes_nothing(t: Tables, id: Seq<char>, now: Seq<char>)
    ensures
        forall|patch: UpdateProjectView|
            (#[trigger] t.update_project(id, now, patch)).1 is Err ==> t.update_project(
                id,
                now,
                patch,
            ).0 == t,
        forall|patch: UpdateTreeView|
            (#[trigger] t.update_tree(id, now, patch)).1 is Err ==> t.update_tree(id, now, patch).0
                == t,
        forall|patch: UpdateNodeView|
            (#[trigger] t.update_node(id, now, patch)).1 is Err ==> t.update_node(id, now, patch).0
                == t,
{
}

/// Storing a value under a key twice leaves one row under the key, with the
/// value stored last.
pub proof fn law_setting_is_upserted(
    t: Tables,
    key: Seq<char>,
    first: Seq<char>,
    second: Seq<char>,
    t1: Seq<char>,
    t2: Seq<char>,
)
    requires
        t.wf(),
        t1.len() > 0,
        t2.len() > 0,
    ensures
        ({
            let once = t.set_setting(key, first, t1).0;
            let twice = once.set_setting(key, second, t2).0;
            &&& twice.wf()
            &&& twice.get_setting_value(key) == Some(second)
            &&& twice.settings.len() == once.settings.len()
            &&& forall|i: int, j: int|
                0 <= i < twice.settings.len() && 0 <= j < twice.settings.len()
                    && twice.settings[i].key == key && twice.settings[j].key == key ==> i == j
            &&& twice.setting(key).created_at == once.setting(key).created_at
            &&& twice.setting(key).updated_at == Some(t2)
        }),
{
    let once = t.set_setting(key, first, t1).0;
    lemma_set_setting(t, key, first, t1);
    let twice = once.set_setting(key, second, t2).0;
    lemma_set_setting(once, key, second, t2);
    lemma_sorted_distinct(twice.settings);
    assert forall|i: int, j: int|
        0 <= i < twice.settings.len() && 0 <= j < twice.settings.len() && twice.settings[i].key == key
            && twice.settings[j].key == key implies i == j by {
        assert(twice.settings[i].key() == twice.settings[j].key());
    }
}

/// Running the migrations a second time applies none of them and leaves the
/// ledger as the first run left it: every name is in it, and none twice if
/// none was before.
pub proof fn law_migrations_run_once(ledger: Seq<Seq<char>>, names: Seq<Seq<char>>)
    ensures
        ({
            let once = ledger_after(ledger, names);
            &&& applied_by(once, names) == Seq::<int>::empty()
            &&& ledger_after(once, names) == once
            &&& forall|i: int| 0 <= i < names.len() ==> once.contains(#[trigger] names[i])
            &&& ledger.no_duplicates() ==> once.no_duplicates()
        }),
{
    lemma_run_records(ledger, names);
    lemma_run_settled(ledger_after(ledger, names), names);
    if ledger.no_duplicates() {
        lemma_run_distinct(ledger, names);
    }
}

/// A batch that fails ends the run: the migrations before it are applied
/// and recorded as in a run without a failure, its own name is not
/// recorded, and no later migration is applied. The next run takes the work
/// up where it ended: both together leave the ledger as one whole run would.
pub proof fn law_failing_batch_ends_the_run(ledger: Seq<Seq<char>>, names: Seq<Seq<char>>, p: int)
    requires
        0 <= p < names.len(),
        !ledger_after(ledger, names.take(p)).contains(names[p]),
    ensures
        ({
            let stopped = ledger_after(ledger, names.take(p));
            let applied = applied_by(ledger, names.take(p));
            &&& stop_of(ledger, names, Some(p)) == p
            &&& !stopped.contains(names[p])
            &&& forall|a: int| 0 <= a < applied.len() ==> 0 <= #[trigger] applied[a] < p
            &&& ledger_after(stopped, names) == ledger_after(ledger, names)
            &&& ledger.no_duplicates() ==> stopped.no_duplicates()
        }),
{
    lemma_run_applies(ledger, names.take(p));
    lemma_run_resumes(ledger, names, p);
    if ledger.no_duplicates() {
        lemma_run_distinct(ledger, names.take(p));
    }
}

/// The first run applies a migration exactly where its name is new: neither
/// held by the ledger nor carried by an earlier migration of the list.
pub proof fn law_migrations_apply_what_is_new(ledger: Seq<Seq<char>>, names: Seq<Seq<char>>)
    ensures
        forall|i: int| #[trigger]
            applied_by(ledger, names).contains(i) <==> 0 <= i < names.len() && !ledger.contains(
                names[i],
            ) && !names.take(i).contains(names[i]),
        forall|a: int, b: int|
            0 <= a < b < applied_by(ledger, names).len() ==> applied_by(ledger, names)[a]
                < applied_by(ledger, names)[b],
{
    lemma_run_applies(ledger, names);
}

/// The leaves of a tree are its active nodes that no active node names as
/// its parent; a node whose children are all in the trash is among them, and
/// a node in the trash is not. They are listed oldest first.
pub proof fn law_leaves(t: Tables, tree_id: Seq<char>)
    ensures
        forall|n: NodeView| #[trigger]
            t.leaf_nodes(tree_id).contains(n) <==> t.nodes.contains(n) && n.tree_id == tree_id
                && n.deleted_at is None && !has_active_child(t.nodes, n.id),
        in_order(Order::OldestFirst, t.leaf_nodes(tree_id)),
{
    lemma_filter_holds(t.nodes, t.active_leaf_in_tree(tree_id));
    lemma_listed(Order::OldestFirst, t.nodes.filter(t.active_leaf_in_tree(tree_id)));
}

/// The deletion stamp decides where a row is listed: a project without one
/// is in the listing of active projects and not in the trash listing, a
/// project with one is in the trash listing only. The same holds of trees.
pub proof fn law_deletion_state_parts_the_listings(t: Tables)
    ensures
        forall|p: ProjectView| #[trigger]
            t.active_projects().contains(p) <==> t.projects.contains(p) && p.deleted_at is None,
        forall|p: ProjectView| #[trigger]
            t.trashed_projects().contains(p) <==> t.projects.contains(p) && p.deleted_at is Some,
        forall|x: TreeView| #[trigger]
            t.active_trees(None).contains(x) <==> t.trees.contains(x) && x.deleted_at is None,
        forall|x: TreeView| #[trigger]
            t.staging_trees().contains(x) <==> t.trees.contains(x) && x.project_id is None
                && x.deleted_at is None,
        forall|x: TreeView| #[trigger]
            t.trashed_trees().contains(x) <==> t.trees.contains(x) && x.deleted_at is Some,
{
    lemma_filter_holds(t.projects, Tables::active_project());
    lemma_filter_holds(t.projects, Tables::trashed_project());
    lemma_listed(Order::OldestFirst, t.projects.filter(Tables::active_project()));
    lemma_listed(Order::LastDeletedFirst, t.projects.filter(Tables::trashed_project()));
    lemma_filter_holds(t.trees, Tables::active_tree());
    lemma_filter_holds(t.trees, Tables::active_staging_tree());
    lemma_filter_holds(t.trees, Tables::trashed_tree());
    lemma_listed(Order::OldestFirst, t.trees.filter(Tables::listed_tree(None)));
    lemma_listed(Order::OldestFirst, t.trees.filter(Tables::active_staging_tree()));
    lemma_listed(Order::LastDeletedFirst, t.trees.filter(Tables::trashed_tree()));
}

/// The trees listed for a project are the active trees of that project.
pub proof fn law_trees_of_a_project(t: Tables, project_id: Seq<char>)
    ensures
        forall|x: TreeView| #[trigger]
            t.active_trees(Some(project_id)).contains(x) <==> t.trees.contains(x) && x.project_id
                == Some(project_id) && x.deleted_at is None,
{
    lemma_filter_holds(t.trees, Tables::active_tree_in(project_id));
    lemma_listed(Order::OldestFirst, t.trees.filter(Tables::listed_tree(Some(project_id))));
}

/// The listings of nodes show active nodes only: those of the tree, those of
/// the tree without a parent, and those that name the given parent.
pub proof fn law_node_listings(t: Tables, id: Seq<char>)
    ensures
        forall|n: NodeView| #[trigger]
            t.active_nodes(id).contains(n) <==> t.nodes.contains(n) && n.tree_id == id
                && n.deleted_at is None,
        forall|n: NodeView| #[trigger]
            t.root_nodes(id).contains(n) <==> t.nodes.contains(n) && n.tree_id == id
                && n.parent_id is None && n.deleted_at is None,
        forall|n: NodeView| #[trigger]
            t.child_nodes(id).contains(n) <==> t.nodes.contains(n) && n.parent_id == Some(id)
                && n.deleted_at is None,
{
    lemma_filter_holds(t.nodes, Tables::active_in_tree(id));
    lemma_filter_holds(t.nodes, Tables::active_root_in_tree(id));
    lemma_filter_holds(t.nodes, Tables::active_child_of(id));
    lemma_listed(Order::OldestFirst, t.nodes.filter(Tables::active_in_tree(id)));
    lemma_listed(Order::OldestFirst, t.nodes.filter(Tables::active_root_in_tree(id)));
    lemma_listed(Order::OldestFirst, t.nodes.filter(Tables::active_child_of(id)));
}

/// Every listing of active rows is sorted by creation stamp, ascending: no
/// row stands behind one that was created after it. Every trash listing is
/// sorted by deletion stamp, descending. A listing holds as many rows as the
/// table holds of its kind, so none twice.
pub proof fn law_listings_are_sorted(t: Tables, id: Seq<char>, project_id: Option<Seq<char>>)
    ensures
        in_order(Order::OldestFirst, t.active_projects()),
        in_order(Order::OldestFirst, t.active_trees(project_id)),
        in_order(Order::OldestFirst, t.staging_trees()),
        in_order(Order::OldestFirst, t.active_nodes(id)),
        in_order(Order::OldestFirst, t.root_nodes(id)),
        in_order(Order::OldestFirst, t.child_nodes(id)),
        in_order(Order::OldestFirst, t.leaf_nodes(id)),
        in_order(Order::LastDeletedFirst, t.trashed_projects()),
        in_order(Order::LastDeletedFirst, t.trashed_trees()),
        t.active_projects().len() == t.projects.filter(Tables::active_project()).len(),
        t.active_trees(project_id).len() == t.trees.filter(Tables::listed_tree(project_id)).len(),
        t.active_nodes(id).len() == t.nodes.filter(Tables::active_in_tree(id)).len(),
{
    lemma_listed(Order::OldestFirst, t.projects.filter(Tables::active_project()));
    lemma_listed(Order::OldestFirst, t.trees.filter(Tables::listed_tree(project_id)));
    lemma_listed(Order::OldestFirst, t.trees.filter(Tables::active_staging_tree()));
    lemma_listed(Order::OldestFirst, t.nodes.filter(Tables::active_in_tree(id)));
    lemma_listed(Order::OldestFirst, t.nodes.filter(Tables::active_root_in_tree(id)));
    lemma_listed(Order::OldestFirst, t.nodes.filter(Tables::active_child_of(id)));
    lemma_listed(Order::OldestFirst, t.nodes.filter(t.active_leaf_in_tree(id)));
    lemma_listed(Order::LastDeletedFirst, t.projects.filter(Tables::trashed_project()));
    lemma_listed(Order::LastDeletedFirst, t.trees.filter(Tables::trashed_tree()));
}

/// Sorted by creation stamp means what it says: of two rows of a listing of
/// active nodes the later one was not created before the earlier one. The
/// same reading holds of every other listing of active rows.
pub proof fn law_oldest_first_reads_the_stamp(t: Tables, tree_id: Seq<char>, i: int, j: int)
    requires
        0 <= i < j < t.active_nodes(tree_id).len(),
    ensures
        !before(t.active_nodes(tree_id)[j].created_at, t.active_nodes(tree_id)[i].created_at),
{
    lemma_listed(Order::OldestFirst, t.nodes.filter(Tables::active_in_tree(tree_id)));
}

/// Where the rows of a table stand in the order of their creation stamps
/// already, a listing shows the rows it holds in the order of the table.
pub proof fn law_listing_follows_the_table(t: Tables, tree_id: Seq<char>)
    requires
        in_order(Order::OldestFirst, t.nodes.filter(Tables::active_in_tree(tree_id))),
    ensures
        t.active_nodes(tree_id) == t.nodes.filter(Tables::active_in_tree(tree_id)),
{
    lemma_listed_in_order(Order::OldestFirst, t.nodes.filter(Tables::active_in_tree(tree_id)));
}

/// The narrower listings lie within the wider ones, in their order: the
/// roots and the leaves of a tree are the rows of its listing that have no
/// parent, or no active child; the trees of a project and the trees in
/// staging are the rows of the listing of all active trees that belong to
/// the project, or to none.
pub proof fn law_narrow_listings_follow_the_wide(t: Tables, tree_id: Seq<char>, project_id: Seq<char>)
    ensures
        t.root_nodes(tree_id) == t.active_nodes(tree_id).filter(Tables::without_parent()),
        t.leaf_nodes(tree_id) == t.active_nodes(tree_id).filter(t.without_active_child()),
        t.active_trees(Some(project_id)) == t.active_trees(None).filter(Tables::tree_of(project_id)),
        t.staging_trees() == t.active_trees(None).filter(Tables::tree_of_none()),
{
    let active = Tables::active_in_tree(tree_id);
    lemma_listed_filter(Order::OldestFirst, t.nodes.filter(active), Tables::without_parent());
    lemma_filter_twice(
        t.nodes,
        active,
        Tables::without_parent(),
        Tables::active_root_in_tree(tree_id),
    );
    lemma_listed_filter(Order::OldestFirst, t.nodes.filter(active), t.without_active_child());
    lemma_filter_twice(
        t.nodes,
        active,
        t.without_active_child(),
        t.active_leaf_in_tree(tree_id),
    );
    let all = Tables::active_tree();
    lemma_listed_filter(Order::OldestFirst, t.trees.filter(all), Tables::tree_of(project_id));
    lemma_filter_twice(t.trees, all, Tables::tree_of(project_id), Tables::active_tree_in(project_id));
    lemma_listed_filter(Order::OldestFirst, t.trees.filter(all), Tables::tree_of_none());
    lemma_filter_twice(t.trees, all, Tables::tree_of_none(), Tables::active_staging_tree());
}

} // verus!
