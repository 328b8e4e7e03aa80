//! What each node operation does to the tables.

use vstd::prelude::*;
use crate::error::{AppErrorView, EntityKind};
use crate::models::{CreateNodeView, NodeView, TreeView, UpdateNodeView};
use crate::seqs::{lemma_kept_origin, origin};
use crate::tables::order::{listed, Order};
use crate::tables::{
    distinct, has_row, keeps_rows, lemma_filter_nodes, lemma_filter_rows, lemma_parent_found,
    lemma_push_puts, lemma_row_found, lemma_update_puts, nodes_have_trees, parent_at,
    parent_index, parents_precede, puts_row, row_at, row_index, Keyed, Tables,
};

verus! {

/// Row `i` is row `root` or descends from it along parent links.
pub open spec fn in_subtree(nodes: Seq<NodeView>, i: int, root: int) -> bool
    decreases i,
{
    if i == root {
        true
    } else if parent_at(nodes, i, parent_index(nodes, i)) {
        in_subtree(nodes, parent_index(nodes, i), root)
    } else {
        false
    }
}

/// Row `j` is an active child of the node `id`.
pub open spec fn active_child_at(nodes: Seq<NodeView>, j: int, id: Seq<char>) -> bool {
    &&& 0 <= j < nodes.len()
    &&& nodes[j].parent_id == Some(id)
    &&& nodes[j].deleted_at is None
}

/// Some active node names `id` as its parent.
pub open spec fn has_active_child(nodes: Seq<NodeView>, id: Seq<char>) -> bool {
    exists|j: int| active_child_at(nodes, j, id)
}

/// The rows from the root of its tree down to row `i`, following parent
/// links whatever the deletion state of the rows on the way.
pub open spec fn path_to(nodes: Seq<NodeView>, i: int) -> Seq<NodeView>
    decreases i,
{
    if parent_at(nodes, i, parent_index(nodes, i)) {
        path_to(nodes, parent_index(nodes, i)).push(nodes[i])
    } else {
        seq![nodes[i]]
    }
}

/// `path` climbs down from a root: its first row has no parent, each later
/// row names the row before it as its parent, and all are rows of `nodes`.
pub open spec fn descends_from_root(nodes: Seq<NodeView>, path: Seq<NodeView>) -> bool {
    &&& path.len() >= 1
    &&& path[0].parent_id is None
    &&& forall|k: int| 1 <= k < path.len() ==> (#[trigger] path[k]).parent_id == Some(path[k - 1].id)
    &&& forall|k: int|
        0 <= k < path.len() ==> has_row(nodes, (#[trigger] path[k]).id) && nodes[row_index(
            nodes,
            path[k].id,
        )] == path[k]
}

/// The path to a row climbs down from a root and ends at the row, all
/// within the tree of the row.
pub proof fn lemma_path_shape(nodes: Seq<NodeView>, i: int)
    requires
        distinct(nodes),
        parents_precede(nodes),
        0 <= i < nodes.len(),
    ensures
        descends_from_root(nodes, path_to(nodes, i)),
        path_to(nodes, i).last() == nodes[i],
        forall|k: int|
            0 <= k < path_to(nodes, i).len() ==> (#[trigger] path_to(nodes, i)[k]).tree_id
                == nodes[i].tree_id,
    decreases i,
{
    let path = path_to(nodes, i);
    assert(row_at(nodes, i, nodes[i].id));
    lemma_row_found(nodes, i, nodes[i].id);
    if nodes[i].parent_id is Some {
        let j = parent_index(nodes, i);
        assert(parent_at(nodes, i, j));
        lemma_path_shape(nodes, j);
        let upper = path_to(nodes, j);
        assert(path == upper.push(nodes[i]));
        assert forall|k: int| 1 <= k < path.len() implies (#[trigger] path[k]).parent_id == Some(
            path[k - 1].id,
        ) by {
            if k < upper.len() {
                assert(upper[k] == path[k]);
                assert(upper[k - 1] == path[k - 1]);
            }
        }
        assert forall|k: int| 0 <= k < path.len() implies has_row(nodes, (#[trigger] path[k]).id)
            && nodes[row_index(nodes, path[k].id)] == path[k] by {
            if k < upper.len() {
                assert(upper[k] == path[k]);
            }
        }
        assert forall|k: int| 0 <= k < path.len() implies (#[trigger] path[k]).tree_id
            == nodes[i].tree_id by {
            if k < upper.len() {
                assert(upper[k] == path[k]);
            }
        }
    } else {
        assert(!parent_at(nodes, i, parent_index(nodes, i)));
        assert(path =~= seq![nodes[i]]);
    }
}

impl Tables {
    /// The row that a create writes.
    pub open spec fn new_node(id: Seq<char>, now: Seq<char>, input: CreateNodeView) -> NodeView {
        NodeView {
            id,
            tree_id: input.tree_id,
            parent_id: input.parent_id,
            user_content: input.user_content,
            assistant_content: input.assistant_content,
            summary: input.summary,
            model: input.model,
            tokens: input.tokens,
            created_at: now,
            updated_at: None,
            deleted_at: None,
            failed: false,
        }
    }

    /// The id is free, the tree exists, and the parent, if one is named, is a
    /// node of that tree.
    pub open spec fn accepts_node(self, id: Seq<char>, input: CreateNodeView) -> bool {
        &&& !self.has_node(id)
        &&& self.has_tree(input.tree_id)
        &&& match input.parent_id {
            Some(p) => self.has_node(p) && self.node(p).tree_id == input.tree_id,
            None => true,
        }
    }

    /// Create: appends the new row, or reports a conflict.
    pub open spec fn insert_node(self, id: Seq<char>, now: Seq<char>, input: CreateNodeView) -> (
        Tables,
        Result<NodeView, AppErrorView>,
    ) {
        if self.accepts_node(id, input) && now.len() == 0 {
            (self, Err(AppErrorView::no_time()))
        } else if self.accepts_node(id, input) {
            let row = Self::new_node(id, now, input);
            (Tables { nodes: self.nodes.push(row), ..self }, Ok(row))
        } else {
            (self, Err(AppErrorView::Conflict))
        }
    }

    /// Get: the row with this id, whatever its deletion state.
    pub open spec fn get_node(self, id: Seq<char>) -> Result<NodeView, AppErrorView> {
        if self.has_node(id) {
            Ok(self.node(id))
        } else {
            Err(AppErrorView::NotFound(EntityKind::Node, id))
        }
    }

    /// A row after a patch: each present field takes its new value, the
    /// update stamp is set, and everything else stays.
    pub open spec fn patched_node(row: NodeView, now: Seq<char>, patch: UpdateNodeView) -> NodeView {
        NodeView {
            user_content: match patch.user_content {
                Some(v) => v,
                None => row.user_content,
            },
            assistant_content: match patch.assistant_content {
                Some(v) => v,
                None => row.assistant_content,
            },
            summary: match patch.summary {
                Some(v) => v,
                None => row.summary,
            },
            model: match patch.model {
                Some(v) => v,
                None => row.model,
            },
            tokens: match patch.tokens {
                Some(v) => v,
                None => row.tokens,
            },
            failed: match patch.failed {
                Some(v) => v,
                None => row.failed,
            },
            updated_at: Some(now),
            ..row
        }
    }

    /// There is a row with this id and it is not in the trash.
    pub open spec fn node_is_active(self, id: Seq<char>) -> bool {
        self.has_node(id) && self.node(id).deleted_at is None
    }

    /// There is a row with this id and it is in the trash.
    pub open spec fn node_is_trashed(self, id: Seq<char>) -> bool {
        self.has_node(id) && self.node(id).deleted_at is Some
    }

    /// The tables with the row of this id replaced.
    pub open spec fn with_node(self, id: Seq<char>, row: NodeView) -> Tables {
        Tables { nodes: self.nodes.update(row_index(self.nodes, id), row), ..self }
    }

    /// Update: patches an active row.
    pub open spec fn update_node(self, id: Seq<char>, now: Seq<char>, patch: UpdateNodeView) -> (
        Tables,
        Result<NodeView, AppErrorView>,
    ) {
        if self.node_is_active(id) && now.len() == 0 {
            (self, Err(AppErrorView::no_time()))
        } else if self.node_is_active(id) {
            let row = Self::patched_node(self.node(id), now, patch);
            (self.with_node(id, row), Ok(row))
        } else {
            (self, Err(AppErrorView::NotFound(EntityKind::Node, id)))
        }
    }

    /// Soft delete: stamps an active row as deleted. No other row changes.
    pub open spec fn soft_delete_node(self, id: Seq<char>, now: Seq<char>) -> (
        Tables,
        Result<NodeView, AppErrorView>,
    ) {
        if self.node_is_active(id) && now.len() == 0 {
            (self, Err(AppErrorView::no_time()))
        } else if self.node_is_active(id) {
            let row = NodeView { deleted_at: Some(now), updated_at: Some(now), ..self.node(id) };
            (self.with_node(id, row), Ok(row))
        } else {
            (self, Err(AppErrorView::NotFound(EntityKind::Node, id)))
        }
    }

    /// Restore: clears the deletion stamp of a row in the trash.
    pub open spec fn restore_node(self, id: Seq<char>, now: Seq<char>) -> (
        Tables,
        Result<NodeView, AppErrorView>,
    ) {
        if self.node_is_trashed(id) && now.len() == 0 {
            (self, Err(AppErrorView::no_time()))
        } else if self.node_is_trashed(id) {
            let row = NodeView { deleted_at: None, updated_at: Some(now), ..self.node(id) };
            (self.with_node(id, row), Ok(row))
        } else {
            (self, Err(AppErrorView::NotFound(EntityKind::Node, id)))
        }
    }

    /// The rows that a purge of the node `id` leaves: all but that node and
    /// its descendants.
    pub open spec fn outside_subtree(self, id: Seq<char>) -> spec_fn(NodeView) -> bool {
        |n: NodeView| !in_subtree(self.nodes, row_index(self.nodes, n.id), row_index(self.nodes, id))
    }

    /// Purge: removes the row and every row below it, whatever their
    /// deletion state.
    pub open spec fn purge_node(self, id: Seq<char>) -> (Tables, Result<(), AppErrorView>) {
        if self.has_node(id) {
            (Tables { nodes: self.nodes.filter(self.outside_subtree(id)), ..self }, Ok(()))
        } else {
            (self, Err(AppErrorView::NotFound(EntityKind::Node, id)))
        }
    }

    pub open spec fn active_in_tree(tree_id: Seq<char>) -> spec_fn(NodeView) -> bool {
        |n: NodeView| n.tree_id == tree_id && n.deleted_at is None
    }

    pub open spec fn active_root_in_tree(tree_id: Seq<char>) -> spec_fn(NodeView) -> bool {
        |n: NodeView| n.tree_id == tree_id && n.parent_id is None && n.deleted_at is None
    }

    pub open spec fn active_child_of(parent_id: Seq<char>) -> spec_fn(NodeView) -> bool {
        |n: NodeView| n.parent_id == Some(parent_id) && n.deleted_at is None
    }

    /// The nodes without a parent.
    pub open spec fn without_parent() -> spec_fn(NodeView) -> bool {
        |n: NodeView| n.parent_id is None
    }

    /// The nodes that no active node names as its parent.
    pub open spec fn without_active_child(self) -> spec_fn(NodeView) -> bool {
        |n: NodeView| !has_active_child(self.nodes, n.id)
    }

    pub open spec fn active_leaf_in_tree(self, tree_id: Seq<char>) -> spec_fn(NodeView) -> bool {
        |n: NodeView|
            n.tree_id == tree_id && n.deleted_at is None && !has_active_child(self.nodes, n.id)
    }

    /// The active nodes of a tree, oldest first; nodes created at the same
    /// time keep the order of the table.
    pub open spec fn active_nodes(self, tree_id: Seq<char>) -> Seq<NodeView> {
        listed(Order::OldestFirst, self.nodes.filter(Self::active_in_tree(tree_id)))
    }

    /// The active nodes of a tree that have no parent, oldest first.
    pub open spec fn root_nodes(self, tree_id: Seq<char>) -> Seq<NodeView> {
        listed(Order::OldestFirst, self.nodes.filter(Self::active_root_in_tree(tree_id)))
    }

    /// The active nodes that name `parent_id` as their parent, oldest first.
    pub open spec fn child_nodes(self, parent_id: Seq<char>) -> Seq<NodeView> {
        listed(Order::OldestFirst, self.nodes.filter(Self::active_child_of(parent_id)))
    }

    /// The active nodes of a tree that no active node names as its parent,
    /// oldest first. A node whose children are all in the trash is one.
    pub open spec fn leaf_nodes(self, tree_id: Seq<char>) -> Seq<NodeView> {
        listed(Order::OldestFirst, self.nodes.filter(self.active_leaf_in_tree(tree_id)))
    }

    /// Ancestor path: for an active node, the rows from its root down to it.
    pub open spec fn node_path(self, id: Seq<char>) -> Result<Seq<NodeView>, AppErrorView> {
        if self.node_is_active(id) {
            Ok(path_to(self.nodes, row_index(self.nodes, id)))
        } else {
            Err(AppErrorView::NotFound(EntityKind::Node, id))
        }
    }
}

/// Appending an accepted node keeps the integrity rules.
pub proof fn lemma_push_node(t: Tables, id: Seq<char>, now: Seq<char>, input: CreateNodeView)
    requires
        t.wf(),
    ensures
        t.insert_node(id, now, input).0.wf(),
        t.insert_node(id, now, input).1 is Ok ==> puts_row(
            t.nodes,
            t.insert_node(id, now, input).0.nodes,
            Tables::new_node(id, now, input),
        ),
{
    if t.accepts_node(id, input) {
        lemma_push_puts(t.nodes, Tables::new_node(id, now, input));
        let row = Tables::new_node(id, now, input);
        let after = t.nodes.push(row);
        let n = t.nodes.len() as int;
        assert forall|i: int, j: int| 0 <= i < j < after.len() implies after[i].key()
            != after[j].key() by {
            if j == n {
                assert(!row_at(t.nodes, i, id));
            }
        }
        assert forall|i: int| 0 <= i < after.len() implies has_row(
            t.trees,
            (#[trigger] after[i]).tree_id,
        ) by {
            if i < n {
                assert(has_row(t.trees, t.nodes[i].tree_id));
            }
        }
        assert forall|i: int| 0 <= i < after.len() && (#[trigger] after[i]).parent_id
            is Some implies exists|j: int| parent_at(after, i, j) by {
            if i < n {
                assert(t.nodes[i].parent_id is Some);
                let j = parent_index(t.nodes, i);
                assert(parent_at(t.nodes, i, j));
                assert(parent_at(after, i, j));
            } else {
                let j = row_index(t.nodes, input.parent_id->0);
                assert(row_at(t.nodes, j, input.parent_id->0));
                assert(parent_at(after, i, j));
            }
        }
    }
}

/// Two tables of nodes with the same ids, trees and parents, row by row.
pub open spec fn same_links(a: Seq<NodeView>, b: Seq<NodeView>) -> bool {
    &&& a.len() == b.len()
    &&& forall|i: int|
        0 <= i < a.len() ==> (#[trigger] a[i]).id == b[i].id && a[i].tree_id == b[i].tree_id
            && a[i].parent_id == b[i].parent_id
}

/// What depends on the links alone holds of both tables or of neither.
pub proof fn lemma_same_links(a: Seq<NodeView>, b: Seq<NodeView>, trees: Seq<TreeView>)
    requires
        same_links(a, b),
        distinct(a),
        nodes_have_trees(a, trees),
        parents_precede(a),
    ensures
        distinct(b),
        nodes_have_trees(b, trees),
        parents_precede(b),
        forall|id: Seq<char>| #[trigger] has_row(b, id) == has_row(a, id),
        forall|id: Seq<char>| has_row(a, id) ==> #[trigger] row_index(b, id) == row_index(a, id),
        forall|i: int, j: int| #[trigger] parent_at(b, i, j) == parent_at(a, i, j),
{
    assert forall|i: int, j: int| 0 <= i < j < b.len() implies b[i].key() != b[j].key() by {
        assert(a[i].key() != a[j].key());
    }
    assert forall|i: int| 0 <= i < b.len() implies has_row(trees, (#[trigger] b[i]).tree_id) by {
        assert(has_row(trees, a[i].tree_id));
    }
    assert forall|i: int, j: int| #[trigger] parent_at(b, i, j) == parent_at(a, i, j) by {
        if 0 <= j < i < a.len() {
            assert(a[i].id == b[i].id);
            assert(a[j].id == b[j].id);
        }
    }
    assert forall|i: int| 0 <= i < b.len() && (#[trigger] b[i]).parent_id is Some implies exists|
        j: int,
    |
        parent_at(b, i, j) by {
        assert(a[i].parent_id is Some);
        let j = parent_index(a, i);
        assert(parent_at(a, i, j));
        assert(parent_at(b, i, j));
    }
    assert forall|id: Seq<char>| #[trigger] has_row(b, id) == has_row(a, id) by {
        if has_row(a, id) {
            let i = row_index(a, id);
            assert(row_at(a, i, id));
            assert(row_at(b, i, id));
        }
        if has_row(b, id) {
            let i = row_index(b, id);
            assert(row_at(b, i, id));
            assert(row_at(a, i, id));
        }
    }
    assert forall|id: Seq<char>| has_row(a, id) implies #[trigger] row_index(b, id) == row_index(
        a,
        id,
    ) by {
        let i = row_index(a, id);
        assert(row_at(a, i, id));
        assert(row_at(b, i, id));
        lemma_row_found(b, i, id);
    }
}

/// Replacing a node by a row with the same id, tree and parent keeps the
/// integrity rules, and the row is then the one found under that id.
pub proof fn lemma_edit_node(t: Tables, id: Seq<char>, row: NodeView)
    requires
        t.wf(),
        t.has_node(id),
        row.id == id,
        row.tree_id == t.node(id).tree_id,
        row.parent_id == t.node(id).parent_id,
    ensures
        t.with_node(id, row).wf(),
        same_links(t.nodes, t.with_node(id, row).nodes),
        t.with_node(id, row).has_node(id),
        t.with_node(id, row).node(id) == row,
        puts_row(t.nodes, t.with_node(id, row).nodes, row),
{
    lemma_update_puts(t.nodes, row);
    let k = row_index(t.nodes, id);
    assert(row_at(t.nodes, k, id));
    let after = t.nodes.update(k, row);
    assert(same_links(t.nodes, after));
    lemma_same_links(t.nodes, after, t.trees);
    assert(has_row(after, id));
    assert(row_index(after, id) == k);
}

/// What a filter leaves of the nodes still belongs to trees that exist.
pub proof fn lemma_filter_nodes_have_trees(
    nodes: Seq<NodeView>,
    trees: Seq<TreeView>,
    keep: spec_fn(NodeView) -> bool,
)
    requires
        nodes_have_trees(nodes, trees),
    ensures
        nodes_have_trees(nodes.filter(keep), trees),
{
    let kept = nodes.filter(keep);
    assert forall|a: int| 0 <= a < kept.len() implies has_row(trees, (#[trigger] kept[a]).tree_id) by {
        lemma_kept_origin(nodes, keep, a);
        assert(has_row(trees, nodes[origin(nodes, keep, a)].tree_id));
    }
}

/// A node outside the subtree of `root` has its parent outside it too.
pub proof fn lemma_subtree_closed(nodes: Seq<NodeView>, i: int, j: int, root: int)
    requires
        distinct(nodes),
        parent_at(nodes, i, j),
        in_subtree(nodes, j, root),
    ensures
        in_subtree(nodes, i, root),
{
    lemma_parent_found(nodes, i, j);
}

/// Purging a node with all that descends from it keeps the integrity rules.
pub proof fn lemma_purge_node(t: Tables, id: Seq<char>)
    requires
        t.wf(),
    ensures
        t.purge_node(id).0.wf(),
        keeps_rows(t.nodes, t.purge_node(id).0.nodes),
        !t.purge_node(id).0.has_node(id),
{
    lemma_filter_rows(t.nodes, t.outside_subtree(id));
    if t.has_node(id) {
        assert(row_at(t.nodes, row_index(t.nodes, id), id));
    }
    if t.has_node(id) {
        let keep = t.outside_subtree(id);
        let root = row_index(t.nodes, id);
        assert forall|i: int, j: int| #[trigger]
            parent_at(t.nodes, i, j) && keep(t.nodes[i]) implies keep(t.nodes[j]) by {
            assert(row_at(t.nodes, i, t.nodes[i].id));
            assert(row_at(t.nodes, j, t.nodes[j].id));
            lemma_row_found(t.nodes, i, t.nodes[i].id);
            lemma_row_found(t.nodes, j, t.nodes[j].id);
            if in_subtree(t.nodes, j, root) {
                lemma_subtree_closed(t.nodes, i, j, root);
            }
        }
        lemma_filter_nodes(t.nodes, keep);
        lemma_filter_nodes_have_trees(t.nodes, t.trees, keep);
    }
}

} // verus!
