//! The mathematical model of the store: four tables of rows, each in the
//! order in which its rows were written, but the settings, which are kept
//! sorted by key. Listings do not go by that order but by the stamps of the
//! rows; it decides between rows with equal stamps, and a parent stands
//! before its children in it.
//!
//! Every operation of the crate is a function from [`Tables`] to the tables
//! that follow and the result that the caller sees; on a failure the tables
//! stay as they were.

use vstd::prelude::*;
use crate::models::{NodeView, ProjectView, SettingView, TreeView};
use crate::seqs::{
    lemma_kept_origin, lemma_kept_position, lemma_origin_ordered, lemma_rank_strict, origin, rank,
};
use crate::text::{before, lemma_before_irreflexive};

pub mod nodes;
pub mod order;
pub mod projects;
pub mod settings;
pub mod trees;

verus! {

/// A row that is found by a key of its own.
pub trait Keyed: Sized {
    spec fn key(self) -> Seq<char>;
}

impl Keyed for ProjectView {
    open spec fn key(self) -> Seq<char> {
        self.id
    }
}

impl Keyed for TreeView {
    open spec fn key(self) -> Seq<char> {
        self.id
    }
}

impl Keyed for NodeView {
    open spec fn key(self) -> Seq<char> {
        self.id
    }
}

impl Keyed for SettingView {
    open spec fn key(self) -> Seq<char> {
        self.key
    }
}

/// Row `i` carries `key`.
pub open spec fn row_at<R: Keyed>(rows: Seq<R>, i: int, key: Seq<char>) -> bool {
    0 <= i < rows.len() && rows[i].key() == key
}

/// Some row carries `key`.
pub open spec fn has_row<R: Keyed>(rows: Seq<R>, key: Seq<char>) -> bool {
    exists|i: int| row_at(rows, i, key)
}

/// Where a row that carries `key` stands.
pub open spec fn row_index<R: Keyed>(rows: Seq<R>, key: Seq<char>) -> int {
    choose|i: int| row_at(rows, i, key)
}

/// No two rows share a key.
pub open spec fn distinct<R: Keyed>(rows: Seq<R>) -> bool {
    forall|i: int, j: int| 0 <= i < j < rows.len() ==> rows[i].key() != rows[j].key()
}

/// With distinct keys the row that carries a key is the one found.
pub proof fn lemma_row_found<R: Keyed>(rows: Seq<R>, i: int, key: Seq<char>)
    requires
        distinct(rows),
        row_at(rows, i, key),
    ensures
        has_row(rows, key),
        row_index(rows, key) == i,
{
}

/// Two tables with the same keys, row by row, find the same rows under the
/// same keys.
pub proof fn lemma_same_keys<R: Keyed>(a: Seq<R>, b: Seq<R>)
    requires
        a.len() == b.len(),
        forall|i: int| 0 <= i < a.len() ==> (#[trigger] a[i]).key() == b[i].key(),
        distinct(a),
    ensures
        distinct(b),
        forall|key: Seq<char>| #[trigger] has_row(b, key) == has_row(a, key),
        forall|key: Seq<char>| has_row(a, key) ==> #[trigger] row_index(b, key) == row_index(a, key),
{
    assert forall|i: int, j: int| 0 <= i < j < b.len() implies b[i].key() != b[j].key() by {
        assert(a[i].key() != a[j].key());
    }
    assert forall|key: Seq<char>| #[trigger] has_row(b, key) == has_row(a, key) by {
        if has_row(a, key) {
            let i = row_index(a, key);
            assert(row_at(a, i, key));
            assert(row_at(b, i, key));
        }
        if has_row(b, key) {
            let i = row_index(b, key);
            assert(row_at(b, i, key));
            assert(a[i].key() == b[i].key());
            assert(row_at(a, i, key));
        }
    }
    assert forall|key: Seq<char>| has_row(a, key) implies #[trigger] row_index(b, key) == row_index(
        a,
        key,
    ) by {
        let i = row_index(a, key);
        assert(row_at(a, i, key));
        assert(row_at(b, i, key));
        lemma_row_found(b, i, key);
    }
}

/// `after` is `before` with `row` put under its key: the row is found
/// there, and every other key finds what it found before, or nothing as
/// before.
pub open spec fn puts_row<R: Keyed>(before: Seq<R>, after: Seq<R>, row: R) -> bool {
    &&& has_row(after, row.key())
    &&& after[row_index(after, row.key())] == row
    &&& forall|key: Seq<char>|
        key != row.key() ==> #[trigger] has_row(after, key) == has_row(before, key)
    &&& forall|key: Seq<char>|
        key != row.key() && has_row(before, key) ==> after[#[trigger] row_index(after, key)]
            == before[row_index(before, key)]
}

/// `after` holds no row that `before` did not hold under the same key.
pub open spec fn keeps_rows<R: Keyed>(before: Seq<R>, after: Seq<R>) -> bool {
    forall|key: Seq<char>| #[trigger]
        has_row(after, key) ==> has_row(before, key) && after[row_index(after, key)]
            == before[row_index(before, key)]
}

/// A row that joins a table under a free key, at any place, is put under
/// that key.
pub proof fn lemma_insert_puts<R: Keyed>(rows: Seq<R>, n: int, row: R)
    requires
        distinct(rows),
        !has_row(rows, row.key()),
        0 <= n <= rows.len(),
    ensures
        distinct(rows.insert(n, row)),
        puts_row(rows, rows.insert(n, row), row),
{
    let after = rows.insert(n, row);
    assert forall|i: int, j: int| 0 <= i < j < after.len() implies after[i].key() != after[j].key() by {
        let i0 = if i < n { i } else { i - 1 };
        let j0 = if j < n { j } else { j - 1 };
        if i == n {
            assert(!row_at(rows, j0, row.key()));
        } else if j == n {
            assert(!row_at(rows, i0, row.key()));
        } else {
            assert(rows[i0].key() != rows[j0].key());
        }
    }
    assert(row_at(after, n, row.key()));
    lemma_row_found(after, n, row.key());
    assert forall|key: Seq<char>| key != row.key() implies #[trigger] has_row(after, key) == has_row(
        rows,
        key,
    ) by {
        if has_row(after, key) {
            let a = row_index(after, key);
            assert(row_at(after, a, key));
            assert(row_at(rows, if a < n { a } else { a - 1 }, key));
        }
        if has_row(rows, key) {
            let i = row_index(rows, key);
            assert(row_at(rows, i, key));
            assert(row_at(after, if i < n { i } else { i + 1 }, key));
        }
    }
    assert forall|key: Seq<char>| key != row.key() && has_row(rows, key) implies after[#[trigger] row_index(
        after,
        key,
    )] == rows[row_index(rows, key)] by {
        let i = row_index(rows, key);
        assert(row_at(rows, i, key));
        let a = if i < n { i } else { i + 1 };
        assert(row_at(after, a, key));
        lemma_row_found(after, a, key);
    }
}

/// A row that is appended under a free key is put under that key.
pub proof fn lemma_push_puts<R: Keyed>(rows: Seq<R>, row: R)
    requires
        distinct(rows),
        !has_row(rows, row.key()),
    ensures
        distinct(rows.push(row)),
        puts_row(rows, rows.push(row), row),
{
    lemma_insert_puts(rows, rows.len() as int, row);
    assert(rows.push(row) =~= rows.insert(rows.len() as int, row));
}

/// A row that replaces the row under its key is put under that key.
pub proof fn lemma_update_puts<R: Keyed>(rows: Seq<R>, row: R)
    requires
        distinct(rows),
        has_row(rows, row.key()),
    ensures
        distinct(rows.update(row_index(rows, row.key()), row)),
        puts_row(rows, rows.update(row_index(rows, row.key()), row), row),
{
    let k = row_index(rows, row.key());
    assert(row_at(rows, k, row.key()));
    let after = rows.update(k, row);
    lemma_same_keys(rows, after);
    assert(row_at(after, k, row.key()));
    assert forall|key: Seq<char>| key != row.key() && has_row(rows, key) implies after[#[trigger] row_index(
        after,
        key,
    )] == rows[row_index(rows, key)] by {
        assert(row_at(rows, row_index(rows, key), key));
    }
}

/// A row that is removed leaves the others as they were, and its key free.
pub proof fn lemma_remove_keeps<R: Keyed>(rows: Seq<R>, key: Seq<char>)
    requires
        distinct(rows),
        has_row(rows, key),
    ensures
        distinct(rows.remove(row_index(rows, key))),
        keeps_rows(rows, rows.remove(row_index(rows, key))),
        !has_row(rows.remove(row_index(rows, key)), key),
        forall|other: Seq<char>|
            other != key && has_row(rows, other) ==> #[trigger] has_row(
                rows.remove(row_index(rows, key)),
                other,
            ),
{
    let k = row_index(rows, key);
    assert(row_at(rows, k, key));
    let after = rows.remove(k);
    assert forall|i: int, j: int| 0 <= i < j < after.len() implies after[i].key() != after[j].key() by {
        let i0 = if i < k { i } else { i + 1 };
        let j0 = if j < k { j } else { j + 1 };
        assert(rows[i0].key() != rows[j0].key());
    }
    assert forall|other: Seq<char>| #[trigger] has_row(after, other) implies has_row(rows, other)
        && after[row_index(after, other)] == rows[row_index(rows, other)] && other != key by {
        let a = row_index(after, other);
        assert(row_at(after, a, other));
        let i = if a < k { a } else { a + 1 };
        assert(row_at(rows, i, other));
        lemma_row_found(rows, i, other);
    }
    assert forall|other: Seq<char>| other != key && has_row(rows, other) implies #[trigger] has_row(
        after,
        other,
    ) by {
        let i = row_index(rows, other);
        assert(row_at(rows, i, other));
        assert(row_at(after, if i < k { i } else { i - 1 }, other));
    }
}

/// What a filter leaves of a table with distinct keys: the kept rows, still
/// with distinct keys, each found under its key as before.
pub proof fn lemma_filter_rows<R: Keyed>(rows: Seq<R>, keep: spec_fn(R) -> bool)
    requires
        distinct(rows),
    ensures
        distinct(rows.filter(keep)),
        keeps_rows(rows, rows.filter(keep)),
        forall|key: Seq<char>| #[trigger]
            has_row(rows.filter(keep), key) == (has_row(rows, key) && keep(
                rows[row_index(rows, key)],
            )),
        forall|key: Seq<char>|
            has_row(rows.filter(keep), key) ==> rows.filter(keep)[#[trigger] row_index(
                rows.filter(keep),
                key,
            )] == rows[row_index(rows, key)],
{
    let kept = rows.filter(keep);
    assert forall|a: int, b: int| 0 <= a < b < kept.len() implies kept[a].key() != kept[b].key() by {
        lemma_kept_origin(rows, keep, a);
        lemma_kept_origin(rows, keep, b);
        lemma_origin_ordered(rows, keep, a, b);
    }
    assert forall|key: Seq<char>| #[trigger]
        has_row(kept, key) == (has_row(rows, key) && keep(rows[row_index(rows, key)])) by {
        if has_row(kept, key) {
            let a = row_index(kept, key);
            assert(row_at(kept, a, key));
            lemma_kept_origin(rows, keep, a);
            let i = origin(rows, keep, a);
            assert(row_at(rows, i, key));
            lemma_row_found(rows, i, key);
        }
        if has_row(rows, key) && keep(rows[row_index(rows, key)]) {
            let i = row_index(rows, key);
            assert(row_at(rows, i, key));
            lemma_kept_position(rows, keep, i);
            assert(row_at(kept, rank(rows, keep, i), key));
        }
    }
    assert forall|key: Seq<char>| has_row(kept, key) implies kept[#[trigger] row_index(kept, key)]
        == rows[row_index(rows, key)] by {
        let a = row_index(kept, key);
        assert(row_at(kept, a, key));
        lemma_kept_origin(rows, keep, a);
        let i = origin(rows, keep, a);
        assert(row_at(rows, i, key));
        lemma_row_found(rows, i, key);
    }
}

/// The keys ascend strictly from row to row.
pub open spec fn sorted<R: Keyed>(rows: Seq<R>) -> bool {
    forall|i: int, j: int| 0 <= i < j < rows.len() ==> before(rows[i].key(), rows[j].key())
}

/// Rows in strictly ascending order have distinct keys.
pub proof fn lemma_sorted_distinct<R: Keyed>(rows: Seq<R>)
    requires
        sorted(rows),
    ensures
        distinct(rows),
{
    assert forall|i: int, j: int| 0 <= i < j < rows.len() implies rows[i].key() != rows[j].key() by {
        lemma_before_irreflexive(rows[i].key());
    }
}

/// A tree that names a project names one that exists.
pub open spec fn trees_have_projects(trees: Seq<TreeView>, projects: Seq<ProjectView>) -> bool {
    forall|i: int|
        0 <= i < trees.len() ==> match (#[trigger] trees[i]).project_id {
            Some(p) => has_row(projects, p),
            None => true,
        }
}

/// Every node belongs to a tree that exists.
pub open spec fn nodes_have_trees(nodes: Seq<NodeView>, trees: Seq<TreeView>) -> bool {
    forall|i: int| 0 <= i < nodes.len() ==> has_row(trees, (#[trigger] nodes[i]).tree_id)
}

/// Row `j` is the parent of row `i`: an earlier node of the same tree.
pub open spec fn parent_at(nodes: Seq<NodeView>, i: int, j: int) -> bool {
    &&& 0 <= j < i < nodes.len()
    &&& nodes[i].parent_id == Some(nodes[j].id)
    &&& nodes[j].tree_id == nodes[i].tree_id
}

/// Where the parent of row `i` stands.
pub open spec fn parent_index(nodes: Seq<NodeView>, i: int) -> int {
    choose|j: int| parent_at(nodes, i, j)
}

/// A node that names a parent names an earlier node of its own tree, so
/// every chain of parents ends at a root and none runs in a circle.
pub open spec fn parents_precede(nodes: Seq<NodeView>) -> bool {
    forall|i: int|
        0 <= i < nodes.len() && (#[trigger] nodes[i]).parent_id is Some ==> exists|j: int|
            parent_at(nodes, i, j)
}

/// A filter that keeps the parent of every node it keeps leaves every kept
/// node with its parent before it.
pub proof fn lemma_filter_nodes(nodes: Seq<NodeView>, keep: spec_fn(NodeView) -> bool)
    requires
        distinct(nodes),
        parents_precede(nodes),
        forall|i: int, j: int| #[trigger] parent_at(nodes, i, j) && keep(nodes[i]) ==> keep(nodes[j]),
    ensures
        parents_precede(nodes.filter(keep)),
{
    let kept = nodes.filter(keep);
    assert forall|a: int| 0 <= a < kept.len() && (#[trigger] kept[a]).parent_id is Some implies exists|
        b: int,
    |
        parent_at(kept, a, b) by {
        lemma_kept_origin(nodes, keep, a);
        let i = origin(nodes, keep, a);
        assert(nodes[i].parent_id is Some);
        let j = parent_index(nodes, i);
        assert(parent_at(nodes, i, j));
        lemma_kept_position(nodes, keep, j);
        lemma_rank_strict(nodes, keep, j, i);
        assert(parent_at(kept, a, rank(nodes, keep, j)));
    }
}

/// With distinct ids a node has one parent row at most.
pub proof fn lemma_parent_found(nodes: Seq<NodeView>, i: int, j: int)
    requires
        distinct(nodes),
        parent_at(nodes, i, j),
    ensures
        parent_index(nodes, i) == j,
        row_index(nodes, nodes[i].parent_id->0) == j,
        has_row(nodes, nodes[i].parent_id->0),
{
    assert(row_at(nodes, j, nodes[i].parent_id->0));
}

/// The contents of the store.
#[verifier::ext_equal]
pub struct Tables {
    pub projects: Seq<ProjectView>,
    pub trees: Seq<TreeView>,
    pub nodes: Seq<NodeView>,
    pub settings: Seq<SettingView>,
}

impl Tables {
    /// The store before anything was written.
    pub open spec fn empty() -> Tables {
        Tables {
            projects: Seq::empty(),
            trees: Seq::empty(),
            nodes: Seq::empty(),
            settings: Seq::empty(),
        }
    }

    pub open spec fn has_project(self, id: Seq<char>) -> bool {
        has_row(self.projects, id)
    }

    /// The project with this id, where there is one.
    pub open spec fn project(self, id: Seq<char>) -> ProjectView {
        self.projects[row_index(self.projects, id)]
    }

    pub open spec fn has_tree(self, id: Seq<char>) -> bool {
        has_row(self.trees, id)
    }

    /// The tree with this id, where there is one.
    pub open spec fn tree(self, id: Seq<char>) -> TreeView {
        self.trees[row_index(self.trees, id)]
    }

    pub open spec fn has_node(self, id: Seq<char>) -> bool {
        has_row(self.nodes, id)
    }

    /// The node with this id, where there is one.
    pub open spec fn node(self, id: Seq<char>) -> NodeView {
        self.nodes[row_index(self.nodes, id)]
    }

    pub open spec fn has_setting(self, key: Seq<char>) -> bool {
        has_row(self.settings, key)
    }

    /// The setting with this key, where there is one.
    pub open spec fn setting(self, key: Seq<char>) -> SettingView {
        self.settings[row_index(self.settings, key)]
    }

    /// The integrity rules of the store: ids are unique within a table, the
    /// settings are sorted by key, and every reference from a tree to its
    /// project, from a node to its tree and from a node to its parent leads
    /// to a row that exists.
    pub open spec fn wf(self) -> bool {
        &&& distinct(self.projects)
        &&& distinct(self.trees)
        &&& distinct(self.nodes)
        &&& sorted(self.settings)
        &&& trees_have_projects(self.trees, self.projects)
        &&& nodes_have_trees(self.nodes, self.trees)
        &&& parents_precede(self.nodes)
    }
}

/// The empty store keeps the rules.
pub proof fn lemma_empty_wf()
    ensures
        Tables::empty().wf(),
{
}

} // verus!
