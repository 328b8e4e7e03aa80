//! Operations on nodes.

use vstd::prelude::*;
use crate::db::rows::{arrange, find};
use crate::db::Database;
use crate::error::{shown, shown_rows, AppError, AppErrorView, EntityKind};
use crate::ids::fresh_id;
use crate::models::{views, CreateNode, Node, NodeView, UpdateNode};
use crate::seqs::{lemma_filter_step, lemma_rank_ends};
use crate::tables::nodes::{
    active_child_at, descends_from_root, has_active_child, in_subtree, lemma_edit_node,
    lemma_path_shape, lemma_purge_node, lemma_push_node, path_to,
};
use crate::tables::order::{lemma_shows, shows, Order};
use crate::tables::{
    keeps_rows, lemma_parent_found, lemma_row_found, parent_at, parent_index, puts_row, row_at,
    row_index, Tables,
};

verus! {

/// Looks a node up by its id, whatever its deletion state.
pub fn get_node(db: &Database, id: String) -> (r: Result<Node, AppError>)
    ensures
        shown(r) == db@.get_node(id@),
{
    proof {
        use_type_invariant(db);
    }
    match find(&db.nodes, &id) {
        Some(i) => Ok(db.nodes[i].clone()),
        None => Err(AppError::NotFound(EntityKind::Node, id)),
    }
}

/// Creates a node under a freshly drawn random id.
///
/// The outcome is that of [`insert_node`] for the id drawn: the new row, or
/// a conflict where the tree or the parent does not fit or the id was taken,
/// and then the store is as before.
pub fn create_node(db: &mut Database, now: &str, input: CreateNode) -> (r: Result<Node, AppError>)
    ensures
        final(db)@.wf(),
        exists|id: Seq<char>|
            id.len() == 36 && final(db)@ == (#[trigger] old(db)@.insert_node(id, now@, input@)).0
                && shown(r) == old(db)@.insert_node(id, now@, input@).1,
        r is Ok ==> puts_row(old(db)@.nodes, final(db)@.nodes, r->Ok_0@),
{
    let id = fresh_id();
    let ghost drawn = id@;
    let r = insert_node(db, id, now, input);
    proof {
        assert(db@ == old(db)@.insert_node(drawn, now@, input@).0);
    }
    r
}

/// Writes a new node under the id that the caller has drawn for it.
///
/// The write is refused as a conflict where the id is taken, the tree does
/// not exist, or the parent is not a node of that tree.
pub fn insert_node(db: &mut Database, id: String, now: &str, input: CreateNode) -> (r: Result<
    Node,
    AppError,
>)
    ensures
        final(db)@.wf(),
        final(db)@ == old(db)@.insert_node(id@, now@, input@).0,
        shown(r) == old(db)@.insert_node(id@, now@, input@).1,
        r is Ok ==> puts_row(old(db)@.nodes, final(db)@.nodes, r->Ok_0@),
{
    proof {
        use_type_invariant(&*db);
    }
    if find(&db.nodes, &id).is_some() {
        return Err(AppError::Conflict);
    }
    if find(&db.trees, &input.tree_id).is_none() {
        return Err(AppError::Conflict);
    }
    match &input.parent_id {
        Some(p) => match find(&db.nodes, p) {
            Some(j) => {
                if db.nodes[j].tree_id != input.tree_id {
                    return Err(AppError::Conflict);
                }
            },
            None => {
                return Err(AppError::Conflict);
            },
        },
        None => {},
    }
    if now.is_empty() {
        return Err(AppError::no_time());
    }
    let row = Node {
        id,
        tree_id: input.tree_id,
        parent_id: input.parent_id,
        user_content: input.user_content,
        assistant_content: input.assistant_content,
        summary: input.summary,
        model: input.model,
        tokens: input.tokens,
        created_at: now.to_owned(),
        updated_at: None,
        deleted_at: None,
        failed: false,
    };
    let out = row.clone();
    proof {
        lemma_push_node(db@, id@, now@, input@);
    }
    let mut rows = db.take_nodes();
    rows.push(row);
    proof {
        assert(views(rows@) =~= old(db)@.nodes.push(row@));
    }
    db.give_nodes(rows);
    Ok(out)
}

/// Patches an active node: each field that the patch holds takes its new
/// value, the update stamp is set to `now`, and nothing else changes. The id,
/// the tree and the parent of a node cannot be patched.
pub fn update_node(db: &mut Database, id: String, now: &str, input: UpdateNode) -> (r: Result<
    Node,
    AppError,
>)
    ensures
        final(db)@.wf(),
        final(db)@ == old(db)@.update_node(id@, now@, input@).0,
        shown(r) == old(db)@.update_node(id@, now@, input@).1,
        r is Ok ==> puts_row(old(db)@.nodes, final(db)@.nodes, r->Ok_0@),
{
    proof {
        use_type_invariant(&*db);
    }
    let i = match find(&db.nodes, &id) {
        Some(i) => i,
        None => {
            return Err(AppError::NotFound(EntityKind::Node, id));
        },
    };
    if db.nodes[i].deleted_at.is_some() {
        return Err(AppError::NotFound(EntityKind::Node, id));
    }
    let mut row = db.nodes[i].clone();
    match input.user_content {
        Some(v) => {
            row.user_content = v;
        },
        None => {},
    }
    match input.assistant_content {
        Some(v) => {
            row.assistant_content = v;
        },
        None => {},
    }
    match input.summary {
        Some(v) => {
            row.summary = v;
        },
        None => {},
    }
    match input.model {
        Some(v) => {
            row.model = v;
        },
        None => {},
    }
    match input.tokens {
        Some(v) => {
            row.tokens = v;
        },
        None => {},
    }
    match input.failed {
        Some(v) => {
            row.failed = v;
        },
        None => {},
    }
    if now.is_empty() {
        return Err(AppError::no_time());
    }
    row.updated_at = Some(now.to_owned());
    let out = row.clone();
    proof {
        lemma_edit_node(db@, id@, row@);
    }
    let mut rows = db.take_nodes();
    rows.set(i, row);
    proof {
        assert(views(rows@) =~= old(db)@.nodes.update(i as int, row@));
    }
    db.give_nodes(rows);
    Ok(out)
}

/// Moves an active node to the trash. Its children stay as they are.
pub fn delete_node(db: &mut Database, id: String, now: &str) -> (r: Result<Node, AppError>)
    ensures
        final(db)@.wf(),
        final(db)@ == old(db)@.soft_delete_node(id@, now@).0,
        shown(r) == old(db)@.soft_delete_node(id@, now@).1,
        r is Ok ==> puts_row(old(db)@.nodes, final(db)@.nodes, r->Ok_0@),
{
    proof {
        use_type_invariant(&*db);
    }
    let i = match find(&db.nodes, &id) {
        Some(i) => i,
        None => {
            return Err(AppError::NotFound(EntityKind::Node, id));
        },
    };
    if db.nodes[i].deleted_at.is_some() {
        return Err(AppError::NotFound(EntityKind::Node, id));
    }
    if now.is_empty() {
        return Err(AppError::no_time());
    }
    let mut row = db.nodes[i].clone();
    row.deleted_at = Some(now.to_owned());
    row.updated_at = Some(now.to_owned());
    let out = row.clone();
    proof {
        lemma_edit_node(db@, id@, row@);
    }
    let mut rows = db.take_nodes();
    rows.set(i, row);
    proof {
        assert(views(rows@) =~= old(db)@.nodes.update(i as int, row@));
    }
    db.give_nodes(rows);
    Ok(out)
}

/// Takes a node out of the trash.
pub fn restore_node(db: &mut Database, id: String, now: &str) -> (r: Result<Node, AppError>)
    ensures
        final(db)@.wf(),
        final(db)@ == old(db)@.restore_node(id@, now@).0,
        shown(r) == old(db)@.restore_node(id@, now@).1,
        r is Ok ==> puts_row(old(db)@.nodes, final(db)@.nodes, r->Ok_0@),
{
    proof {
        use_type_invariant(&*db);
    }
    let i = match find(&db.nodes, &id) {
        Some(i) => i,
        None => {
            return Err(AppError::NotFound(EntityKind::Node, id));
        },
    };
    if db.nodes[i].deleted_at.is_none() {
        return Err(AppError::NotFound(EntityKind::Node, id));
    }
    if now.is_empty() {
        return Err(AppError::no_time());
    }
    let mut row = db.nodes[i].clone();
    row.deleted_at = None;
    row.updated_at = Some(now.to_owned());
    let out = row.clone();
    proof {
        lemma_edit_node(db@, id@, row@);
    }
    let mut rows = db.take_nodes();
    rows.set(i, row);
    proof {
        assert(views(rows@) =~= old(db)@.nodes.update(i as int, row@));
    }
    db.give_nodes(rows);
    Ok(out)
}

/// Removes a node for good, and with it every node below it, whatever their
/// deletion state.
pub fn permanently_delete_node(db: &mut Database, id: String) -> (r: Result<(), AppError>)
    ensures
        final(db)@.wf(),
        final(db)@ == old(db)@.purge_node(id@).0,
        shown(r) == old(db)@.purge_node(id@).1,
        r is Ok ==> !final(db)@.has_node(id@),
        keeps_rows(old(db)@.nodes, final(db)@.nodes),
{
    proof {
        use_type_invariant(&*db);
    }
    let root = match find(&db.nodes, &id) {
        Some(i) => i,
        None => {
            return Err(AppError::NotFound(EntityKind::Node, id));
        },
    };
    let ghost rows = db@.nodes;
    let ghost keep = db@.outside_subtree(id@);
    let mut gone: Vec<bool> = Vec::new();
    let mut kept: Vec<Node> = Vec::new();
    let mut i: usize = 0;
    proof {
        lemma_rank_ends(rows, keep);
        assert(rows.take(0).filter(keep) =~= views(kept@));
    }
    while i < db.nodes.len()
        invariant
            i <= db.nodes.len(),
            db@.wf(),
            rows == db@.nodes,
            keep == db@.outside_subtree(id@),
            root == row_index(rows, id@),
            gone.len() == i,
            forall|k: int| 0 <= k < i ==> gone[k] == in_subtree(rows, k, root as int),
            views(kept@) == rows.take(i as int).filter(keep),
        decreases db.nodes.len() - i,
    {
        let row = &db.nodes[i];
        let lost = if i == root {
            true
        } else {
            match &row.parent_id {
                Some(p) => match find(&db.nodes, p) {
                    Some(j) => if j < i {
                        gone[j]
                    } else {
                        false
                    },
                    None => false,
                },
                None => false,
            }
        };
        proof {
            assert(row_at(rows, i as int, rows[i as int].id));
            lemma_row_found(rows, i as int, rows[i as int].id);
            if rows[i as int].parent_id is Some {
                let j = parent_index(rows, i as int);
                assert(parent_at(rows, i as int, j));
                lemma_parent_found(rows, i as int, j);
            }
            assert(lost == in_subtree(rows, i as int, root as int));
            assert(keep(rows[i as int]) == !lost);
            lemma_filter_step(rows, keep, i as int);
        }
        gone.push(lost);
        if !lost {
            let ghost before = kept@;
            kept.push(row.clone());
            assert(views(kept@) =~= views(before).push(rows[i as int]));
        }
        i = i + 1;
    }
    proof {
        assert(rows.take(i as int) =~= rows);
        lemma_purge_node(db@, id@);
    }
    db.give_nodes(kept);
    Ok(())
}

/// The active nodes of a tree, oldest first by their creation stamp; nodes
/// created at the same time keep the order of the table.
pub fn list_nodes(db: &Database, tree_id: String) -> (r: Result<Vec<Node>, AppError>)
    ensures
        shown_rows(r) == Ok::<Seq<NodeView>, AppErrorView>(db@.active_nodes(tree_id@)),
        r is Ok && shows(Order::OldestFirst, views(r->Ok_0@), db@.nodes, Tables::active_in_tree(tree_id@)),
{
    proof {
        use_type_invariant(db);
        lemma_shows(Order::OldestFirst, db@.nodes, Tables::active_in_tree(tree_id@));
    }
    let ghost rows = db@.nodes;
    let ghost keep = Tables::active_in_tree(tree_id@);
    let mut out: Vec<Node> = Vec::new();
    let mut i: usize = 0;
    proof {
        lemma_rank_ends(rows, keep);
        assert(rows.take(0).filter(keep) =~= views(out@));
    }
    while i < db.nodes.len()
        invariant
            i <= db.nodes.len(),
            rows == db@.nodes,
            keep == Tables::active_in_tree(tree_id@),
            views(out@) == rows.take(i as int).filter(keep),
        decreases db.nodes.len() - i,
    {
        let row = &db.nodes[i];
        proof {
            lemma_filter_step(rows, keep, i as int);
        }
        if row.tree_id == tree_id && row.deleted_at.is_none() {
            let ghost before = out@;
            out.push(row.clone());
            assert(views(out@) =~= views(before).push(rows[i as int]));
        }
        i = i + 1;
    }
    proof {
        assert(rows.take(i as int) =~= rows);
    }
    Ok(arrange(&out, Order::OldestFirst))
}

/// The active nodes of a tree that have no parent, oldest first by their
/// creation stamp.
pub fn get_root_nodes(db: &Database, tree_id: String) -> (r: Result<Vec<Node>, AppError>)
    ensures
        shown_rows(r) == Ok::<Seq<NodeView>, AppErrorView>(db@.root_nodes(tree_id@)),
        r is Ok && shows(Order::OldestFirst, views(r->Ok_0@), db@.nodes, Tables::active_root_in_tree(tree_id@)),
{
    proof {
        use_type_invariant(db);
        lemma_shows(Order::OldestFirst, db@.nodes, Tables::active_root_in_tree(tree_id@));
    }
    let ghost rows = db@.nodes;
    let ghost keep = Tables::active_root_in_tree(tree_id@);
    let mut out: Vec<Node> = Vec::new();
    let mut i: usize = 0;
    proof {
        lemma_rank_ends(rows, keep);
        assert(rows.take(0).filter(keep) =~= views(out@));
    }
    while i < db.nodes.len()
        invariant
            i <= db.nodes.len(),
            rows == db@.nodes,
            keep == Tables::active_root_in_tree(tree_id@),
            views(out@) == rows.take(i as int).filter(keep),
        decreases db.nodes.len() - i,
    {
        let row = &db.nodes[i];
        proof {
            lemma_filter_step(rows, keep, i as int);
        }
        if row.tree_id == tree_id && row.parent_id.is_none() && row.deleted_at.is_none() {
            let ghost before = out@;
            out.push(row.clone());
            assert(views(out@) =~= views(before).push(rows[i as int]));
        }
        i = i + 1;
    }
    proof {
        assert(rows.take(i as int) =~= rows);
    }
    Ok(arrange(&out, Order::OldestFirst))
}

/// The active nodes that name `parent_id` as their parent, oldest first by
/// their creation stamp.
pub fn get_child_nodes(db: &Database, parent_id: String) -> (r: Result<Vec<Node>, AppError>)
    ensures
        shown_rows(r) == Ok::<Seq<NodeView>, AppErrorView>(db@.child_nodes(parent_id@)),
        r is Ok && shows(Order::OldestFirst, views(r->Ok_0@), db@.nodes, Tables::active_child_of(parent_id@)),
{
    proof {
        use_type_invariant(db);
        lemma_shows(Order::OldestFirst, db@.nodes, Tables::active_child_of(parent_id@));
    }
    let ghost rows = db@.nodes;
    let ghost keep = Tables::active_child_of(parent_id@);
    let mut out: Vec<Node> = Vec::new();
    let mut i: usize = 0;
    proof {
        lemma_rank_ends(rows, keep);
        assert(rows.take(0).filter(keep) =~= views(out@));
    }
    while i < db.nodes.len()
        invariant
            i <= db.nodes.len(),
            rows == db@.nodes,
            keep == Tables::active_child_of(parent_id@),
            views(out@) == rows.take(i as int).filter(keep),
        decreases db.nodes.len() - i,
    {
        let row = &db.nodes[i];
        proof {
            lemma_filter_step(rows, keep, i as int);
        }
        if row.is_child_of(&parent_id) && row.deleted_at.is_none() {
            let ghost before = out@;
            out.push(row.clone());
            assert(views(out@) =~= views(before).push(rows[i as int]));
        }
        i = i + 1;
    }
    proof {
        assert(rows.take(i as int) =~= rows);
    }
    Ok(arrange(&out, Order::OldestFirst))
}

/// Whether some active node names `id` as its parent.
fn has_live_child(rows: &Vec<Node>, id: &String) -> (r: bool)
    ensures
        r == has_active_child(views(rows@), id@),
{
    let mut j: usize = 0;
    while j < rows.len()
        invariant
            j <= rows.len(),
            forall|k: int| 0 <= k < j ==> !active_child_at(views(rows@), k, id@),
        decreases rows.len() - j,
    {
        if rows[j].is_child_of(id) && rows[j].deleted_at.is_none() {
            assert(active_child_at(views(rows@), j as int, id@));
            return true;
        }
        j = j + 1;
    }
    false
}

/// The active nodes of a tree that no active node names as its parent,
/// oldest first by their creation stamp. A node whose children are all in
/// the trash counts.
pub fn get_leaf_nodes(db: &Database, tree_id: String) -> (r: Result<Vec<Node>, AppError>)
    ensures
        shown_rows(r) == Ok::<Seq<NodeView>, AppErrorView>(db@.leaf_nodes(tree_id@)),
        r is Ok && shows(Order::OldestFirst, views(r->Ok_0@), db@.nodes, db@.active_leaf_in_tree(tree_id@)),
{
    proof {
        use_type_invariant(db);
        lemma_shows(Order::OldestFirst, db@.nodes, db@.active_leaf_in_tree(tree_id@));
    }
    let ghost rows = db@.nodes;
    let ghost keep = db@.active_leaf_in_tree(tree_id@);
    let mut out: Vec<Node> = Vec::new();
    let mut i: usize = 0;
    proof {
        lemma_rank_ends(rows, keep);
        assert(rows.take(0).filter(keep) =~= views(out@));
    }
    while i < db.nodes.len()
        invariant
            i <= db.nodes.len(),
            rows == db@.nodes,
            keep == db@.active_leaf_in_tree(tree_id@),
            views(out@) == rows.take(i as int).filter(keep),
        decreases db.nodes.len() - i,
    {
        let row = &db.nodes[i];
        proof {
            lemma_filter_step(rows, keep, i as int);
        }
        if row.tree_id == tree_id && row.deleted_at.is_none() && !has_live_child(&db.nodes, &row.id) {
            let ghost before = out@;
            out.push(row.clone());
            assert(views(out@) =~= views(before).push(rows[i as int]));
        }
        i = i + 1;
    }
    proof {
        assert(rows.take(i as int) =~= rows);
    }
    Ok(arrange(&out, Order::OldestFirst))
}

/// The nodes from the root of the tree down to an active node, root first.
///
/// Only the deletion state of the node itself decides whether there is a
/// path: ancestors in the trash are part of it.
pub fn get_node_path(db: &Database, node_id: String) -> (r: Result<Vec<Node>, AppError>)
    ensures
        shown_rows(r) == db@.node_path(node_id@),
        r is Ok ==> descends_from_root(db@.nodes, views(r->Ok_0@)) && views(r->Ok_0@).last()
            == db@.node(node_id@),
{
    proof {
        use_type_invariant(db);
        if db@.node_is_active(node_id@) {
            let at = row_index(db@.nodes, node_id@);
            assert(row_at(db@.nodes, at, node_id@));
            lemma_path_shape(db@.nodes, at);
        }
    }
    let start = match find(&db.nodes, &node_id) {
        Some(i) => i,
        None => {
            return Err(AppError::NotFound(EntityKind::Node, node_id));
        },
    };
    if db.nodes[start].deleted_at.is_some() {
        return Err(AppError::NotFound(EntityKind::Node, node_id));
    }
    let ghost rows = db@.nodes;
    let mut up: Vec<Node> = Vec::new();
    let mut cur: usize = start;
    let mut done = false;
    proof {
        assert(path_to(rows, start as int) =~= path_to(rows, cur as int) + views(up@).reverse());
    }
    while !done
        invariant
            cur < db.nodes.len(),
            db@.wf(),
            rows == db@.nodes,
            !done ==> path_to(rows, start as int) == path_to(rows, cur as int) + views(
                up@,
            ).reverse(),
            done ==> path_to(rows, start as int) == views(up@).reverse(),
        decreases
                if done {
                    0
                } else {
                    cur + 1
                },
    {
        let ghost before = up@;
        let ghost here = cur as int;
        up.push(db.nodes[cur].clone());
        proof {
            assert(views(up@).reverse() =~= seq![rows[here]] + views(before).reverse());
        }
        match &db.nodes[cur].parent_id {
            Some(p) => {
                proof {
                    let j = parent_index(rows, here);
                    assert(parent_at(rows, here, j));
                    lemma_parent_found(rows, here, j);
                    assert(path_to(rows, here) == path_to(rows, j).push(rows[here]));
                    assert(path_to(rows, j).push(rows[here]) + views(before).reverse() =~= path_to(
                        rows,
                        j,
                    ) + (seq![rows[here]] + views(before).reverse()));
                }
                match find(&db.nodes, p) {
                    Some(j) => {
                        cur = j;
                    },
                    None => {
                        done = true;
                    },
                }
            },
            None => {
                proof {
                    assert(path_to(rows, here) == seq![rows[here]]);
                    assert(seq![rows[here]] + views(before).reverse() =~= views(up@).reverse());
                }
                done = true;
            },
        }
    }
    let mut out: Vec<Node> = Vec::new();
    let mut k: usize = up.len();
    while k > 0
        invariant
            k <= up.len(),
            out.len() == up.len() - k,
            forall|a: int| 0 <= a < out.len() ==> out[a] == up[up.len() - 1 - a],
        decreases k,
    {
        k = k - 1;
        out.push(up[k].clone());
    }
    proof {
        assert(views(out@) =~= views(up@).reverse());
    }
    Ok(out)
}

} // verus!
