//! Operations on trees.

use vstd::prelude::*;
use crate::db::rows::{arrange, find};
use crate::db::Database;
use crate::error::{shown, shown_rows, AppError, AppErrorView, EntityKind};
use crate::ids::fresh_id;
use crate::models::{text_of, views, CreateTree, Node, Tree, TreeView, UpdateTree};
use crate::seqs::{lemma_filter_step, lemma_rank_ends};
use crate::tables::trees::{lemma_edit_tree, lemma_purge_tree, lemma_push_tree};
use crate::tables::order::{lemma_shows, shows, Order};
use crate::tables::{keeps_rows, puts_row, Tables};

verus! {

/// Looks a tree up by its id, whatever its deletion state.
pub fn get_tree(db: &Database, id: String) -> (r: Result<Tree, AppError>)
    ensures
        shown(r) == db@.get_tree(id@),
{
    proof {
        use_type_invariant(db);
    }
    match find(&db.trees, &id) {
        Some(i) => Ok(db.trees[i].clone()),
        None => Err(AppError::NotFound(EntityKind::Tree, id)),
    }
}

/// Whether the project that a tree is to belong to exists; a tree in staging
/// names none.
fn project_exists(db: &Database, project_id: &Option<String>) -> (r: bool)
    ensures
        r == match text_of(*project_id) {
            Some(p) => db@.has_project(p),
            None => true,
        },
{
    proof {
        use_type_invariant(db);
    }
    match project_id {
        Some(p) => find(&db.projects, p).is_some(),
        None => true,
    }
}

/// Creates a tree under a freshly drawn random id.
///
/// The outcome is that of [`insert_tree`] for the id drawn: the new row, or
/// a conflict where the project does not exist or the id was taken, and then
/// the store is as before.
pub fn create_tree(db: &mut Database, now: &str, input: CreateTree) -> (r: Result<Tree, AppError>)
    ensures
        final(db)@.wf(),
        exists|id: Seq<char>|
            id.len() == 36 && final(db)@ == (#[trigger] old(db)@.insert_tree(id, now@, input@)).0
                && shown(r) == old(db)@.insert_tree(id, now@, input@).1,
        r is Ok ==> puts_row(old(db)@.trees, final(db)@.trees, r->Ok_0@),
{
    let id = fresh_id();
    let ghost drawn = id@;
    let r = insert_tree(db, id, now, input);
    proof {
        assert(db@ == old(db)@.insert_tree(drawn, now@, input@).0);
    }
    r
}

/// Writes a new tree under the id that the caller has drawn for it.
///
/// The write is refused as a conflict where the id is taken or the project
/// that the tree names does not exist.
pub fn insert_tree(db: &mut Database, id: String, now: &str, input: CreateTree) -> (r: Result<
    Tree,
    AppError,
>)
    ensures
        final(db)@.wf(),
        final(db)@ == old(db)@.insert_tree(id@, now@, input@).0,
        shown(r) == old(db)@.insert_tree(id@, now@, input@).1,
        r is Ok ==> puts_row(old(db)@.trees, final(db)@.trees, r->Ok_0@),
{
    proof {
        use_type_invariant(&*db);
    }
    if find(&db.trees, &id).is_some() {
        return Err(AppError::Conflict);
    }
    if !project_exists(db, &input.project_id) {
        return Err(AppError::Conflict);
    }
    if now.is_empty() {
        return Err(AppError::no_time());
    }
    let row = Tree {
        id,
        project_id: input.project_id,
        name: input.name,
        system_prompt: input.system_prompt,
        created_at: now.to_owned(),
        updated_at: None,
        deleted_at: None,
    };
    let out = row.clone();
    proof {
        lemma_push_tree(db@, id@, now@, input@);
    }
    let (mut trees, nodes) = db.take_trees();
    trees.push(row);
    proof {
        assert(views(trees@) =~= old(db)@.trees.push(row@));
    }
    db.give_trees(trees, nodes);
    Ok(out)
}

/// Patches an active tree: each field that the patch holds takes its new
/// value, the update stamp is set to `now`, and nothing else changes. The id
/// cannot be patched. A patch that names a project that does not exist is
/// refused as a conflict and leaves the row as it was.
pub fn update_tree(db: &mut Database, id: String, now: &str, input: UpdateTree) -> (r: Result<
    Tree,
    AppError,
>)
    ensures
        final(db)@.wf(),
        final(db)@ == old(db)@.update_tree(id@, now@, input@).0,
        shown(r) == old(db)@.update_tree(id@, now@, input@).1,
        r is Ok ==> puts_row(old(db)@.trees, final(db)@.trees, r->Ok_0@),
{
    proof {
        use_type_invariant(&*db);
    }
    let i = match find(&db.trees, &id) {
        Some(i) => i,
        None => {
            return Err(AppError::NotFound(EntityKind::Tree, id));
        },
    };
    if db.trees[i].deleted_at.is_some() {
        return Err(AppError::NotFound(EntityKind::Tree, id));
    }
    let mut row = db.trees[i].clone();
    match input.project_id {
        Some(v) => {
            if !project_exists(db, &v) {
                return Err(AppError::Conflict);
            }
            row.project_id = v;
        },
        None => {},
    }
    match input.name {
        Some(v) => {
            row.name = v;
        },
        None => {},
    }
    match input.system_prompt {
        Some(v) => {
            row.system_prompt = v;
        },
        None => {},
    }
    if now.is_empty() {
        return Err(AppError::no_time());
    }
    row.updated_at = Some(now.to_owned());
    let out = row.clone();
    proof {
        assert(db@.trees[i as int].project_id is Some ==> db@.has_project(
            db@.trees[i as int].project_id->0,
        ));
        lemma_edit_tree(db@, id@, row@);
    }
    let (mut trees, nodes) = db.take_trees();
    trees.set(i, row);
    proof {
        assert(views(trees@) =~= old(db)@.trees.update(i as int, row@));
    }
    db.give_trees(trees, nodes);
    Ok(out)
}

/// Moves an active tree to the trash. Its nodes stay as they are.
pub fn delete_tree(db: &mut Database, id: String, now: &str) -> (r: Result<Tree, AppError>)
    ensures
        final(db)@.wf(),
        final(db)@ == old(db)@.soft_delete_tree(id@, now@).0,
        shown(r) == old(db)@.soft_delete_tree(id@, now@).1,
        r is Ok ==> puts_row(old(db)@.trees, final(db)@.trees, r->Ok_0@),
{
    proof {
        use_type_invariant(&*db);
    }
    let i = match find(&db.trees, &id) {
        Some(i) => i,
        None => {
            return Err(AppError::NotFound(EntityKind::Tree, id));
        },
    };
    if db.trees[i].deleted_at.is_some() {
        return Err(AppError::NotFound(EntityKind::Tree, id));
    }
    if now.is_empty() {
        return Err(AppError::no_time());
    }
    let mut row = db.trees[i].clone();
    row.deleted_at = Some(now.to_owned());
    row.updated_at = Some(now.to_owned());
    let out = row.clone();
    proof {
        assert(db@.trees[i as int].project_id is Some ==> db@.has_project(
            db@.trees[i as int].project_id->0,
        ));
        lemma_edit_tree(db@, id@, row@);
    }
    let (mut trees, nodes) = db.take_trees();
    trees.set(i, row);
    proof {
        assert(views(trees@) =~= old(db)@.trees.update(i as int, row@));
    }
    db.give_trees(trees, nodes);
    Ok(out)
}

/// Takes a tree out of the trash.
pub fn restore_tree(db: &mut Database, id: String, now: &str) -> (r: Result<Tree, AppError>)
    ensures
        final(db)@.wf(),
        final(db)@ == old(db)@.restore_tree(id@, now@).0,
        shown(r) == old(db)@.restore_tree(id@, now@).1,
        r is Ok ==> puts_row(old(db)@.trees, final(db)@.trees, r->Ok_0@),
{
    proof {
        use_type_invariant(&*db);
    }
    let i = match find(&db.trees, &id) {
        Some(i) => i,
        None => {
            return Err(AppError::NotFound(EntityKind::Tree, id));
        },
    };
    if db.trees[i].deleted_at.is_none() {
        return Err(AppError::NotFound(EntityKind::Tree, id));
    }
    if now.is_empty() {
        return Err(AppError::no_time());
    }
    let mut row = db.trees[i].clone();
    row.deleted_at = None;
    row.updated_at = Some(now.to_owned());
    let out = row.clone();
    proof {
        assert(db@.trees[i as int].project_id is Some ==> db@.has_project(
            db@.trees[i as int].project_id->0,
        ));
        lemma_edit_tree(db@, id@, row@);
    }
    let (mut trees, nodes) = db.take_trees();
    trees.set(i, row);
    proof {
        assert(views(trees@) =~= old(db)@.trees.update(i as int, row@));
    }
    db.give_trees(trees, nodes);
    Ok(out)
}

/// Removes a tree for good, and with it every node of the tree, whatever
/// their deletion state. Other trees and their nodes stay.
pub fn permanently_delete_tree(db: &mut Database, id: String) -> (r: Result<(), AppError>)
    ensures
        final(db)@.wf(),
        final(db)@ == old(db)@.purge_tree(id@).0,
        shown(r) == old(db)@.purge_tree(id@).1,
        r is Ok ==> !final(db)@.has_tree(id@),
        keeps_rows(old(db)@.trees, final(db)@.trees),
        keeps_rows(old(db)@.nodes, final(db)@.nodes),
{
    proof {
        use_type_invariant(&*db);
    }
    if find(&db.trees, &id).is_none() {
        return Err(AppError::NotFound(EntityKind::Tree, id));
    }
    let ghost tree_rows = db@.trees;
    let ghost keep_tree = Tables::other_tree(id@);
    let mut trees: Vec<Tree> = Vec::new();
    let mut i: usize = 0;
    proof {
        lemma_rank_ends(tree_rows, keep_tree);
        assert(tree_rows.take(0).filter(keep_tree) =~= views(trees@));
    }
    while i < db.trees.len()
        invariant
            i <= db.trees.len(),
            tree_rows == db@.trees,
            keep_tree == Tables::other_tree(id@),
            views(trees@) == tree_rows.take(i as int).filter(keep_tree),
        decreases db.trees.len() - i,
    {
        let row = &db.trees[i];
        proof {
            lemma_filter_step(tree_rows, keep_tree, i as int);
        }
        if row.id != id {
            let ghost before = trees@;
            trees.push(row.clone());
            assert(views(trees@) =~= views(before).push(tree_rows[i as int]));
        }
        i = i + 1;
    }
    let ghost node_rows = db@.nodes;
    let ghost keep_node = Tables::outside_tree(id@);
    let mut nodes: Vec<Node> = Vec::new();
    let mut k: usize = 0;
    proof {
        assert(tree_rows.take(i as int) =~= tree_rows);
        lemma_rank_ends(node_rows, keep_node);
        assert(node_rows.take(0).filter(keep_node) =~= views(nodes@));
    }
    while k < db.nodes.len()
        invariant
            k <= db.nodes.len(),
            node_rows == db@.nodes,
            keep_node == Tables::outside_tree(id@),
            views(nodes@) == node_rows.take(k as int).filter(keep_node),
        decreases db.nodes.len() - k,
    {
        let row = &db.nodes[k];
        proof {
            lemma_filter_step(node_rows, keep_node, k as int);
        }
        if row.tree_id != id {
            let ghost before = nodes@;
            nodes.push(row.clone());
            assert(views(nodes@) =~= views(before).push(node_rows[k as int]));
        }
        k = k + 1;
    }
    proof {
        assert(node_rows.take(k as int) =~= node_rows);
        lemma_purge_tree(db@, id@);
    }
    db.take_trees();
    db.give_trees(trees, nodes);
    Ok(())
}

/// The active trees, oldest first by their creation stamp: those of one
/// project, or all of them where no project is named. Trees created at the
/// same time keep the order of the table.
pub fn list_trees(db: &Database, project_id: Option<String>) -> (r: Result<Vec<Tree>, AppError>)
    ensures
        shown_rows(r) == Ok::<Seq<TreeView>, AppErrorView>(db@.active_trees(text_of(project_id))),
        r is Ok && shows(Order::OldestFirst, views(r->Ok_0@), db@.trees, Tables::listed_tree(text_of(project_id))),
{
    proof {
        use_type_invariant(db);
        lemma_shows(Order::OldestFirst, db@.trees, Tables::listed_tree(text_of(project_id)));
    }
    let ghost rows = db@.trees;
    let ghost keep = Tables::listed_tree(text_of(project_id));
    let mut out: Vec<Tree> = Vec::new();
    let mut i: usize = 0;
    proof {
        lemma_rank_ends(rows, keep);
        assert(rows.take(0).filter(keep) =~= views(out@));
    }
    while i < db.trees.len()
        invariant
            i <= db.trees.len(),
            rows == db@.trees,
            keep == Tables::listed_tree(text_of(project_id)),
            views(out@) == rows.take(i as int).filter(keep),
        decreases db.trees.len() - i,
    {
        let row = &db.trees[i];
        proof {
            lemma_filter_step(rows, keep, i as int);
        }
        let wanted = match &project_id {
            Some(p) => row.is_in_project(p),
            None => true,
        };
        if wanted && row.deleted_at.is_none() {
            let ghost before = out@;
            out.push(row.clone());
            assert(views(out@) =~= views(before).push(rows[i as int]));
        }
        i = i + 1;
    }
    proof {
        assert(rows.take(i as int) =~= rows);
    }
    Ok(arrange(&out, Order::OldestFirst))
}

/// The active trees that belong to no project, oldest first by their
/// creation stamp.
pub fn list_staging_trees(db: &Database) -> (r: Result<Vec<Tree>, AppError>)
    ensures
        shown_rows(r) == Ok::<Seq<TreeView>, AppErrorView>(db@.staging_trees()),
        r is Ok && shows(Order::OldestFirst, views(r->Ok_0@), db@.trees, Tables::active_staging_tree()),
{
    proof {
        use_type_invariant(db);
        lemma_shows(Order::OldestFirst, db@.trees, Tables::active_staging_tree());
    }
    let ghost rows = db@.trees;
    let ghost keep = Tables::active_staging_tree();
    let mut out: Vec<Tree> = Vec::new();
    let mut i: usize = 0;
    proof {
        lemma_rank_ends(rows, keep);
        assert(rows.take(0).filter(keep) =~= views(out@));
    }
    while i < db.trees.len()
        invariant
            i <= db.trees.len(),
            rows == db@.trees,
            keep == Tables::active_staging_tree(),
            views(out@) == rows.take(i as int).filter(keep),
        decreases db.trees.len() - i,
    {
        let row = &db.trees[i];
        proof {
            lemma_filter_step(rows, keep, i as int);
        }
        if row.project_id.is_none() && row.deleted_at.is_none() {
            let ghost before = out@;
            out.push(row.clone());
            assert(views(out@) =~= views(before).push(rows[i as int]));
        }
        i = i + 1;
    }
    proof {
        assert(rows.take(i as int) =~= rows);
    }
    Ok(arrange(&out, Order::OldestFirst))
}

/// The trees in the trash, the one deleted last first; trees deleted at the
/// same time keep the order of the table.
pub fn list_deleted_trees(db: &Database) -> (r: Result<Vec<Tree>, AppError>)
    ensures
        shown_rows(r) == Ok::<Seq<TreeView>, AppErrorView>(db@.trashed_trees()),
        r is Ok && shows(Order::LastDeletedFirst, views(r->Ok_0@), db@.trees, Tables::trashed_tree()),
{
    proof {
        use_type_invariant(db);
        lemma_shows(Order::LastDeletedFirst, db@.trees, Tables::trashed_tree());
    }
    let ghost rows = db@.trees;
    let ghost keep = Tables::trashed_tree();
    let mut out: Vec<Tree> = Vec::new();
    let mut i: usize = 0;
    proof {
        lemma_rank_ends(rows, keep);
        assert(rows.take(0).filter(keep) =~= views(out@));
    }
    while i < db.trees.len()
        invariant
            i <= db.trees.len(),
            rows == db@.trees,
            keep == Tables::trashed_tree(),
            views(out@) == rows.take(i as int).filter(keep),
        decreases db.trees.len() - i,
    {
        let row = &db.trees[i];
        proof {
            lemma_filter_step(rows, keep, i as int);
        }
        if row.deleted_at.is_some() {
            let ghost before = out@;
            out.push(row.clone());
            assert(views(out@) =~= views(before).push(rows[i as int]));
        }
        i = i + 1;
    }
    proof {
        assert(rows.take(i as int) =~= rows);
    }
    Ok(arrange(&out, Order::LastDeletedFirst))
}

} // verus!
