//! Operations on projects.

use vstd::prelude::*;
use crate::db::rows::{arrange, find};
use crate::db::Database;
use crate::error::{shown, shown_rows, AppError, AppErrorView, EntityKind};
use crate::ids::fresh_id;
use crate::models::{views, CreateProject, Node, Project, ProjectView, Tree, UpdateProject};
use crate::seqs::{lemma_filter_step, lemma_rank_ends};
use crate::tables::projects::{lemma_edit_project, lemma_purge_project, lemma_push_project};
use crate::tables::order::{lemma_shows, shows, Order};
use crate::tables::{keeps_rows, puts_row, Tables};

verus! {

/// Looks a project up by its id, whatever its deletion state.
pub fn get_project(db: &Database, id: String) -> (r: Result<Project, AppError>)
    ensures
        shown(r) == db@.get_project(id@),
{
    proof {
        use_type_invariant(db);
    }
    match find(&db.projects, &id) {
        Some(i) => Ok(db.projects[i].clone()),
        None => Err(AppError::NotFound(EntityKind::Project, id)),
    }
}

/// Creates a project under a freshly drawn random id.
///
/// The outcome is that of [`insert_project`] for the id drawn: the new row,
/// or a conflict where the id was taken, and then the store is as before.
pub fn create_project(db: &mut Database, now: &str, input: CreateProject) -> (r: Result<Project, AppError>)
    ensures
        final(db)@.wf(),
        exists|id: Seq<char>|
            id.len() == 36 && final(db)@ == (#[trigger] old(db)@.insert_project(id, now@, input@)).0
                && shown(r) == old(db)@.insert_project(id, now@, input@).1,
        r is Ok ==> puts_row(old(db)@.projects, final(db)@.projects, r->Ok_0@),
{
    let id = fresh_id();
    let ghost drawn = id@;
    let r = insert_project(db, id, now, input);
    proof {
        assert(db@ == old(db)@.insert_project(drawn, now@, input@).0);
    }
    r
}

/// Writes a new project under the id that the caller has drawn for it. The
/// write is refused as a conflict where the id is taken.
pub fn insert_project(db: &mut Database, id: String, now: &str, input: CreateProject) -> (r: Result<
    Project,
    AppError,
>)
    ensures
        final(db)@.wf(),
        final(db)@ == old(db)@.insert_project(id@, now@, input@).0,
        shown(r) == old(db)@.insert_project(id@, now@, input@).1,
        r is Ok ==> puts_row(old(db)@.projects, final(db)@.projects, r->Ok_0@),
{
    proof {
        use_type_invariant(&*db);
    }
    if find(&db.projects, &id).is_some() {
        return Err(AppError::Conflict);
    }
    if now.is_empty() {
        return Err(AppError::no_time());
    }
    let row = Project {
        id,
        name: input.name,
        created_at: now.to_owned(),
        updated_at: None,
        deleted_at: None,
    };
    let out = row.clone();
    proof {
        lemma_push_project(db@, id@, now@, input@);
    }
    let (mut projects, trees, nodes) = db.take_projects();
    projects.push(row);
    proof {
        assert(views(projects@) =~= old(db)@.projects.push(row@));
    }
    db.give_projects(projects, trees, nodes);
    Ok(out)
}

/// Patches an active project: the name takes its new value if the patch
/// holds one, the update stamp is set to `now`, and nothing else changes.
pub fn update_project(db: &mut Database, id: String, now: &str, input: UpdateProject) -> (r: Result<
    Project,
    AppError,
>)
    ensures
        final(db)@.wf(),
        final(db)@ == old(db)@.update_project(id@, now@, input@).0,
        shown(r) == old(db)@.update_project(id@, now@, input@).1,
        r is Ok ==> puts_row(old(db)@.projects, final(db)@.projects, r->Ok_0@),
{
    proof {
        use_type_invariant(&*db);
    }
    let i = match find(&db.projects, &id) {
        Some(i) => i,
        None => {
            return Err(AppError::NotFound(EntityKind::Project, id));
        },
    };
    if db.projects[i].deleted_at.is_some() {
        return Err(AppError::NotFound(EntityKind::Project, id));
    }
    let mut row = db.projects[i].clone();
    match input.name {
        Some(v) => {
            row.name = v;
        },
        None => {},
    }
    if now.is_empty() {
        return Err(AppError::no_time());
    }
    row.updated_at = Some(now.to_owned());
    let out = row.clone();
    proof {
        lemma_edit_project(db@, id@, row@);
    }
    let (mut projects, trees, nodes) = db.take_projects();
    projects.set(i, row);
    proof {
        assert(views(projects@) =~= old(db)@.projects.update(i as int, row@));
    }
    db.give_projects(projects, trees, nodes);
    Ok(out)
}

/// Moves an active project to the trash. Its trees stay as they are.
pub fn delete_project(db: &mut Database, id: String, now: &str) -> (r: Result<Project, AppError>)
    ensures
        final(db)@.wf(),
        final(db)@ == old(db)@.soft_delete_project(id@, now@).0,
        shown(r) == old(db)@.soft_delete_project(id@, now@).1,
        r is Ok ==> puts_row(old(db)@.projects, final(db)@.projects, r->Ok_0@),
{
    proof {
        use_type_invariant(&*db);
    }
    let i = match find(&db.projects, &id) {
        Some(i) => i,
        None => {
            return Err(AppError::NotFound(EntityKind::Project, id));
        },
    };
    if db.projects[i].deleted_at.is_some() {
        return Err(AppError::NotFound(EntityKind::Project, id));
    }
    if now.is_empty() {
        return Err(AppError::no_time());
    }
    let mut row = db.projects[i].clone();
    row.deleted_at = Some(now.to_owned());
    row.updated_at = Some(now.to_owned());
    let out = row.clone();
    proof {
        lemma_edit_project(db@, id@, row@);
    }
    let (mut projects, trees, nodes) = db.take_projects();
    projects.set(i, row);
    proof {
        assert(views(projects@) =~= old(db)@.projects.update(i as int, row@));
    }
    db.give_projects(projects, trees, nodes);
    Ok(out)
}

/// Takes a project out of the trash.
pub fn restore_project(db: &mut Database, id: String, now: &str) -> (r: Result<Project, AppError>)
    ensures
        final(db)@.wf(),
        final(db)@ == old(db)@.restore_project(id@, now@).0,
        shown(r) == old(db)@.restore_project(id@, now@).1,
        r is Ok ==> puts_row(old(db)@.projects, final(db)@.projects, r->Ok_0@),
{
    proof {
        use_type_invariant(&*db);
    }
    let i = match find(&db.projects, &id) {
        Some(i) => i,
        None => {
            return Err(AppError::NotFound(EntityKind::Project, id));
        },
    };
    if db.projects[i].deleted_at.is_none() {
        return Err(AppError::NotFound(EntityKind::Project, id));
    }
    if now.is_empty() {
        return Err(AppError::no_time());
    }
    let mut row = db.projects[i].clone();
    row.deleted_at = None;
    row.updated_at = Some(now.to_owned());
    let out = row.clone();
    proof {
        lemma_edit_project(db@, id@, row@);
    }
    let (mut projects, trees, nodes) = db.take_projects();
    projects.set(i, row);
    proof {
        assert(views(projects@) =~= old(db)@.projects.update(i as int, row@));
    }
    db.give_projects(projects, trees, nodes);
    Ok(out)
}

/// Removes a project for good, and with it every tree of the project and
/// every node of those trees, whatever their deletion state.
pub fn permanently_delete_project(db: &mut Database, id: String) -> (r: Result<(), AppError>)
    ensures
        final(db)@.wf(),
        final(db)@ == old(db)@.purge_project(id@).0,
        shown(r) == old(db)@.purge_project(id@).1,
        r is Ok ==> !final(db)@.has_project(id@),
        keeps_rows(old(db)@.projects, final(db)@.projects),
        keeps_rows(old(db)@.trees, final(db)@.trees),
        keeps_rows(old(db)@.nodes, final(db)@.nodes),
{
    proof {
        use_type_invariant(&*db);
    }
    if find(&db.projects, &id).is_none() {
        return Err(AppError::NotFound(EntityKind::Project, id));
    }
    let ghost project_rows = db@.projects;
    let ghost keep_project = Tables::other_project(id@);
    let mut projects: Vec<Project> = Vec::new();
    let mut h: usize = 0;
    proof {
        lemma_rank_ends(project_rows, keep_project);
        assert(project_rows.take(0).filter(keep_project) =~= views(projects@));
    }
    while h < db.projects.len()
        invariant
            h <= db.projects.len(),
            project_rows == db@.projects,
            keep_project == Tables::other_project(id@),
            views(projects@) == project_rows.take(h as int).filter(keep_project),
        decreases db.projects.len() - h,
    {
        let row = &db.projects[h];
        proof {
            lemma_filter_step(project_rows, keep_project, h as int);
        }
        if row.id != id {
            let ghost before = projects@;
            projects.push(row.clone());
            assert(views(projects@) =~= views(before).push(project_rows[h as int]));
        }
        h = h + 1;
    }
    let ghost tree_rows = db@.trees;
    let ghost keep_tree = Tables::tree_outside_project(id@);
    let mut trees: Vec<Tree> = Vec::new();
    let mut i: usize = 0;
    proof {
        assert(project_rows.take(h as int) =~= project_rows);
        lemma_rank_ends(tree_rows, keep_tree);
        assert(tree_rows.take(0).filter(keep_tree) =~= views(trees@));
    }
    while i < db.trees.len()
        invariant
            i <= db.trees.len(),
            tree_rows == db@.trees,
            keep_tree == Tables::tree_outside_project(id@),
            views(trees@) == tree_rows.take(i as int).filter(keep_tree),
        decreases db.trees.len() - i,
    {
        let row = &db.trees[i];
        proof {
            lemma_filter_step(tree_rows, keep_tree, i as int);
        }
        if !row.is_in_project(&id) {
            let ghost before = trees@;
            trees.push(row.clone());
            assert(views(trees@) =~= views(before).push(tree_rows[i as int]));
        }
        i = i + 1;
    }
    let ghost node_rows = db@.nodes;
    let ghost keep_node = db@.node_outside_project(id@);
    let mut nodes: Vec<Node> = Vec::new();
    let mut k: usize = 0;
    proof {
        assert(tree_rows.take(i as int) =~= tree_rows);
        lemma_rank_ends(node_rows, keep_node);
        assert(node_rows.take(0).filter(keep_node) =~= views(nodes@));
    }
    while k < db.nodes.len()
        invariant
            k <= db.nodes.len(),
            db@.wf(),
            node_rows == db@.nodes,
            keep_node == db@.node_outside_project(id@),
            views(nodes@) == node_rows.take(k as int).filter(keep_node),
        decreases db.nodes.len() - k,
    {
        let row = &db.nodes[k];
        proof {
            lemma_filter_step(node_rows, keep_node, k as int);
            assert(db@.has_tree(node_rows[k as int].tree_id));
        }
        let stays = match find(&db.trees, &row.tree_id) {
            Some(t) => !db.trees[t].is_in_project(&id),
            None => true,
        };
        if stays {
            let ghost before = nodes@;
            nodes.push(row.clone());
            assert(views(nodes@) =~= views(before).push(node_rows[k as int]));
        }
        k = k + 1;
    }
    proof {
        assert(node_rows.take(k as int) =~= node_rows);
        lemma_purge_project(db@, id@);
    }
    db.take_projects();
    db.give_projects(projects, trees, nodes);
    Ok(())
}

/// The active projects, oldest first by their creation stamp; projects
/// created at the same time keep the order of the table.
pub fn list_projects(db: &Database) -> (r: Result<Vec<Project>, AppError>)
    ensures
        shown_rows(r) == Ok::<Seq<ProjectView>, AppErrorView>(db@.active_projects()),
        r is Ok && shows(Order::OldestFirst, views(r->Ok_0@), db@.projects, Tables::active_project()),
{
    proof {
        use_type_invariant(db);
        lemma_shows(Order::OldestFirst, db@.projects, Tables::active_project());
    }
    let ghost rows = db@.projects;
    let ghost keep = Tables::active_project();
    let mut out: Vec<Project> = Vec::new();
    let mut i: usize = 0;
    proof {
        lemma_rank_ends(rows, keep);
        assert(rows.take(0).filter(keep) =~= views(out@));
    }
    while i < db.projects.len()
        invariant
            i <= db.projects.len(),
            rows == db@.projects,
            keep == Tables::active_project(),
            views(out@) == rows.take(i as int).filter(keep),
        decreases db.projects.len() - i,
    {
        let row = &db.projects[i];
        proof {
            lemma_filter_step(rows, keep, i as int);
        }
        if row.deleted_at.is_none() {
            let ghost before = out@;
            out.push(row.clone());
            assert(views(out@) =~= views(before).push(rows[i as int]));
        }
        i = i + 1;
    }
    proof {
        assert(rows.take(i as int) =~= rows);
    }
    Ok(arrange(&out, Order::OldestFirst))
}

/// The projects in the trash, the one deleted last first; projects deleted at the
/// same time keep the order of the table.
pub fn list_deleted_projects(db: &Database) -> (r: Result<Vec<Project>, AppError>)
    ensures
        shown_rows(r) == Ok::<Seq<ProjectView>, AppErrorView>(db@.trashed_projects()),
        r is Ok && shows(Order::LastDeletedFirst, views(r->Ok_0@), db@.projects, Tables::trashed_project()),
{
    proof {
        use_type_invariant(db);
        lemma_shows(Order::LastDeletedFirst, db@.projects, Tables::trashed_project());
    }
    let ghost rows = db@.projects;
    let ghost keep = Tables::trashed_project();
    let mut out: Vec<Project> = Vec::new();
    let mut i: usize = 0;
    proof {
        lemma_rank_ends(rows, keep);
        assert(rows.take(0).filter(keep) =~= views(out@));
    }
    while i < db.projects.len()
        invariant
            i <= db.projects.len(),
            rows == db@.projects,
            keep == Tables::trashed_project(),
            views(out@) == rows.take(i as int).filter(keep),
        decreases db.projects.len() - i,
    {
        let row = &db.projects[i];
        proof {
            lemma_filter_step(rows, keep, i as int);
        }
        if row.deleted_at.is_some() {
            let ghost before = out@;
            out.push(row.clone());
            assert(views(out@) =~= views(before).push(rows[i as int]));
        }
        i = i + 1;
    }
    proof {
        assert(rows.take(i as int) =~= rows);
    }
    Ok(arrange(&out, Order::LastDeletedFirst))
}

} // verus!
