use tangential::commands::nodes::insert_node;
use tangential::commands::projects::{
    create_project, delete_project, get_project, insert_project, list_deleted_projects,
    list_projects, permanently_delete_project, restore_project, update_project,
};
use tangential::commands::trees::{insert_tree, list_trees};
use tangential::db::Database;
use tangential::error::{AppError, EntityKind};
use tangential::models::{CreateNode, CreateProject, CreateTree, Project, UpdateProject};

fn named(name: &str) -> CreateProject {
    CreateProject { name: name.to_string() }
}

fn add_project(db: &mut Database, id: &str, now: &str) -> Project {
    insert_project(db, id.to_string(), now, named(id)).unwrap()
}

fn add_tree(db: &mut Database, id: &str, project: Option<&str>) {
    let input = CreateTree {
        project_id: project.map(|p| p.to_string()),
        name: id.to_string(),
        system_prompt: None,
    };
    insert_tree(db, id.to_string(), "now", input).unwrap();
}

fn add_node(db: &mut Database, id: &str, tree: &str, parent: Option<&str>) {
    let input = CreateNode {
        tree_id: tree.to_string(),
        parent_id: parent.map(|p| p.to_string()),
        user_content: id.to_string(),
        assistant_content: None,
        summary: None,
        model: None,
        tokens: None,
    };
    insert_node(db, id.to_string(), "now", input).unwrap();
}

fn project_ids(rows: &[Project]) -> Vec<String> {
    rows.iter().map(|p| p.id.clone()).collect()
}

#[test]
fn created_project_is_read_back_as_written() {
    let mut db = Database::new();
    let made = insert_project(&mut db, "work".to_string(), "2024-01-02 03:04:05", named("Work")).unwrap();
    let expected = Project {
        id: "work".to_string(),
        name: "Work".to_string(),
        created_at: "2024-01-02 03:04:05".to_string(),
        updated_at: None,
        deleted_at: None,
    };
    assert_eq!(made, expected);
    assert_eq!(get_project(&db, "work".to_string()), Ok(expected));
}

#[test]
fn create_project_draws_a_fresh_id_each_time() {
    let mut db = Database::new();
    let a = create_project(&mut db, "now", named("a")).unwrap();
    let b = create_project(&mut db, "now", named("b")).unwrap();
    assert_eq!(a.id.len(), 36);
    assert_eq!(a.id.chars().filter(|c| *c == '-').count(), 4);
    assert_ne!(a.id, b.id);
    assert_eq!(a.name, "a");
    assert_eq!(a.created_at, "now");
    assert_eq!(get_project(&db, b.id.clone()), Ok(b));
    assert_eq!(list_projects(&db).unwrap().len(), 2);
}

#[test]
fn insert_project_under_a_taken_id_is_a_conflict() {
    let mut db = Database::new();
    let first = add_project(&mut db, "work", "t0");
    assert_eq!(
        insert_project(&mut db, "work".to_string(), "t1", named("again")),
        Err(AppError::Conflict)
    );
    assert_eq!(list_projects(&db), Ok(vec![first]));
}

#[test]
fn get_project_of_unknown_id_is_not_found() {
    let db = Database::new();
    assert_eq!(
        get_project(&db, "work".to_string()),
        Err(AppError::NotFound(EntityKind::Project, "work".to_string()))
    );
}

#[test]
fn projects_are_listed_in_creation_order() {
    let mut db = Database::new();
    let c = add_project(&mut db, "c", "t0");
    let a = add_project(&mut db, "a", "t1");
    let b = add_project(&mut db, "b", "t2");
    delete_project(&mut db, "a".to_string(), "t3").unwrap();
    assert_eq!(list_projects(&db), Ok(vec![c, b]));
    assert_eq!(project_ids(&list_deleted_projects(&db).unwrap()), vec![a.id]);
}

#[test]
fn trashed_projects_are_listed_newest_deletion_first() {
    let mut db = Database::new();
    for id in ["work", "home", "art", "lab", "zoo"] {
        add_project(&mut db, id, "2024-01-01 00:00:00");
    }
    delete_project(&mut db, "work".to_string(), "2024-03-01 00:00:00").unwrap();
    delete_project(&mut db, "home".to_string(), "2024-05-01 00:00:00").unwrap();
    delete_project(&mut db, "lab".to_string(), "2024-03-01 00:00:00").unwrap();
    delete_project(&mut db, "zoo".to_string(), "2024-04-01 00:00:00").unwrap();
    let listed = list_deleted_projects(&db).unwrap();
    assert_eq!(project_ids(&listed), vec!["home", "zoo", "work", "lab"]);
    assert_eq!(project_ids(&list_projects(&db).unwrap()), vec!["art"]);
}

#[test]
fn project_delete_restore_delete_alternates() {
    let mut db = Database::new();
    add_project(&mut db, "work", "t0");
    let missing = Err(AppError::NotFound(EntityKind::Project, "work".to_string()));

    assert_eq!(restore_project(&mut db, "work".to_string(), "t"), missing);
    let gone = delete_project(&mut db, "work".to_string(), "t1").unwrap();
    assert_eq!(gone.deleted_at, Some("t1".to_string()));
    assert_eq!(gone.updated_at, Some("t1".to_string()));
    assert_eq!(delete_project(&mut db, "work".to_string(), "t"), missing);
    let back = restore_project(&mut db, "work".to_string(), "t2").unwrap();
    assert_eq!(back.deleted_at, None);
    assert_eq!(back.updated_at, Some("t2".to_string()));
    assert_eq!(restore_project(&mut db, "work".to_string(), "t"), missing);
    let again = delete_project(&mut db, "work".to_string(), "t3").unwrap();
    assert_eq!(again.deleted_at, Some("t3".to_string()));
    assert_eq!(get_project(&db, "work".to_string()), Ok(again));

    let unknown = Err(AppError::NotFound(EntityKind::Project, "lost".to_string()));
    assert_eq!(delete_project(&mut db, "lost".to_string(), "t"), unknown);
    assert_eq!(restore_project(&mut db, "lost".to_string(), "t"), unknown);
}

#[test]
fn soft_deleting_a_project_leaves_its_trees_untouched() {
    let mut db = Database::new();
    add_project(&mut db, "work", "t0");
    add_tree(&mut db, "t1", Some("work"));
    let before = list_trees(&db, Some("work".to_string())).unwrap();
    delete_project(&mut db, "work".to_string(), "later").unwrap();
    assert_eq!(list_trees(&db, Some("work".to_string())), Ok(before));
}

#[test]
fn update_project_sets_the_name_and_the_stamp() {
    let mut db = Database::new();
    let made = add_project(&mut db, "work", "t0");
    let other = add_project(&mut db, "home", "t0");
    let patch = UpdateProject { name: Some("Renamed".to_string()) };
    let got = update_project(&mut db, "work".to_string(), "t1", patch).unwrap();
    let expected = Project {
        name: "Renamed".to_string(),
        updated_at: Some("t1".to_string()),
        ..made
    };
    assert_eq!(got, expected);
    assert_eq!(get_project(&db, "work".to_string()), Ok(expected));
    assert_eq!(get_project(&db, "home".to_string()), Ok(other));
}

#[test]
fn update_project_with_an_empty_patch_touches_the_stamp_only() {
    let mut db = Database::new();
    let made = add_project(&mut db, "work", "t0");
    let got = update_project(&mut db, "work".to_string(), "t1", UpdateProject { name: None }).unwrap();
    assert_eq!(got, Project { updated_at: Some("t1".to_string()), ..made });
}

#[test]
fn update_of_a_trashed_or_unknown_project_is_not_found() {
    let mut db = Database::new();
    add_project(&mut db, "work", "t0");
    let trashed = delete_project(&mut db, "work".to_string(), "t1").unwrap();
    let patch = UpdateProject { name: Some("x".to_string()) };
    assert_eq!(
        update_project(&mut db, "work".to_string(), "t2", patch.clone()),
        Err(AppError::NotFound(EntityKind::Project, "work".to_string()))
    );
    assert_eq!(get_project(&db, "work".to_string()), Ok(trashed));
    assert_eq!(
        update_project(&mut db, "home".to_string(), "t2", patch),
        Err(AppError::NotFound(EntityKind::Project, "home".to_string()))
    );
}

#[test]
fn purging_a_project_removes_its_trees_and_their_nodes() {
    let mut db = Database::new();
    add_project(&mut db, "work", "t0");
    add_project(&mut db, "home", "t0");
    add_tree(&mut db, "t1", Some("work"));
    add_tree(&mut db, "t2", Some("work"));
    add_tree(&mut db, "t3", Some("home"));
    add_tree(&mut db, "t4", None);
    add_node(&mut db, "a1", "t1", None);
    add_node(&mut db, "a2", "t1", Some("a1"));
    add_node(&mut db, "b1", "t2", None);
    add_node(&mut db, "c1", "t3", None);
    add_node(&mut db, "b2", "t2", Some("b1"));
    add_node(&mut db, "d1", "t4", None);

    assert_eq!(permanently_delete_project(&mut db, "work".to_string()), Ok(()));

    let projects: Vec<String> = db.projects().iter().map(|p| p.id.clone()).collect();
    let trees: Vec<String> = db.trees().iter().map(|t| t.id.clone()).collect();
    let nodes: Vec<String> = db.nodes().iter().map(|n| n.id.clone()).collect();
    assert_eq!(projects, vec!["home"]);
    assert_eq!(trees, vec!["t3", "t4"]);
    assert_eq!(nodes, vec!["c1", "d1"]);
    assert_eq!(
        permanently_delete_project(&mut db, "work".to_string()),
        Err(AppError::NotFound(EntityKind::Project, "work".to_string()))
    );
}

#[test]
fn purging_reaches_rows_in_the_trash() {
    let mut db = Database::new();
    add_project(&mut db, "work", "t0");
    add_tree(&mut db, "t1", Some("work"));
    add_node(&mut db, "a1", "t1", None);
    tangential::commands::trees::delete_tree(&mut db, "t1".to_string(), "t").unwrap();
    tangential::commands::nodes::delete_node(&mut db, "a1".to_string(), "t").unwrap();
    delete_project(&mut db, "work".to_string(), "t").unwrap();
    assert_eq!(permanently_delete_project(&mut db, "work".to_string()), Ok(()));
    assert_eq!(db.projects().len(), 0);
    assert_eq!(db.trees().len(), 0);
    assert_eq!(db.nodes().len(), 0);
}

#[test]
fn projects_are_listed_by_creation_stamp_not_by_table_order() {
    let mut db = Database::new();
    let a = add_project(&mut db, "a", "2");
    let b = add_project(&mut db, "b", "1");
    let c = add_project(&mut db, "c", "2");
    let d = add_project(&mut db, "d", "10");
    assert_eq!(list_projects(&db), Ok(vec![b, d, a, c]));
}

#[test]
fn project_writes_need_a_time() {
    let mut db = Database::new();
    assert_eq!(
        insert_project(&mut db, "a".to_string(), "", named("a")),
        Err(AppError::no_time())
    );
    assert_eq!(create_project(&mut db, "", named("a")), Err(AppError::no_time()));
    assert_eq!(list_projects(&db), Ok(vec![]));
    let made = add_project(&mut db, "a", "t0");
    assert_eq!(
        update_project(&mut db, "a".to_string(), "", UpdateProject { name: None }),
        Err(AppError::no_time())
    );
    assert_eq!(delete_project(&mut db, "a".to_string(), ""), Err(AppError::no_time()));
    assert_eq!(get_project(&db, "a".to_string()), Ok(made));
    delete_project(&mut db, "a".to_string(), "t1").unwrap();
    assert_eq!(restore_project(&mut db, "a".to_string(), ""), Err(AppError::no_time()));
}
