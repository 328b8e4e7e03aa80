use tangential::commands::nodes::insert_node;
use tangential::commands::projects::insert_project;
use tangential::commands::trees::{
    create_tree, delete_tree, get_tree, insert_tree, list_deleted_trees, list_staging_trees,
    list_trees, permanently_delete_tree, restore_tree, update_tree,
};
use tangential::db::Database;
use tangential::error::{AppError, EntityKind};
use tangential::models::{CreateNode, CreateProject, CreateTree, Tree, UpdateTree};

fn store_with_projects() -> Database {
    let mut db = Database::new();
    for id in ["work", "home"] {
        insert_project(&mut db, id.to_string(), "t0", CreateProject { name: id.to_string() }).unwrap();
    }
    db
}

fn tree_in(project: Option<&str>, name: &str) -> CreateTree {
    CreateTree {
        project_id: project.map(|p| p.to_string()),
        name: name.to_string(),
        system_prompt: None,
    }
}

fn add_tree(db: &mut Database, id: &str, project: Option<&str>) -> Tree {
    insert_tree(db, id.to_string(), "t0", tree_in(project, id)).unwrap()
}

fn add_node(db: &mut Database, id: &str, tree: &str, parent: Option<&str>) {
    let input = CreateNode {
        tree_id: tree.to_string(),
        parent_id: parent.map(|p| p.to_string()),
        user_content: id.to_string(),
        assistant_content: None,
        summary: None,
        model: None,
        tokens: None,
    };
    insert_node(db, id.to_string(), "now", input).unwrap();
}

fn tree_ids(rows: &[Tree]) -> Vec<String> {
    rows.iter().map(|t| t.id.clone()).collect()
}

fn no_patch() -> UpdateTree {
    UpdateTree { project_id: None, name: None, system_prompt: None }
}

#[test]
fn created_tree_is_read_back_as_written() {
    let mut db = store_with_projects();
    let input = CreateTree {
        project_id: Some("work".to_string()),
        name: "Ideas".to_string(),
        system_prompt: Some("be brief".to_string()),
    };
    let made = insert_tree(&mut db, "t1".to_string(), "2024-01-02 03:04:05", input).unwrap();
    let expected = Tree {
        id: "t1".to_string(),
        project_id: Some("work".to_string()),
        name: "Ideas".to_string(),
        system_prompt: Some("be brief".to_string()),
        created_at: "2024-01-02 03:04:05".to_string(),
        updated_at: None,
        deleted_at: None,
    };
    assert_eq!(made, expected);
    assert_eq!(get_tree(&db, "t1".to_string()), Ok(expected));
}

#[test]
fn create_tree_draws_a_fresh_id_each_time() {
    let mut db = store_with_projects();
    let a = create_tree(&mut db, "now", tree_in(Some("work"), "a")).unwrap();
    let b = create_tree(&mut db, "now", tree_in(None, "b")).unwrap();
    assert_eq!(a.id.len(), 36);
    assert_ne!(a.id, b.id);
    assert_eq!(a.project_id, Some("work".to_string()));
    assert_eq!(b.project_id, None);
    assert_eq!(get_tree(&db, a.id.clone()), Ok(a));
}

#[test]
fn create_tree_in_a_missing_project_is_a_conflict() {
    let mut db = store_with_projects();
    assert_eq!(create_tree(&mut db, "now", tree_in(Some("lost"), "a")), Err(AppError::Conflict));
    assert_eq!(db.trees().len(), 0);
}

#[test]
fn insert_tree_refuses_a_taken_id_and_a_missing_project() {
    let mut db = store_with_projects();
    add_tree(&mut db, "t1", None);
    assert_eq!(
        insert_tree(&mut db, "t1".to_string(), "now", tree_in(None, "again")),
        Err(AppError::Conflict)
    );
    assert_eq!(
        insert_tree(&mut db, "t2".to_string(), "now", tree_in(Some("lost"), "x")),
        Err(AppError::Conflict)
    );
    assert_eq!(tree_ids(db.trees()), vec!["t1"]);
}

#[test]
fn get_tree_of_unknown_id_is_not_found() {
    let db = Database::new();
    assert_eq!(
        get_tree(&db, "t1".to_string()),
        Err(AppError::NotFound(EntityKind::Tree, "t1".to_string()))
    );
}

#[test]
fn trees_are_listed_by_project_by_staging_and_by_trash() {
    let mut db = store_with_projects();
    add_tree(&mut db, "a", Some("work"));
    add_tree(&mut db, "b", None);
    add_tree(&mut db, "c", Some("home"));
    add_tree(&mut db, "d", Some("work"));
    add_tree(&mut db, "e", None);
    add_tree(&mut db, "f", Some("work"));
    delete_tree(&mut db, "d".to_string(), "2024-01-05").unwrap();
    delete_tree(&mut db, "e".to_string(), "2024-01-07").unwrap();

    assert_eq!(tree_ids(&list_trees(&db, None).unwrap()), vec!["a", "b", "c", "f"]);
    assert_eq!(tree_ids(&list_trees(&db, Some("work".to_string())).unwrap()), vec!["a", "f"]);
    assert_eq!(tree_ids(&list_trees(&db, Some("home".to_string())).unwrap()), vec!["c"]);
    assert_eq!(list_trees(&db, Some("lost".to_string())), Ok(vec![]));
    assert_eq!(tree_ids(&list_staging_trees(&db).unwrap()), vec!["b"]);
    assert_eq!(tree_ids(&list_deleted_trees(&db).unwrap()), vec!["e", "d"]);
}

#[test]
fn tree_delete_restore_delete_alternates() {
    let mut db = store_with_projects();
    add_tree(&mut db, "t1", Some("work"));
    let missing = Err(AppError::NotFound(EntityKind::Tree, "t1".to_string()));

    assert_eq!(restore_tree(&mut db, "t1".to_string(), "t"), missing);
    let gone = delete_tree(&mut db, "t1".to_string(), "t1").unwrap();
    assert_eq!(gone.deleted_at, Some("t1".to_string()));
    assert_eq!(delete_tree(&mut db, "t1".to_string(), "t"), missing);
    let back = restore_tree(&mut db, "t1".to_string(), "t2").unwrap();
    assert_eq!(back.deleted_at, None);
    assert_eq!(back.updated_at, Some("t2".to_string()));
    assert_eq!(restore_tree(&mut db, "t1".to_string(), "t"), missing);
    let again = delete_tree(&mut db, "t1".to_string(), "t3").unwrap();
    assert_eq!(again.deleted_at, Some("t3".to_string()));
    assert_eq!(get_tree(&db, "t1".to_string()), Ok(again));

    let unknown = Err(AppError::NotFound(EntityKind::Tree, "t9".to_string()));
    assert_eq!(delete_tree(&mut db, "t9".to_string(), "t"), unknown);
    assert_eq!(restore_tree(&mut db, "t9".to_string(), "t"), unknown);
}

#[test]
fn update_tree_sets_the_present_fields_only() {
    let mut db = store_with_projects();
    let made = insert_tree(
        &mut db,
        "t1".to_string(),
        "t0",
        CreateTree {
            project_id: Some("work".to_string()),
            name: "old".to_string(),
            system_prompt: Some("prompt".to_string()),
        },
    ).unwrap();
    let patch = UpdateTree { name: Some("new".to_string()), ..no_patch() };
    let got = update_tree(&mut db, "t1".to_string(), "t1", patch).unwrap();
    let expected = Tree { name: "new".to_string(), updated_at: Some("t1".to_string()), ..made };
    assert_eq!(got, expected);
    assert_eq!(get_tree(&db, "t1".to_string()), Ok(expected));
}

#[test]
fn update_tree_can_move_a_tree_and_store_null() {
    let mut db = store_with_projects();
    let made = insert_tree(
        &mut db,
        "t1".to_string(),
        "t0",
        CreateTree {
            project_id: Some("work".to_string()),
            name: "n".to_string(),
            system_prompt: Some("prompt".to_string()),
        },
    ).unwrap();
    let to_home = UpdateTree { project_id: Some(Some("home".to_string())), ..no_patch() };
    let moved = update_tree(&mut db, "t1".to_string(), "t1", to_home).unwrap();
    assert_eq!(
        moved,
        Tree { project_id: Some("home".to_string()), updated_at: Some("t1".to_string()), ..made.clone() }
    );
    let to_staging = UpdateTree {
        project_id: Some(None),
        name: None,
        system_prompt: Some(None),
    };
    let staged = update_tree(&mut db, "t1".to_string(), "t2", to_staging).unwrap();
    assert_eq!(
        staged,
        Tree { project_id: None, system_prompt: None, updated_at: Some("t2".to_string()), ..made }
    );
    assert_eq!(tree_ids(&list_staging_trees(&db).unwrap()), vec!["t1"]);
}

#[test]
fn update_tree_into_a_missing_project_is_a_conflict_and_changes_nothing() {
    let mut db = store_with_projects();
    let made = add_tree(&mut db, "t1", Some("work"));
    let patch = UpdateTree {
        project_id: Some(Some("lost".to_string())),
        name: Some("renamed".to_string()),
        system_prompt: None,
    };
    assert_eq!(update_tree(&mut db, "t1".to_string(), "t1", patch), Err(AppError::Conflict));
    assert_eq!(get_tree(&db, "t1".to_string()), Ok(made));
}

#[test]
fn update_of_a_trashed_or_unknown_tree_is_not_found() {
    let mut db = store_with_projects();
    add_tree(&mut db, "t1", None);
    delete_tree(&mut db, "t1".to_string(), "t1").unwrap();
    let patch = UpdateTree { project_id: Some(Some("lost".to_string())), ..no_patch() };
    assert_eq!(
        update_tree(&mut db, "t1".to_string(), "t2", patch.clone()),
        Err(AppError::NotFound(EntityKind::Tree, "t1".to_string()))
    );
    assert_eq!(
        update_tree(&mut db, "t2".to_string(), "t2", patch),
        Err(AppError::NotFound(EntityKind::Tree, "t2".to_string()))
    );
}

#[test]
fn purging_a_tree_removes_its_nodes_and_no_others() {
    let mut db = store_with_projects();
    add_tree(&mut db, "t1", Some("work"));
    add_tree(&mut db, "t2", Some("work"));
    add_node(&mut db, "a1", "t1", None);
    add_node(&mut db, "b1", "t2", None);
    add_node(&mut db, "a2", "t1", Some("a1"));
    add_node(&mut db, "b2", "t2", Some("b1"));

    assert_eq!(permanently_delete_tree(&mut db, "t1".to_string()), Ok(()));

    let nodes: Vec<String> = db.nodes().iter().map(|n| n.id.clone()).collect();
    assert_eq!(tree_ids(db.trees()), vec!["t2"]);
    assert_eq!(nodes, vec!["b1", "b2"]);
    assert_eq!(db.projects().len(), 2);
    assert_eq!(
        permanently_delete_tree(&mut db, "t1".to_string()),
        Err(AppError::NotFound(EntityKind::Tree, "t1".to_string()))
    );
}

fn add_tree_at(db: &mut Database, id: &str, project: Option<&str>, now: &str) -> Tree {
    insert_tree(db, id.to_string(), now, tree_in(project, id)).unwrap()
}

#[test]
fn trees_are_listed_by_creation_stamp_not_by_table_order() {
    let mut db = store_with_projects();
    let a = add_tree_at(&mut db, "a", Some("work"), "2024-03-01");
    let b = add_tree_at(&mut db, "b", None, "2024-02-01");
    let c = add_tree_at(&mut db, "c", Some("work"), "2024-01-01");
    let d = add_tree_at(&mut db, "d", None, "2024-01-15");
    let e = add_tree_at(&mut db, "e", Some("work"), "2024-03-01");
    assert_eq!(
        list_trees(&db, None),
        Ok(vec![c.clone(), d.clone(), b.clone(), a.clone(), e.clone()])
    );
    assert_eq!(list_trees(&db, Some("work".to_string())), Ok(vec![c, a, e]));
    assert_eq!(list_staging_trees(&db), Ok(vec![d, b]));
}

#[test]
fn tree_writes_need_a_time() {
    let mut db = store_with_projects();
    assert_eq!(
        insert_tree(&mut db, "t".to_string(), "", tree_in(None, "t")),
        Err(AppError::no_time())
    );
    assert_eq!(create_tree(&mut db, "", tree_in(None, "t")), Err(AppError::no_time()));
    let made = add_tree(&mut db, "t", None);
    assert_eq!(update_tree(&mut db, "t".to_string(), "", no_patch()), Err(AppError::no_time()));
    let lost = UpdateTree { project_id: Some(Some("lost".to_string())), ..no_patch() };
    assert_eq!(update_tree(&mut db, "t".to_string(), "", lost), Err(AppError::Conflict));
    assert_eq!(delete_tree(&mut db, "t".to_string(), ""), Err(AppError::no_time()));
    assert_eq!(get_tree(&db, "t".to_string()), Ok(made));
    delete_tree(&mut db, "t".to_string(), "t1").unwrap();
    assert_eq!(restore_tree(&mut db, "t".to_string(), ""), Err(AppError::no_time()));
}
