use tangential::commands::nodes::{
    create_node, delete_node, get_child_nodes, get_leaf_nodes, get_node, get_node_path,
    get_root_nodes, insert_node, list_nodes, permanently_delete_node, restore_node, update_node,
};
use tangential::commands::trees::{insert_tree, delete_tree};
use tangential::db::Database;
use tangential::error::{AppError, EntityKind};
use tangential::models::{CreateNode, CreateTree, Node, UpdateNode};

fn store_with_tree(tree: &str) -> Database {
    let mut db = Database::new();
    let input = CreateTree { project_id: None, name: "talk".to_string(), system_prompt: None };
    insert_tree(&mut db, tree.to_string(), "2024-01-01 00:00:00", input).unwrap();
    db
}

fn turn(tree: &str, parent: Option<&str>, text: &str) -> CreateNode {
    CreateNode {
        tree_id: tree.to_string(),
        parent_id: parent.map(|p| p.to_string()),
        user_content: text.to_string(),
        assistant_content: None,
        summary: None,
        model: None,
        tokens: None,
    }
}

fn add(db: &mut Database, id: &str, tree: &str, parent: Option<&str>) -> Node {
    insert_node(db, id.to_string(), "2024-01-01 00:00:01", turn(tree, parent, id)).unwrap()
}

fn ids(rows: &[Node]) -> Vec<String> {
    rows.iter().map(|n| n.id.clone()).collect()
}

fn empty_patch() -> UpdateNode {
    UpdateNode {
        user_content: None,
        assistant_content: None,
        summary: None,
        model: None,
        tokens: None,
        failed: None,
    }
}

#[test]
fn created_node_is_read_back_as_written() {
    let mut db = store_with_tree("t1");
    let input = CreateNode {
        tree_id: "t1".to_string(),
        parent_id: None,
        user_content: "hello".to_string(),
        assistant_content: Some("hi".to_string()),
        summary: Some("greeting".to_string()),
        model: Some("m".to_string()),
        tokens: Some(7),
    };
    let made = insert_node(&mut db, "n1".to_string(), "2024-02-03 04:05:06", input).unwrap();
    let expected = Node {
        id: "n1".to_string(),
        tree_id: "t1".to_string(),
        parent_id: None,
        user_content: "hello".to_string(),
        assistant_content: Some("hi".to_string()),
        summary: Some("greeting".to_string()),
        model: Some("m".to_string()),
        tokens: Some(7),
        created_at: "2024-02-03 04:05:06".to_string(),
        updated_at: None,
        deleted_at: None,
        failed: false,
    };
    assert_eq!(made, expected);
    assert_eq!(get_node(&db, "n1".to_string()), Ok(expected));
}

#[test]
fn create_node_draws_a_fresh_id_each_time() {
    let mut db = store_with_tree("t1");
    let a = create_node(&mut db, "2024-01-01 00:00:00", turn("t1", None, "a")).unwrap();
    let b = create_node(&mut db, "2024-01-01 00:00:00", turn("t1", Some(a.id.as_str()), "b")).unwrap();
    assert_eq!(a.id.chars().count(), 36);
    assert_eq!(b.id.chars().count(), 36);
    assert_ne!(a.id, b.id);
    assert_eq!(b.parent_id, Some(a.id.clone()));
    assert_eq!(get_node(&db, a.id.clone()), Ok(a));
    assert_eq!(get_node(&db, b.id.clone()), Ok(b));
}

#[test]
fn create_node_in_a_missing_tree_is_a_conflict() {
    let mut db = store_with_tree("t1");
    let r = create_node(&mut db, "now", turn("nowhere", None, "a"));
    assert_eq!(r, Err(AppError::Conflict));
    assert_eq!(db.nodes().len(), 0);
}

#[test]
fn insert_node_refuses_what_breaks_a_reference() {
    let mut db = store_with_tree("t1");
    let other = CreateTree { project_id: None, name: "other".to_string(), system_prompt: None };
    insert_tree(&mut db, "t2".to_string(), "now", other).unwrap();
    add(&mut db, "n1", "t1", None);
    // taken id
    assert_eq!(
        insert_node(&mut db, "n1".to_string(), "now", turn("t1", None, "again")),
        Err(AppError::Conflict)
    );
    // tree that does not exist
    assert_eq!(
        insert_node(&mut db, "n2".to_string(), "now", turn("t9", None, "x")),
        Err(AppError::Conflict)
    );
    // parent that does not exist
    assert_eq!(
        insert_node(&mut db, "n2".to_string(), "now", turn("t1", Some("n9"), "x")),
        Err(AppError::Conflict)
    );
    // parent in another tree
    assert_eq!(
        insert_node(&mut db, "n2".to_string(), "now", turn("t2", Some("n1"), "x")),
        Err(AppError::Conflict)
    );
    assert_eq!(ids(db.nodes()), vec!["n1".to_string()]);
}

#[test]
fn get_node_of_unknown_id_is_not_found() {
    let db = store_with_tree("t1");
    assert_eq!(
        get_node(&db, "n1".to_string()),
        Err(AppError::NotFound(EntityKind::Node, "n1".to_string()))
    );
}

#[test]
fn delete_restore_delete_alternates() {
    let mut db = store_with_tree("t1");
    add(&mut db, "n1", "t1", None);
    let missing = Err(AppError::NotFound(EntityKind::Node, "n1".to_string()));

    assert_eq!(restore_node(&mut db, "n1".to_string(), "t0"), missing);

    let gone = delete_node(&mut db, "n1".to_string(), "t1").unwrap();
    assert_eq!(gone.deleted_at, Some("t1".to_string()));
    assert_eq!(gone.updated_at, Some("t1".to_string()));
    assert_eq!(delete_node(&mut db, "n1".to_string(), "t2"), missing);

    let back = restore_node(&mut db, "n1".to_string(), "t3").unwrap();
    assert_eq!(back.deleted_at, None);
    assert_eq!(back.updated_at, Some("t3".to_string()));
    assert_eq!(restore_node(&mut db, "n1".to_string(), "t4"), missing);

    let again = delete_node(&mut db, "n1".to_string(), "t5").unwrap();
    assert_eq!(again.deleted_at, Some("t5".to_string()));
    assert_eq!(get_node(&db, "n1".to_string()).unwrap().deleted_at, Some("t5".to_string()));
}

#[test]
fn delete_and_restore_of_unknown_id_are_not_found() {
    let mut db = store_with_tree("t1");
    let missing = Err(AppError::NotFound(EntityKind::Node, "n9".to_string()));
    assert_eq!(delete_node(&mut db, "n9".to_string(), "t"), missing);
    assert_eq!(restore_node(&mut db, "n9".to_string(), "t"), missing);
    assert_eq!(
        permanently_delete_node(&mut db, "n9".to_string()),
        Err(AppError::NotFound(EntityKind::Node, "n9".to_string()))
    );
}

#[test]
fn soft_deleting_a_tree_leaves_its_nodes_untouched() {
    let mut db = store_with_tree("t1");
    let a = add(&mut db, "a", "t1", None);
    let b = add(&mut db, "b", "t1", Some("a"));
    delete_tree(&mut db, "t1".to_string(), "later").unwrap();
    assert_eq!(get_node(&db, "a".to_string()), Ok(a.clone()));
    assert_eq!(get_node(&db, "b".to_string()), Ok(b.clone()));
    assert_eq!(list_nodes(&db, "t1".to_string()), Ok(vec![a, b]));
}

#[test]
fn ancestor_path_runs_from_the_root_down() {
    let mut db = store_with_tree("t1");
    let root = add(&mut db, "root", "t1", None);
    let a = add(&mut db, "A", "t1", Some("root"));
    let b = add(&mut db, "B", "t1", Some("A"));
    let c = add(&mut db, "C", "t1", Some("B"));
    add(&mut db, "side", "t1", Some("root"));
    assert_eq!(
        get_node_path(&db, "C".to_string()),
        Ok(vec![root.clone(), a.clone(), b.clone(), c])
    );
    assert_eq!(get_node_path(&db, "B".to_string()), Ok(vec![root.clone(), a, b]));
    assert_eq!(get_node_path(&db, "root".to_string()), Ok(vec![root]));
}

#[test]
fn ancestor_path_of_a_trashed_or_unknown_node_is_not_found() {
    let mut db = store_with_tree("t1");
    add(&mut db, "root", "t1", None);
    add(&mut db, "A", "t1", Some("root"));
    delete_node(&mut db, "A".to_string(), "t").unwrap();
    assert_eq!(
        get_node_path(&db, "A".to_string()),
        Err(AppError::NotFound(EntityKind::Node, "A".to_string()))
    );
    assert_eq!(
        get_node_path(&db, "nope".to_string()),
        Err(AppError::NotFound(EntityKind::Node, "nope".to_string()))
    );
}

#[test]
fn ancestor_path_passes_through_trashed_ancestors() {
    let mut db = store_with_tree("t1");
    let root = add(&mut db, "root", "t1", None);
    add(&mut db, "A", "t1", Some("root"));
    let b = add(&mut db, "B", "t1", Some("A"));
    let a = delete_node(&mut db, "A".to_string(), "t").unwrap();
    assert_eq!(get_node_path(&db, "B".to_string()), Ok(vec![root, a, b]));
}

#[test]
fn leaves_are_active_nodes_without_active_children() {
    let mut db = store_with_tree("t1");
    add(&mut db, "root", "t1", None);
    add(&mut db, "A", "t1", Some("root"));
    let b = add(&mut db, "B", "t1", Some("A"));
    add(&mut db, "C", "t1", Some("root"));
    delete_node(&mut db, "C".to_string(), "t").unwrap();
    assert_eq!(get_leaf_nodes(&db, "t1".to_string()), Ok(vec![b]));
}

#[test]
fn a_node_whose_children_are_all_trashed_is_a_leaf() {
    let mut db = store_with_tree("t1");
    let root = add(&mut db, "root", "t1", None);
    add(&mut db, "A", "t1", Some("root"));
    delete_node(&mut db, "A".to_string(), "t").unwrap();
    assert_eq!(get_leaf_nodes(&db, "t1".to_string()), Ok(vec![root]));
    assert_eq!(get_leaf_nodes(&db, "t2".to_string()), Ok(vec![]));
}

#[test]
fn listings_filter_by_tree_parent_and_deletion_state() {
    let mut db = store_with_tree("t1");
    let other = CreateTree { project_id: None, name: "other".to_string(), system_prompt: None };
    insert_tree(&mut db, "t2".to_string(), "now", other).unwrap();
    let r1 = add(&mut db, "r1", "t1", None);
    let x = add(&mut db, "x", "t2", None);
    let a = add(&mut db, "a", "t1", Some("r1"));
    let r2 = add(&mut db, "r2", "t1", None);
    let b = add(&mut db, "b", "t1", Some("r1"));
    add(&mut db, "c", "t1", Some("r1"));
    add(&mut db, "r3", "t1", None);
    delete_node(&mut db, "c".to_string(), "t").unwrap();
    delete_node(&mut db, "r3".to_string(), "t").unwrap();

    assert_eq!(
        list_nodes(&db, "t1".to_string()),
        Ok(vec![r1.clone(), a.clone(), r2.clone(), b.clone()])
    );
    assert_eq!(list_nodes(&db, "t2".to_string()), Ok(vec![x.clone()]));
    assert_eq!(list_nodes(&db, "t3".to_string()), Ok(vec![]));
    assert_eq!(get_root_nodes(&db, "t1".to_string()), Ok(vec![r1, r2]));
    assert_eq!(get_root_nodes(&db, "t2".to_string()), Ok(vec![x]));
    assert_eq!(get_child_nodes(&db, "r1".to_string()), Ok(vec![a, b]));
    assert_eq!(get_child_nodes(&db, "r2".to_string()), Ok(vec![]));
}

#[test]
fn update_sets_the_present_fields_only() {
    let mut db = store_with_tree("t1");
    let made = add(&mut db, "n1", "t1", None);
    let patch = UpdateNode { tokens: Some(Some(5)), ..empty_patch() };
    let got = update_node(&mut db, "n1".to_string(), "2024-05-05 05:05:05", patch).unwrap();
    let expected = Node {
        tokens: Some(5),
        updated_at: Some("2024-05-05 05:05:05".to_string()),
        ..made
    };
    assert_eq!(got, expected);
    assert_eq!(get_node(&db, "n1".to_string()), Ok(expected));
}

#[test]
fn update_can_set_every_field_and_store_null() {
    let mut db = store_with_tree("t1");
    let input = CreateNode {
        summary: Some("old".to_string()),
        tokens: Some(3),
        ..turn("t1", None, "q")
    };
    let made = insert_node(&mut db, "n1".to_string(), "t0", input).unwrap();
    let patch = UpdateNode {
        user_content: Some("q2".to_string()),
        assistant_content: Some(Some("a2".to_string())),
        summary: Some(None),
        model: Some(Some("m2".to_string())),
        tokens: Some(None),
        failed: Some(true),
    };
    let got = update_node(&mut db, "n1".to_string(), "t1", patch).unwrap();
    let expected = Node {
        user_content: "q2".to_string(),
        assistant_content: Some("a2".to_string()),
        summary: None,
        model: Some("m2".to_string()),
        tokens: None,
        failed: true,
        updated_at: Some("t1".to_string()),
        ..made
    };
    assert_eq!(got, expected);
}

#[test]
fn update_with_an_empty_patch_touches_the_stamp_only() {
    let mut db = store_with_tree("t1");
    let made = add(&mut db, "n1", "t1", None);
    let got = update_node(&mut db, "n1".to_string(), "t1", empty_patch()).unwrap();
    assert_eq!(got, Node { updated_at: Some("t1".to_string()), ..made });
}

#[test]
fn update_of_a_trashed_or_unknown_node_is_not_found() {
    let mut db = store_with_tree("t1");
    add(&mut db, "n1", "t1", None);
    let trashed = delete_node(&mut db, "n1".to_string(), "t").unwrap();
    let patch = UpdateNode { tokens: Some(Some(5)), ..empty_patch() };
    assert_eq!(
        update_node(&mut db, "n1".to_string(), "t2", patch.clone()),
        Err(AppError::NotFound(EntityKind::Node, "n1".to_string()))
    );
    assert_eq!(get_node(&db, "n1".to_string()), Ok(trashed));
    assert_eq!(
        update_node(&mut db, "n2".to_string(), "t2", patch),
        Err(AppError::NotFound(EntityKind::Node, "n2".to_string()))
    );
}

#[test]
fn purging_a_node_removes_all_that_descends_from_it() {
    let mut db = store_with_tree("t1");
    add(&mut db, "root", "t1", None);
    add(&mut db, "A", "t1", Some("root"));
    add(&mut db, "B", "t1", Some("A"));
    add(&mut db, "side", "t1", Some("root"));
    add(&mut db, "C", "t1", Some("B"));
    add(&mut db, "D", "t1", Some("A"));
    delete_node(&mut db, "D".to_string(), "t").unwrap();
    assert_eq!(permanently_delete_node(&mut db, "A".to_string()), Ok(()));
    assert_eq!(ids(db.nodes()), vec!["root".to_string(), "side".to_string()]);
    assert_eq!(
        permanently_delete_node(&mut db, "A".to_string()),
        Err(AppError::NotFound(EntityKind::Node, "A".to_string()))
    );
}

fn add_at(db: &mut Database, id: &str, parent: Option<&str>, now: &str) -> Node {
    insert_node(db, id.to_string(), now, turn("t1", parent, id)).unwrap()
}

#[test]
fn nodes_are_listed_by_creation_stamp_not_by_table_order() {
    let mut db = store_with_tree("t1");
    let r = add_at(&mut db, "r", None, "2024-01-05 00:00:00");
    let a = add_at(&mut db, "a", Some("r"), "2024-01-03 00:00:00");
    let b = add_at(&mut db, "b", Some("r"), "2024-01-04 00:00:00");
    let c = add_at(&mut db, "c", Some("r"), "2024-01-03 00:00:00");
    let s = add_at(&mut db, "s", None, "2024-01-01 00:00:00");
    assert_eq!(
        list_nodes(&db, "t1".to_string()),
        Ok(vec![s.clone(), a.clone(), c.clone(), b.clone(), r.clone()])
    );
    assert_eq!(get_root_nodes(&db, "t1".to_string()), Ok(vec![s.clone(), r]));
    assert_eq!(get_child_nodes(&db, "r".to_string()), Ok(vec![a.clone(), c.clone(), b.clone()]));
    assert_eq!(get_leaf_nodes(&db, "t1".to_string()), Ok(vec![s, a, c, b]));
}

#[test]
fn update_and_trash_need_a_time() {
    let mut db = store_with_tree("t1");
    let made = add(&mut db, "n1", "t1", None);
    let patch = UpdateNode { tokens: Some(Some(5)), ..empty_patch() };
    assert_eq!(update_node(&mut db, "n1".to_string(), "", patch), Err(AppError::no_time()));
    assert_eq!(delete_node(&mut db, "n1".to_string(), ""), Err(AppError::no_time()));
    assert_eq!(get_node(&db, "n1".to_string()), Ok(made));
    delete_node(&mut db, "n1".to_string(), "t").unwrap();
    assert_eq!(restore_node(&mut db, "n1".to_string(), ""), Err(AppError::no_time()));
    assert_eq!(create_node(&mut db, "", turn("t1", None, "x")), Err(AppError::no_time()));
}
