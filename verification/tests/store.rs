use tangential::commands::nodes::{insert_node, permanently_delete_node};
use tangential::commands::settings::set_setting;
use tangential::commands::trees::insert_tree;
use tangential::db::migrations::{Ledger, Migration, Run};
use tangential::db::Database;
use tangential::error::{AppError, EntityKind};
use tangential::models::{CreateNode, CreateTree, Node, Project, Setting, Tree};
use tangential::db::rows::deleted_before;
use tangential::text::sorts_before;

fn project(id: &str) -> Project {
    Project {
        id: id.to_string(),
        name: id.to_string(),
        created_at: "t".to_string(),
        updated_at: None,
        deleted_at: None,
    }
}

fn tree(id: &str, project: Option<&str>) -> Tree {
    Tree {
        id: id.to_string(),
        project_id: project.map(|p| p.to_string()),
        name: id.to_string(),
        system_prompt: None,
        created_at: "t".to_string(),
        updated_at: None,
        deleted_at: None,
    }
}

fn node(id: &str, tree: &str, parent: Option<&str>) -> Node {
    Node {
        id: id.to_string(),
        tree_id: tree.to_string(),
        parent_id: parent.map(|p| p.to_string()),
        user_content: id.to_string(),
        assistant_content: None,
        summary: None,
        model: None,
        tokens: None,
        created_at: "t".to_string(),
        updated_at: None,
        deleted_at: None,
        failed: false,
    }
}

fn setting(key: &str) -> Setting {
    Setting {
        key: key.to_string(),
        value: "v".to_string(),
        created_at: "t".to_string(),
        updated_at: None,
    }
}

fn migration(name: &str) -> Migration {
    Migration { name: name.to_string(), statements: format!("-- {}", name) }
}

fn is_sound(db: &Database) -> bool {
    db.sound();
    Database::load(
        db.projects().clone(),
        db.trees().clone(),
        db.nodes().clone(),
        db.settings().clone(),
    ).is_ok()
}

fn refused(r: Result<Database, AppError>) -> bool {
    matches!(r, Err(AppError::StoreFailure(_)))
}

#[test]
fn new_store_is_empty() {
    let db = Database::new();
    assert_eq!(db.projects().len(), 0);
    assert_eq!(db.trees().len(), 0);
    assert_eq!(db.nodes().len(), 0);
    assert_eq!(db.settings().len(), 0);
}

#[test]
fn load_accepts_rows_that_keep_the_rules() {
    let projects = vec![project("work")];
    let trees = vec![tree("t1", Some("work")), tree("t2", None)];
    let nodes = vec![node("a", "t1", None), node("b", "t1", Some("a")), node("c", "t2", None)];
    let settings = vec![setting("a"), setting("b")];
    let db = Database::load(projects.clone(), trees.clone(), nodes.clone(), settings.clone()).unwrap();
    assert_eq!(db.projects(), &projects);
    assert_eq!(db.trees(), &trees);
    assert_eq!(db.nodes(), &nodes);
    assert_eq!(db.settings(), &settings);
}

#[test]
fn load_refuses_repeated_ids() {
    assert!(refused(Database::load(vec![project("p"), project("p")], vec![], vec![], vec![])));
    assert!(refused(Database::load(vec![], vec![tree("t", None), tree("t", None)], vec![], vec![])));
    assert!(refused(Database::load(
        vec![],
        vec![tree("t", None)],
        vec![node("a", "t", None), node("b", "t", None), node("a", "t", None)],
        vec![]
    )));
}

#[test]
fn load_refuses_settings_out_of_order() {
    assert!(refused(Database::load(vec![], vec![], vec![], vec![setting("b"), setting("a")])));
    assert!(refused(Database::load(vec![], vec![], vec![], vec![setting("a"), setting("a")])));
}

#[test]
fn load_refuses_broken_references() {
    // tree of a project that is not there
    assert!(refused(Database::load(vec![project("work")], vec![tree("t", Some("home"))], vec![], vec![])));
    // node of a tree that is not there
    assert!(refused(Database::load(vec![], vec![tree("t", None)], vec![node("a", "u", None)], vec![])));
    // parent that is not there
    assert!(refused(Database::load(
        vec![],
        vec![tree("t", None)],
        vec![node("a", "t", Some("z"))],
        vec![]
    )));
    // parent that comes later
    assert!(refused(Database::load(
        vec![],
        vec![tree("t", None)],
        vec![node("a", "t", Some("b")), node("b", "t", None)],
        vec![]
    )));
    // node that is its own parent
    assert!(refused(Database::load(
        vec![],
        vec![tree("t", None)],
        vec![node("a", "t", Some("a"))],
        vec![]
    )));
    // parent in another tree
    assert!(refused(Database::load(
        vec![],
        vec![tree("t", None), tree("u", None)],
        vec![node("a", "t", None), node("b", "u", Some("a"))],
        vec![]
    )));
}

#[test]
fn text_sorts_byte_by_byte() {
    assert!(sorts_before("a", "b"));
    assert!(!sorts_before("b", "a"));
    assert!(!sorts_before("a", "a"));
    assert!(sorts_before("", "a"));
    assert!(!sorts_before("", ""));
    assert!(sorts_before("ab", "abc"));
    assert!(!sorts_before("abc", "ab"));
    assert!(sorts_before("B", "a"));
    assert!(sorts_before("z", "é"));
    assert!(sorts_before("2024-01-09 23:59:59", "2024-01-10 00:00:00"));
    assert!(!sorts_before("2024-01-10 00:00:00", "2024-01-09 23:59:59"));
}

#[test]
fn deletion_stamps_compare_as_text_and_a_missing_one_as_empty() {
    let early = Some("2024-01-01".to_string());
    let late = Some("2024-01-02".to_string());
    assert!(deleted_before(&early, &late));
    assert!(!deleted_before(&late, &early));
    assert!(!deleted_before(&early, &early));
    assert!(deleted_before(&None, &early));
    assert!(!deleted_before(&early, &None));
    assert!(!deleted_before(&None, &None));
}

#[test]
fn first_run_applies_every_migration_in_order() {
    let migrations = vec![migration("001_initial_schema"), migration("002_add_soft_delete_fields")];
    let mut ledger = Ledger::new();
    assert_eq!(ledger.pending(&migrations), vec![0, 1]);
    assert_eq!(ledger.run_migrations(&migrations), vec![0, 1]);
    assert!(ledger.is_applied(&"001_initial_schema".to_string()));
    assert!(ledger.is_applied(&"002_add_soft_delete_fields".to_string()));
}

#[test]
fn second_run_applies_nothing() {
    let migrations = vec![migration("001_initial_schema"), migration("002_add_soft_delete_fields")];
    let mut ledger = Ledger::new();
    ledger.run_migrations(&migrations);
    assert_eq!(ledger.pending(&migrations), Vec::<usize>::new());
    assert_eq!(ledger.run_migrations(&migrations), Vec::<usize>::new());
    assert_eq!(ledger.names().len(), 2);
}

#[test]
fn a_run_applies_only_what_the_ledger_lacks() {
    let migrations = vec![migration("a"), migration("b"), migration("c"), migration("b")];
    let mut ledger = Ledger::from_names(vec!["b".to_string()]);
    assert_eq!(ledger.pending(&migrations), vec![0, 2]);
    assert!(!ledger.is_applied(&"a".to_string()));
    assert_eq!(ledger.run_migrations(&migrations), vec![0, 2]);
    assert_eq!(ledger.names(), &vec!["b".to_string(), "a".to_string(), "c".to_string()]);
}

#[test]
fn a_name_that_repeats_is_applied_once() {
    let migrations = vec![migration("a"), migration("a")];
    let mut ledger = Ledger::new();
    assert_eq!(ledger.run_migrations(&migrations), vec![0]);
    assert_eq!(ledger.names(), &vec!["a".to_string()]);
}

#[test]
fn record_refuses_a_name_it_holds() {
    let mut ledger = Ledger::new();
    assert!(ledger.record("a".to_string()));
    assert!(!ledger.record("a".to_string()));
    assert!(ledger.record("b".to_string()));
    assert_eq!(ledger.names(), &vec!["a".to_string(), "b".to_string()]);
}

#[test]
fn failures_are_put_in_words() {
    assert_eq!(
        AppError::NotFound(EntityKind::Node, "n1".to_string()).message(),
        "Node n1 not found"
    );
    assert_eq!(
        AppError::NotFound(EntityKind::Project, "p".to_string()).message(),
        "Project p not found"
    );
    assert_eq!(AppError::NotFound(EntityKind::Tree, "".to_string()).message(), "Tree  not found");
    assert_eq!(
        AppError::NotFound(EntityKind::Setting, "theme".to_string()).message(),
        "Setting theme not found"
    );
    assert_eq!(
        AppError::Conflict.message(),
        "the write breaks a key or a reference between tables"
    );
    assert_eq!(
        AppError::StoreFailure("disk full".to_string()).message(),
        "the store failed: disk full"
    );
}

#[test]
fn stores_made_by_the_operations_are_sound() {
    let mut db = Database::new();
    assert!(is_sound(&db));
    insert_tree(
        &mut db,
        "t".to_string(),
        "now",
        CreateTree { project_id: None, name: "t".to_string(), system_prompt: None },
    ).unwrap();
    for (id, parent) in [("a", None), ("b", Some("a")), ("c", Some("b")), ("d", Some("a"))] {
        let input = CreateNode {
            tree_id: "t".to_string(),
            parent_id: parent.map(|p: &str| p.to_string()),
            user_content: id.to_string(),
            assistant_content: None,
            summary: None,
            model: None,
            tokens: None,
        };
        insert_node(&mut db, id.to_string(), "now", input).unwrap();
    }
    set_setting(&mut db, "z".to_string(), "1".to_string(), "now").unwrap();
    set_setting(&mut db, "a".to_string(), "1".to_string(), "now").unwrap();
    assert!(is_sound(&db));
    permanently_delete_node(&mut db, "b".to_string()).unwrap();
    assert!(is_sound(&db));
    assert_eq!(db.nodes().len(), 2);
}

#[test]
fn rows_know_their_project_and_parent() {
    let staged = tree("t", None);
    let placed = tree("u", Some("work"));
    assert!(placed.is_in_project(&"work".to_string()));
    assert!(!placed.is_in_project(&"home".to_string()));
    assert!(!staged.is_in_project(&"work".to_string()));
    let root = node("a", "t", None);
    let child = node("b", "t", Some("a"));
    assert!(child.is_child_of(&"a".to_string()));
    assert!(!child.is_child_of(&"b".to_string()));
    assert!(!root.is_child_of(&"a".to_string()));
}

#[test]
fn copies_equal_what_they_were_made_from() {
    let p = project("p");
    let t = tree("t", Some("p"));
    let mut n = node("n", "t", Some("m"));
    n.tokens = Some(3);
    n.summary = Some("s".to_string());
    let s = setting("k");
    assert_eq!(p.clone(), p);
    assert_eq!(t.clone(), t);
    assert_eq!(n.clone(), n);
    assert_eq!(s.clone(), s);
    let m = migration("001");
    assert_eq!(m.clone(), m);
    let e = AppError::NotFound(EntityKind::Tree, "t".to_string());
    assert_eq!(e.clone(), e);
    assert_eq!(AppError::Conflict.clone(), AppError::Conflict);
}

#[test]
fn a_ledger_read_from_names_holds_each_once() {
    let ledger = Ledger::from_names(vec![
        "a".to_string(),
        "b".to_string(),
        "a".to_string(),
        "c".to_string(),
        "b".to_string(),
    ]);
    assert_eq!(ledger.names(), &vec!["a".to_string(), "b".to_string(), "c".to_string()]);
    let plain = Ledger::from_names(vec!["x".to_string(), "y".to_string()]);
    assert_eq!(plain.names(), &vec!["x".to_string(), "y".to_string()]);
    assert_eq!(Ledger::from_names(vec![]).names().len(), 0);
}

#[test]
fn a_failing_batch_ends_the_run_and_is_not_recorded() {
    let migrations = vec![migration("a"), migration("b"), migration("c"), migration("d")];
    let mut ledger = Ledger::new();
    let run = ledger.run_until_failure(&migrations, Some(2));
    assert_eq!(run, Run { applied: vec![0, 1], failed: Some(2) });
    assert_eq!(ledger.names(), &vec!["a".to_string(), "b".to_string()]);
    assert!(!ledger.is_applied(&"c".to_string()));
    assert!(!ledger.is_applied(&"d".to_string()));
    // the next run takes the work up where it ended
    assert_eq!(ledger.run_migrations(&migrations), vec![2, 3]);
    assert_eq!(
        ledger.names(),
        &vec!["a".to_string(), "b".to_string(), "c".to_string(), "d".to_string()]
    );
}

#[test]
fn a_batch_that_is_not_due_cannot_fail() {
    let migrations = vec![migration("a"), migration("b"), migration("c")];
    let mut ledger = Ledger::from_names(vec!["b".to_string()]);
    let run = ledger.run_until_failure(&migrations, Some(1));
    assert_eq!(run, Run { applied: vec![0, 2], failed: None });
    let mut fresh = Ledger::new();
    assert_eq!(
        fresh.run_until_failure(&migrations, Some(9)),
        Run { applied: vec![0, 1, 2], failed: None }
    );
    let mut other = Ledger::new();
    assert_eq!(
        other.run_until_failure(&migrations, None),
        Run { applied: vec![0, 1, 2], failed: None }
    );
    let mut first = Ledger::new();
    assert_eq!(first.run_until_failure(&migrations, Some(0)), Run { applied: vec![], failed: Some(0) });
    assert_eq!(first.names().len(), 0);
}

#[test]
fn a_write_without_a_time_is_refused_and_changes_nothing() {
    let mut db = Database::new();
    let no_time = Err(AppError::no_time());
    assert_eq!(
        AppError::no_time(),
        AppError::StoreFailure("a write needs the time of the write".to_string())
    );
    assert_eq!(
        insert_tree(
            &mut db,
            "t".to_string(),
            "",
            CreateTree { project_id: None, name: "t".to_string(), system_prompt: None },
        ),
        no_time
    );
    assert_eq!(db.trees().len(), 0);
    assert_eq!(
        set_setting(&mut db, "k".to_string(), "v".to_string(), ""),
        Err(AppError::no_time())
    );
    assert_eq!(db.settings().len(), 0);
    insert_tree(
        &mut db,
        "t".to_string(),
        "t0",
        CreateTree { project_id: None, name: "t".to_string(), system_prompt: None },
    ).unwrap();
    let input = CreateNode {
        tree_id: "t".to_string(),
        parent_id: None,
        user_content: "q".to_string(),
        assistant_content: None,
        summary: None,
        model: None,
        tokens: None,
    };
    assert_eq!(insert_node(&mut db, "n".to_string(), "", input.clone()), Err(AppError::no_time()));
    assert_eq!(db.nodes().len(), 0);
    let made = insert_node(&mut db, "n".to_string(), "t1", input.clone()).unwrap();
    // what stands against the write otherwise is reported first
    assert_eq!(insert_node(&mut db, "n".to_string(), "", input), Err(AppError::Conflict));
    assert_eq!(
        tangential::commands::nodes::delete_node(&mut db, "zz".to_string(), ""),
        Err(AppError::NotFound(EntityKind::Node, "zz".to_string()))
    );
    assert_eq!(
        tangential::commands::nodes::delete_node(&mut db, "n".to_string(), ""),
        Err(AppError::no_time())
    );
    assert_eq!(
        tangential::commands::nodes::restore_node(&mut db, "n".to_string(), ""),
        Err(AppError::NotFound(EntityKind::Node, "n".to_string()))
    );
    assert_eq!(db.nodes(), &vec![made]);
}
