use tangential::commands::settings::{
    delete_setting, get_setting, get_setting_value, list_settings, set_setting,
};
use tangential::db::Database;
use tangential::error::{AppError, EntityKind};
use tangential::models::Setting;

fn put(db: &mut Database, key: &str, value: &str, now: &str) -> Setting {
    set_setting(db, key.to_string(), value.to_string(), now).unwrap()
}

#[test]
fn stored_setting_is_read_back_as_written() {
    let mut db = Database::new();
    let made = put(&mut db, "theme", "dark", "2024-01-01 10:00:00");
    let expected = Setting {
        key: "theme".to_string(),
        value: "dark".to_string(),
        created_at: "2024-01-01 10:00:00".to_string(),
        updated_at: None,
    };
    assert_eq!(made, expected);
    assert_eq!(get_setting(&db, "theme".to_string()), Ok(expected));
    assert_eq!(get_setting_value(&db, "theme".to_string()), Ok(Some("dark".to_string())));
}

#[test]
fn setting_a_key_twice_keeps_one_row_with_the_last_value() {
    let mut db = Database::new();
    put(&mut db, "k", "v1", "t1");
    let second = put(&mut db, "k", "v2", "t2");
    assert_eq!(get_setting_value(&db, "k".to_string()), Ok(Some("v2".to_string())));
    assert_eq!(
        second,
        Setting {
            key: "k".to_string(),
            value: "v2".to_string(),
            created_at: "t1".to_string(),
            updated_at: Some("t2".to_string()),
        }
    );
    assert_eq!(list_settings(&db), Ok(vec![second]));
}

#[test]
fn unknown_setting_has_no_value_and_is_not_found() {
    let db = Database::new();
    assert_eq!(get_setting_value(&db, "k".to_string()), Ok(None));
    assert_eq!(
        get_setting(&db, "k".to_string()),
        Err(AppError::NotFound(EntityKind::Setting, "k".to_string()))
    );
}

#[test]
fn settings_are_listed_in_key_order() {
    let mut db = Database::new();
    for key in ["m", "b", "z", "ba", "a", "é", "B", ""] {
        put(&mut db, key, "v", "t");
    }
    put(&mut db, "b", "w", "t2");
    let keys: Vec<String> = list_settings(&db).unwrap().into_iter().map(|s| s.key).collect();
    assert_eq!(keys, vec!["", "B", "a", "b", "ba", "m", "z", "é"]);
}

#[test]
fn deleted_setting_is_gone_and_a_second_delete_is_not_found() {
    let mut db = Database::new();
    put(&mut db, "a", "1", "t");
    let b = put(&mut db, "b", "2", "t");
    assert_eq!(delete_setting(&mut db, "a".to_string()), Ok(()));
    assert_eq!(get_setting_value(&db, "a".to_string()), Ok(None));
    assert_eq!(list_settings(&db), Ok(vec![b]));
    assert_eq!(
        delete_setting(&mut db, "a".to_string()),
        Err(AppError::NotFound(EntityKind::Setting, "a".to_string()))
    );
}
