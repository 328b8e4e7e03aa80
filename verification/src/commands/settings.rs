//! Operations on settings.

use vstd::prelude::*;
use crate::db::rows::find;
use crate::db::Database;
use crate::error::{shown, shown_rows, AppError, AppErrorView, EntityKind};
use crate::models::{text_of, views, Setting, SettingView};
use crate::tables::settings::{lemma_delete_setting, lemma_set_setting, lemma_slot_found, splits_at};
use crate::tables::{keeps_rows, lemma_sorted_distinct, puts_row, sorted, Keyed};
use crate::text::{before, lemma_before_transitive, sorts_before};

verus! {

/// Looks a setting up by its key.
pub fn get_setting(db: &Database, key: String) -> (r: Result<Setting, AppError>)
    ensures
        shown(r) == db@.get_setting(key@),
{
    proof {
        use_type_invariant(db);
        lemma_sorted_distinct(db@.settings);
    }
    match find(&db.settings, &key) {
        Some(i) => Ok(db.settings[i].clone()),
        None => Err(AppError::NotFound(EntityKind::Setting, key)),
    }
}

/// The value stored under a key, or `None` where there is no such key.
pub fn get_setting_value(db: &Database, key: String) -> (r: Result<Option<String>, AppError>)
    ensures
        r is Ok,
        text_of(r->Ok_0) == db@.get_setting_value(key@),
{
    proof {
        use_type_invariant(db);
        lemma_sorted_distinct(db@.settings);
    }
    match find(&db.settings, &key) {
        Some(i) => Ok(Some(db.settings[i].value.clone())),
        None => Ok(None),
    }
}

/// Stores a value under a key: the row under the key takes the value and an
/// update stamp, or a new row is written where there was none. Never a
/// second row under one key. The only failure is a set without a time.
pub fn set_setting(db: &mut Database, key: String, value: String, now: &str) -> (r: Result<
    Setting,
    AppError,
>)
    ensures
        final(db)@.wf(),
        final(db)@ == old(db)@.set_setting(key@, value@, now@).0,
        shown(r) == old(db)@.set_setting(key@, value@, now@).1,
        r is Ok <==> now@.len() > 0,
        r is Ok ==> puts_row(old(db)@.settings, final(db)@.settings, r->Ok_0@),
{
    proof {
        use_type_invariant(&*db);
        lemma_sorted_distinct(db@.settings);
        lemma_set_setting(db@, key@, value@, now@);
    }
    if now.is_empty() {
        return Err(AppError::no_time());
    }
    match find(&db.settings, &key) {
        Some(i) => {
            let mut row = db.settings[i].clone();
            row.value = value;
            row.updated_at = Some(now.to_owned());
            let out = row.clone();
            let mut rows = db.take_settings();
            rows.set(i, row);
            proof {
                assert(views(rows@) =~= old(db)@.settings.update(i as int, row@));
            }
            db.give_settings(rows);
            Ok(out)
        },
        None => {
            let ghost rows = db@.settings;
            let mut n: usize = 0;
            while n < db.settings.len() && sorts_before(db.settings[n].key.as_str(), key.as_str())
                invariant
                    n <= db.settings.len(),
                    rows == db@.settings,
                    sorted(rows),
                    forall|a: int| 0 <= a < n ==> before((#[trigger] rows[a]).key, key@),
                decreases db.settings.len() - n,
            {
                n = n + 1;
            }
            let row = Setting { key, value, created_at: now.to_owned(), updated_at: None };
            let out = row.clone();
            proof {
                assert forall|a: int| n <= a < rows.len() implies !before(
                    (#[trigger] rows[a]).key,
                    key@,
                ) by {
                    if a > n && before(rows[a].key, key@) {
                        assert(before(rows[n as int].key(), rows[a].key()));
                        lemma_before_transitive(rows[n as int].key, rows[a].key, key@);
                    }
                }
                assert(splits_at(rows, key@, n as int));
                lemma_slot_found(rows, key@, n as int);
            }
            let mut held = db.take_settings();
            held.insert(n, row);
            proof {
                assert(views(held@) =~= rows.insert(n as int, row@));
            }
            db.give_settings(held);
            Ok(out)
        },
    }
}

/// All settings, in ascending order of their keys.
pub fn list_settings(db: &Database) -> (r: Result<Vec<Setting>, AppError>)
    ensures
        shown_rows(r) == Ok::<Seq<SettingView>, AppErrorView>(db@.settings),
        sorted(db@.settings),
{
    proof {
        use_type_invariant(db);
    }
    let mut out: Vec<Setting> = Vec::new();
    let mut i: usize = 0;
    while i < db.settings.len()
        invariant
            i <= db.settings.len(),
            views(out@) == db@.settings.take(i as int),
        decreases db.settings.len() - i,
    {
        let ghost shown_so_far = out@;
        out.push(db.settings[i].clone());
        assert(views(out@) =~= views(shown_so_far).push(db@.settings[i as int]));
        assert(db@.settings.take(i + 1) =~= db@.settings.take(i as int).push(db@.settings[i as int]));
        i = i + 1;
    }
    proof {
        assert(db@.settings.take(i as int) =~= db@.settings);
    }
    Ok(out)
}

/// Removes the setting under a key.
pub fn delete_setting(db: &mut Database, key: String) -> (r: Result<(), AppError>)
    ensures
        final(db)@.wf(),
        final(db)@ == old(db)@.delete_setting(key@).0,
        shown(r) == old(db)@.delete_setting(key@).1,
        r is Ok ==> !final(db)@.has_setting(key@),
        keeps_rows(old(db)@.settings, final(db)@.settings),
{
    proof {
        use_type_invariant(&*db);
        lemma_sorted_distinct(db@.settings);
        lemma_delete_setting(db@, key@);
    }
    match find(&db.settings, &key) {
        Some(i) => {
            let mut rows = db.take_settings();
            rows.remove(i);
            proof {
                assert(views(rows@) =~= old(db)@.settings.remove(i as int));
            }
            db.give_settings(rows);
            Ok(())
        },
        None => Err(AppError::NotFound(EntityKind::Setting, key)),
    }
}

} // verus!
