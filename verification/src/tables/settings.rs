//! What each settings operation does to the tables.

use vstd::prelude::*;
use crate::error::{AppErrorView, EntityKind};
use crate::models::SettingView;
use crate::tables::{
    keeps_rows, lemma_insert_puts, lemma_remove_keeps, lemma_row_found, lemma_sorted_distinct,
    lemma_update_puts, puts_row, row_at, row_index, sorted, Keyed, Tables,
};
use crate::text::{before, lemma_before_total, lemma_before_transitive};

verus! {

/// Position `n` parts the rows whose keys sort before `key` from the rest.
pub open spec fn splits_at(rows: Seq<SettingView>, key: Seq<char>, n: int) -> bool {
    &&& 0 <= n <= rows.len()
    &&& forall|a: int| 0 <= a < n ==> before((#[trigger] rows[a]).key, key)
    &&& forall|a: int| n <= a < rows.len() ==> !before((#[trigger] rows[a]).key, key)
}

/// Where a row with this key joins the sorted settings.
pub open spec fn slot(rows: Seq<SettingView>, key: Seq<char>) -> int {
    choose|n: int| splits_at(rows, key, n)
}

/// The position that parts the keys is the slot.
pub proof fn lemma_slot_found(rows: Seq<SettingView>, key: Seq<char>, n: int)
    requires
        splits_at(rows, key, n),
    ensures
        slot(rows, key) == n,
{
    let m = slot(rows, key);
    if m < n {
        assert(before(rows[m].key, key));
    } else if n < m {
        assert(before(rows[n].key, key));
    }
}

/// Sorted settings have a slot for every key.
pub proof fn lemma_slot_exists(rows: Seq<SettingView>, key: Seq<char>)
    requires
        sorted(rows),
    ensures
        splits_at(rows, key, slot(rows, key)),
    decreases rows.len(),
{
    if rows.len() == 0 {
        assert(splits_at(rows, key, 0));
    } else {
        let last = rows.len() - 1;
        if before(rows[last].key, key) {
            assert forall|a: int| 0 <= a < rows.len() implies before((#[trigger] rows[a]).key, key) by {
                if a < last {
                    assert(before(rows[a].key(), rows[last].key()));
                    lemma_before_transitive(rows[a].key, rows[last].key, key);
                }
            }
            assert(splits_at(rows, key, rows.len() as int));
        } else {
            let head = rows.drop_last();
            assert(sorted(head));
            lemma_slot_exists(head, key);
            let n = slot(head, key);
            assert forall|a: int| 0 <= a < n implies before((#[trigger] rows[a]).key, key) by {
                assert(before(head[a].key, key));
            }
            assert forall|a: int| n <= a < rows.len() implies !before((#[trigger] rows[a]).key, key) by {
                if a < last {
                    assert(!before(head[a].key, key));
                }
            }
            assert(splits_at(rows, key, n));
        }
    }
}

impl Tables {
    /// Get: the row with this key.
    pub open spec fn get_setting(self, key: Seq<char>) -> Result<SettingView, AppErrorView> {
        if self.has_setting(key) {
            Ok(self.setting(key))
        } else {
            Err(AppErrorView::NotFound(EntityKind::Setting, key))
        }
    }

    /// The value stored under this key, if any.
    pub open spec fn get_setting_value(self, key: Seq<char>) -> Option<Seq<char>> {
        if self.has_setting(key) {
            Some(self.setting(key).value)
        } else {
            None
        }
    }

    /// The row that a set leaves under `key`: the old row with the new value
    /// and an update stamp, or a new row.
    pub open spec fn stored_setting(self, key: Seq<char>, value: Seq<char>, now: Seq<char>) -> SettingView {
        if self.has_setting(key) {
            SettingView { value, updated_at: Some(now), ..self.setting(key) }
        } else {
            SettingView { key, value, created_at: now, updated_at: None }
        }
    }

    /// Set: replaces the row under `key`, or inserts one at its place in the
    /// order of the keys. There is one row under the key afterwards. A set
    /// without a time is refused.
    pub open spec fn set_setting(self, key: Seq<char>, value: Seq<char>, now: Seq<char>) -> (
        Tables,
        Result<SettingView, AppErrorView>,
    ) {
        let row = self.stored_setting(key, value, now);
        if now.len() == 0 {
            (self, Err(AppErrorView::no_time()))
        } else if self.has_setting(key) {
            (
                Tables { settings: self.settings.update(row_index(self.settings, key), row), ..self },
                Ok(row),
            )
        } else {
            (
                Tables { settings: self.settings.insert(slot(self.settings, key), row), ..self },
                Ok(row),
            )
        }
    }

    /// Delete: removes the row under `key`.
    pub open spec fn delete_setting(self, key: Seq<char>) -> (Tables, Result<(), AppErrorView>) {
        if self.has_setting(key) {
            (Tables { settings: self.settings.remove(row_index(self.settings, key)), ..self }, Ok(()))
        } else {
            (self, Err(AppErrorView::NotFound(EntityKind::Setting, key)))
        }
    }
}

/// A set keeps the settings sorted, and its row is then the one found under
/// the key.
pub proof fn lemma_set_setting(t: Tables, key: Seq<char>, value: Seq<char>, now: Seq<char>)
    requires
        t.wf(),
    ensures
        t.set_setting(key, value, now).0.wf(),
        t.set_setting(key, value, now).1 is Ok <==> now.len() > 0,
        t.set_setting(key, value, now).1 is Ok ==> ({
            let (after, stored) = t.set_setting(key, value, now);
            &&& after.has_setting(key)
            &&& after.setting(key) == stored->Ok_0
            &&& stored->Ok_0.key == key
            &&& stored->Ok_0.value == value
            &&& puts_row(t.settings, after.settings, stored->Ok_0)
        }),
{
    let rows = t.settings;
    let row = t.stored_setting(key, value, now);
    let after = t.set_setting(key, value, now).0.settings;
    lemma_sorted_distinct(rows);
    if now.len() == 0 {
    } else if t.has_setting(key) {
        let k = row_index(rows, key);
        assert(row_at(rows, k, key));
        assert forall|i: int, j: int| 0 <= i < j < after.len() implies before(
            after[i].key(),
            after[j].key(),
        ) by {
            assert(before(rows[i].key(), rows[j].key()));
        }
        assert(row_at(after, k, key));
        lemma_sorted_distinct(after);
        lemma_row_found(after, k, key);
        lemma_update_puts(rows, row);
    } else {
        lemma_slot_exists(rows, key);
        let n = slot(rows, key);
        assert forall|a: int| n <= a < rows.len() implies before(key, (#[trigger] rows[a]).key) by {
            assert(!row_at(rows, a, key));
            lemma_before_total(key, rows[a].key);
        }
        assert forall|i: int, j: int| 0 <= i < j < after.len() implies before(
            after[i].key(),
            after[j].key(),
        ) by {
            if j < n {
                assert(before(rows[i].key(), rows[j].key()));
            } else if j == n {
                assert(before(rows[i].key, key));
            } else if i < n {
                assert(before(rows[i].key(), rows[j - 1].key()));
            } else if i == n {
                assert(before(key, rows[j - 1].key));
            } else {
                assert(before(rows[i - 1].key(), rows[j - 1].key()));
            }
        }
        assert(row_at(after, n, key));
        lemma_sorted_distinct(after);
        lemma_row_found(after, n, key);
        lemma_insert_puts(rows, n, row);
    }
}

/// A delete keeps the settings sorted, and no row is found under the key
/// afterwards.
pub proof fn lemma_delete_setting(t: Tables, key: Seq<char>)
    requires
        t.wf(),
    ensures
        t.delete_setting(key).0.wf(),
        !t.delete_setting(key).0.has_setting(key),
        keeps_rows(t.settings, t.delete_setting(key).0.settings),
        forall|other: Seq<char>|
            other != key && t.has_setting(other) ==> #[trigger] t.delete_setting(
                key,
            ).0.has_setting(other),
{
    let rows = t.settings;
    lemma_sorted_distinct(rows);
    if t.has_setting(key) {
        lemma_remove_keeps(rows, key);
        let k = row_index(rows, key);
        assert(row_at(rows, k, key));
        let after = rows.remove(k);
        assert forall|i: int, j: int| 0 <= i < j < after.len() implies before(
            after[i].key(),
            after[j].key(),
        ) by {
            let i0 = if i < k { i } else { i + 1 };
            let j0 = if j < k { j } else { j + 1 };
            assert(before(rows[i0].key(), rows[j0].key()));
        }
        assert forall|a: int| !row_at(after, a, key) by {
            if 0 <= a < after.len() {
                let a0 = if a < k { a } else { a + 1 };
                assert(after[a] == rows[a0]);
                if rows[a0].key == key {
                    assert(row_at(rows, a0, key));
                    lemma_row_found(rows, a0, key);
                }
            }
        }
    }
}

} // verus!
