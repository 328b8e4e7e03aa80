//! What the tables have in common: rows found by a key, and rows listed by
//! a stamp.

use vstd::prelude::*;
use crate::models::{text_of, views, Node, Project, Setting, Tree};
use crate::tables::order::{
    in_order, join_slot, joins_at, lemma_ahead_chain, lemma_join_keeps_order, lemma_join_slot_found,
    lemma_listed, listed, stamp_text, stays_ahead, Order, Stamped,
};
use crate::tables::{distinct, has_row, lemma_row_found, row_at, row_index, Keyed};
use crate::text::{before, sorts_before};

verus! {

/// A row that is found by a key of its own.
pub trait Record: View + Sized where Self::V: Keyed {
    /// The key of the row.
    fn key_ref(&self) -> (k: &String)
        ensures
            k@ == self@.key(),
    ;
}

/// A row that is listed by its stamps.
pub trait Dated: View + Sized where Self::V: Stamped {
    /// When the row was created.
    fn created_ref(&self) -> (s: &String)
        ensures
            s@ == self@.created(),
    ;

    /// When the row was deleted, if it was.
    fn deleted_ref(&self) -> (s: &Option<String>)
        ensures
            stamp_text(text_of(*s)) == self@.deleted(),
    ;

    /// A copy of the row.
    fn duplicate(&self) -> (r: Self)
        ensures
            r@ == self@,
    ;
}

impl Record for Project {
    fn key_ref(&self) -> (k: &String) {
        &self.id
    }
}

impl Record for Tree {
    fn key_ref(&self) -> (k: &String) {
        &self.id
    }
}

impl Record for Node {
    fn key_ref(&self) -> (k: &String) {
        &self.id
    }
}

impl Record for Setting {
    fn key_ref(&self) -> (k: &String) {
        &self.key
    }
}

impl Dated for Project {
    fn created_ref(&self) -> (s: &String) {
        &self.created_at
    }

    fn deleted_ref(&self) -> (s: &Option<String>) {
        &self.deleted_at
    }

    fn duplicate(&self) -> (r: Self) {
        self.clone()
    }
}

impl Dated for Tree {
    fn created_ref(&self) -> (s: &String) {
        &self.created_at
    }

    fn deleted_ref(&self) -> (s: &Option<String>) {
        &self.deleted_at
    }

    fn duplicate(&self) -> (r: Self) {
        self.clone()
    }
}

impl Dated for Node {
    fn created_ref(&self) -> (s: &String) {
        &self.created_at
    }

    fn deleted_ref(&self) -> (s: &Option<String>) {
        &self.deleted_at
    }

    fn duplicate(&self) -> (r: Self) {
        self.clone()
    }
}

/// Where the row with this key stands, if there is one.
pub(crate) fn find<R: Record>(rows: &Vec<R>, key: &String) -> (r: Option<usize>) where R::V: Keyed
    requires
        distinct(views(rows@)),
    ensures
        match r {
            Some(i) => i < rows.len() && has_row(views(rows@), key@) && row_index(
                views(rows@),
                key@,
            ) == i,
            None => !has_row(views(rows@), key@),
        },
{
    let mut i: usize = 0;
    while i < rows.len()
        invariant
            i <= rows.len(),
            distinct(views(rows@)),
            forall|j: int| 0 <= j < i ==> !row_at(views(rows@), j, key@),
        decreases rows.len() - i,
    {
        if *rows[i].key_ref() == *key {
            proof {
                assert(row_at(views(rows@), i as int, key@));
                lemma_row_found(views(rows@), i as int, key@);
            }
            return Some(i);
        }
        i = i + 1;
    }
    None
}

/// Whether no two rows share a key.
pub(crate) fn keys_distinct<R: Record>(rows: &Vec<R>) -> (r: bool) where R::V: Keyed
    ensures
        r == distinct(views(rows@)),
{
    let mut j: usize = 0;
    while j < rows.len()
        invariant
            j <= rows.len(),
            forall|a: int, b: int| 0 <= a < b < j ==> views(rows@)[a].key() != views(rows@)[b].key(),
        decreases rows.len() - j,
    {
        let mut i: usize = 0;
        while i < j
            invariant
                i <= j < rows.len(),
                forall|a: int| 0 <= a < i ==> views(rows@)[a].key() != views(rows@)[j as int].key(),
            decreases j - i,
        {
            if *rows[i].key_ref() == *rows[j].key_ref() {
                assert(views(rows@)[i as int].key() == views(rows@)[j as int].key());
                return false;
            }
            i = i + 1;
        }
        j = j + 1;
    }
    true
}

/// Whether the deletion stamp `a` is earlier than `b`; a missing stamp
/// counts as the empty text.
pub fn deleted_before(a: &Option<String>, b: &Option<String>) -> (r: bool)
    ensures
        r == before(stamp_text(text_of(*a)), stamp_text(text_of(*b))),
{
    let none = String::new();
    let x = match a {
        Some(s) => s.as_str(),
        None => none.as_str(),
    };
    let y = match b {
        Some(s) => s.as_str(),
        None => none.as_str(),
    };
    sorts_before(x, y)
}

/// Whether `a` may stand ahead of `b` in a listing in this order.
pub(crate) fn ahead<R: Dated>(order: Order, a: &R, b: &R) -> (r: bool) where R::V: Stamped
    ensures
        r == stays_ahead(order, a@, b@),
{
    match order {
        Order::OldestFirst => !sorts_before(b.created_ref().as_str(), a.created_ref().as_str()),
        Order::LastDeletedFirst => !deleted_before(a.deleted_ref(), b.deleted_ref()),
    }
}

/// Puts `row` into a listing at its slot: behind every row that stays ahead
/// of it.
pub(crate) fn place<R: Dated>(out: &mut Vec<R>, row: R, order: Order) where R::V: Stamped
    requires
        in_order(order, views(old(out)@)),
    ensures
        views(final(out)@) == views(old(out)@).insert(
            join_slot(order, views(old(out)@), row@),
            row@,
        ),
        in_order(order, views(final(out)@)),
{
    let ghost held = views(out@);
    let mut n: usize = 0;
    while n < out.len() && ahead(order, &out[n], &row)
        invariant
            n <= out.len(),
            held == views(out@),
            forall|a: int| 0 <= a < n ==> stays_ahead(order, #[trigger] held[a], row@),
        decreases out.len() - n,
    {
        n = n + 1;
    }
    proof {
        assert forall|a: int| n <= a < held.len() implies !stays_ahead(
            order,
            #[trigger] held[a],
            row@,
        ) by {
            if a > n && stays_ahead(order, held[a], row@) {
                assert(stays_ahead(order, held[n as int], held[a]));
                lemma_ahead_chain(order, held[n as int], held[a], row@);
            }
        }
        assert(joins_at(order, held, row@, n as int));
        lemma_join_slot_found(order, held, row@, n as int);
        lemma_join_keeps_order(order, held, row@);
        assert(views(out@.insert(n as int, row)) =~= held.insert(n as int, row@));
    }
    out.insert(n, row);
}

/// The rows in the order of a listing: sorted by the stamp of the order,
/// rows with equal stamps in the order in which they came.
pub(crate) fn arrange<R: Dated>(rows: &Vec<R>, order: Order) -> (out: Vec<R>) where R::V: Stamped
    ensures
        views(out@) == listed(order, views(rows@)),
{
    let ghost all = views(rows@);
    let mut out: Vec<R> = Vec::new();
    let mut i: usize = 0;
    proof {
        assert(all.take(0) =~= Seq::<R::V>::empty());
        assert(views(out@) =~= listed(order, all.take(0)));
    }
    while i < rows.len()
        invariant
            i <= rows.len(),
            all == views(rows@),
            views(out@) == listed(order, all.take(i as int)),
        decreases rows.len() - i,
    {
        proof {
            lemma_listed(order, all.take(i as int));
            assert(all.take(i + 1).drop_last() =~= all.take(i as int));
            assert(all.take(i + 1).last() == all[i as int]);
        }
        place(&mut out, rows[i].duplicate(), order);
        i = i + 1;
    }
    proof {
        assert(all.take(i as int) =~= all);
    }
    out
}

} // verus!
