//! The order of a listing. Active rows are listed oldest first by their
//! creation stamp, rows in the trash by their deletion stamp, the one
//! deleted last first; rows with equal stamps keep the order of the table.

use vstd::prelude::*;
use crate::models::{NodeView, ProjectView, TreeView};
use crate::seqs::{lemma_filter_holds, lemma_kept_origin, origin};
use crate::tables::{distinct, lemma_filter_rows, lemma_insert_puts, row_at, Keyed};
use crate::text::{before, lemma_before_asymmetric, lemma_not_before_transitive};

verus! {

/// The text of a deletion stamp; empty for a row that has none.
pub open spec fn stamp_text(deleted_at: Option<Seq<char>>) -> Seq<char> {
    match deleted_at {
        Some(s) => s,
        None => Seq::empty(),
    }
}

/// A row that carries the stamps by which listings are ordered.
pub trait Stamped: Sized {
    /// When the row was created.
    spec fn created(self) -> Seq<char>;

    /// When the row was deleted; the empty text if it was not.
    spec fn deleted(self) -> Seq<char>;
}

impl Stamped for ProjectView {
    open spec fn created(self) -> Seq<char> {
        self.created_at
    }

    open spec fn deleted(self) -> Seq<char> {
        stamp_text(self.deleted_at)
    }
}

impl Stamped for TreeView {
    open spec fn created(self) -> Seq<char> {
        self.created_at
    }

    open spec fn deleted(self) -> Seq<char> {
        stamp_text(self.deleted_at)
    }
}

impl Stamped for NodeView {
    open spec fn created(self) -> Seq<char> {
        self.created_at
    }

    open spec fn deleted(self) -> Seq<char> {
        stamp_text(self.deleted_at)
    }
}

/// The two orders in which rows are listed.
#[derive(Debug, Clone, Copy, PartialEq, Eq, Structural)]
pub enum Order {
    /// By creation stamp, ascending.
    OldestFirst,
    /// By deletion stamp, descending.
    LastDeletedFirst,
}

/// In a listing in this order, `a` may stand ahead of a row `b` that comes
/// after it in the table: `b` was not created before `a`, or not deleted
/// after it.
pub open spec fn stays_ahead<R: Stamped>(order: Order, a: R, b: R) -> bool {
    match order {
        Order::OldestFirst => !before(b.created(), a.created()),
        Order::LastDeletedFirst => !before(a.deleted(), b.deleted()),
    }
}

/// Every row may stand ahead of every row behind it.
pub open spec fn in_order<R: Stamped>(order: Order, rows: Seq<R>) -> bool {
    forall|i: int, j: int|
        #![trigger rows[i], rows[j]]
        0 <= i < j < rows.len() ==> stays_ahead(order, rows[i], rows[j])
}

/// Position `n` parts the rows that stay ahead of `row` from those that
/// give way to it.
pub open spec fn joins_at<R: Stamped>(order: Order, rows: Seq<R>, row: R, n: int) -> bool {
    &&& 0 <= n <= rows.len()
    &&& forall|a: int| 0 <= a < n ==> stays_ahead(order, #[trigger] rows[a], row)
    &&& forall|a: int| n <= a < rows.len() ==> !stays_ahead(order, #[trigger] rows[a], row)
}

/// Where `row` joins a listing: behind every row that stays ahead of it.
pub open spec fn join_slot<R: Stamped>(order: Order, rows: Seq<R>, row: R) -> int {
    choose|n: int| joins_at(order, rows, row, n)
}

/// The rows of a table in the order of a listing: sorted by the stamp of
/// the order, rows with equal stamps in the order of the table.
pub open spec fn listed<R: Stamped>(order: Order, rows: Seq<R>) -> Seq<R>
    decreases rows.len(),
{
    if rows.len() == 0 {
        rows
    } else {
        let earlier = listed(order, rows.drop_last());
        earlier.insert(join_slot(order, earlier, rows.last()), rows.last())
    }
}

/// Of two rows one may stand ahead of the other.
pub proof fn lemma_ahead_or_behind<R: Stamped>(order: Order, a: R, b: R)
    ensures
        stays_ahead(order, a, b) || stays_ahead(order, b, a),
{
    match order {
        Order::OldestFirst => {
            if before(b.created(), a.created()) {
                lemma_before_asymmetric(b.created(), a.created());
            }
        },
        Order::LastDeletedFirst => {
            if before(a.deleted(), b.deleted()) {
                lemma_before_asymmetric(a.deleted(), b.deleted());
            }
        },
    }
}

/// Staying ahead carries over: ahead of a row that is ahead of a third is
/// ahead of the third.
pub proof fn lemma_ahead_chain<R: Stamped>(order: Order, a: R, b: R, c: R)
    requires
        stays_ahead(order, a, b),
        stays_ahead(order, b, c),
    ensures
        stays_ahead(order, a, c),
{
    match order {
        Order::OldestFirst => {
            lemma_not_before_transitive(a.created(), b.created(), c.created());
        },
        Order::LastDeletedFirst => {
            lemma_not_before_transitive(c.deleted(), b.deleted(), a.deleted());
        },
    }
}

/// The position that parts the rows is the slot.
pub proof fn lemma_join_slot_found<R: Stamped>(order: Order, rows: Seq<R>, row: R, n: int)
    requires
        joins_at(order, rows, row, n),
    ensures
        join_slot(order, rows, row) == n,
{
    let m = join_slot(order, rows, row);
    if m < n {
        assert(stays_ahead(order, rows[m], row));
    } else if n < m {
        assert(stays_ahead(order, rows[n], row));
    }
}

/// A listing that is in order has a slot for every row.
pub proof fn lemma_join_slot_exists<R: Stamped>(order: Order, rows: Seq<R>, row: R)
    requires
        in_order(order, rows),
    ensures
        joins_at(order, rows, row, join_slot(order, rows, row)),
    decreases rows.len(),
{
    if rows.len() == 0 {
        assert(joins_at(order, rows, row, 0));
    } else {
        let last = rows.len() - 1;
        if stays_ahead(order, rows[last], row) {
            assert forall|a: int| 0 <= a < rows.len() implies stays_ahead(
                order,
                #[trigger] rows[a],
                row,
            ) by {
                if a < last {
                    assert(stays_ahead(order, rows[a], rows[last]));
                    lemma_ahead_chain(order, rows[a], rows[last], row);
                }
            }
            assert(joins_at(order, rows, row, rows.len() as int));
        } else {
            let head = rows.drop_last();
            assert forall|i: int, j: int| 0 <= i < j < head.len() implies stays_ahead(
                order,
                head[i],
                head[j],
            ) by {
                assert(stays_ahead(order, rows[i], rows[j]));
            }
            lemma_join_slot_exists(order, head, row);
            let n = join_slot(order, head, row);
            assert forall|a: int| 0 <= a < n implies stays_ahead(order, #[trigger] rows[a], row) by {
                assert(stays_ahead(order, head[a], row));
            }
            assert forall|a: int| n <= a < rows.len() implies !stays_ahead(
                order,
                #[trigger] rows[a],
                row,
            ) by {
                if a < last {
                    assert(!stays_ahead(order, head[a], row));
                }
            }
            assert(joins_at(order, rows, row, n));
        }
    }
}

/// A row that joins at its slot leaves the listing in order.
pub proof fn lemma_join_keeps_order<R: Stamped>(order: Order, rows: Seq<R>, row: R)
    requires
        in_order(order, rows),
    ensures
        in_order(order, rows.insert(join_slot(order, rows, row), row)),
{
    lemma_join_slot_exists(order, rows, row);
    let n = join_slot(order, rows, row);
    let after = rows.insert(n, row);
    assert forall|i: int, j: int| 0 <= i < j < after.len() implies stays_ahead(
        order,
        after[i],
        after[j],
    ) by {
        if j < n {
            assert(stays_ahead(order, rows[i], rows[j]));
        } else if j == n {
            assert(stays_ahead(order, rows[i], row));
        } else if i < n {
            assert(stays_ahead(order, rows[i], rows[j - 1]));
        } else if i == n {
            assert(!stays_ahead(order, rows[j - 1], row));
            lemma_ahead_or_behind(order, rows[j - 1], row);
        } else {
            assert(stays_ahead(order, rows[i - 1], rows[j - 1]));
        }
    }
}

/// A listing is in order and holds the rows it was made from, each as often
/// as it occurs among them.
pub proof fn lemma_listed<R: Stamped>(order: Order, rows: Seq<R>)
    ensures
        in_order(order, listed(order, rows)),
        listed(order, rows).len() == rows.len(),
        listed(order, rows).to_multiset() == rows.to_multiset(),
        forall|x: R| #[trigger] listed(order, rows).contains(x) <==> rows.contains(x),
    decreases rows.len(),
{
    broadcast use vstd::seq_lib::group_to_multiset_ensures;

    if rows.len() > 0 {
        let head = rows.drop_last();
        let earlier = listed(order, head);
        let last = rows.last();
        lemma_listed(order, head);
        lemma_join_keeps_order(order, earlier, last);
        lemma_join_slot_exists(order, earlier, last);
        assert(rows =~= head.push(last));
        let n = join_slot(order, earlier, last);
        let after = earlier.insert(n, last);
        assert forall|x: R| #[trigger] after.contains(x) <==> rows.contains(x) by {
            if after.contains(x) {
                let a = choose|a: int| 0 <= a < after.len() && after[a] == x;
                if a < n {
                    assert(earlier[a] == x);
                    assert(earlier.contains(x));
                } else if a > n {
                    assert(earlier[a - 1] == x);
                    assert(earlier.contains(x));
                }
                if head.contains(x) {
                    let h = choose|h: int| 0 <= h < head.len() && head[h] == x;
                    assert(rows[h] == x);
                } else {
                    assert(rows[rows.len() - 1] == x);
                }
            }
            if rows.contains(x) {
                let i = choose|i: int| 0 <= i < rows.len() && rows[i] == x;
                if i < head.len() {
                    assert(head[i] == x);
                    assert(earlier.contains(x));
                    let a = choose|a: int| 0 <= a < earlier.len() && earlier[a] == x;
                    if a < n {
                        assert(after[a] == x);
                    } else {
                        assert(after[a + 1] == x);
                    }
                } else {
                    assert(after[n] == x);
                }
            }
        }
    }
}

/// A listing of rows that are in order already is those rows.
pub proof fn lemma_listed_in_order<R: Stamped>(order: Order, rows: Seq<R>)
    requires
        in_order(order, rows),
    ensures
        listed(order, rows) == rows,
    decreases rows.len(),
{
    if rows.len() > 0 {
        let head = rows.drop_last();
        assert forall|i: int, j: int| 0 <= i < j < head.len() implies stays_ahead(
            order,
            head[i],
            head[j],
        ) by {
            assert(stays_ahead(order, rows[i], rows[j]));
        }
        lemma_listed_in_order(order, head);
        assert forall|a: int| 0 <= a < head.len() implies stays_ahead(
            order,
            #[trigger] head[a],
            rows.last(),
        ) by {
            assert(stays_ahead(order, rows[a], rows[rows.len() - 1]));
        }
        assert(joins_at(order, head, rows.last(), head.len() as int));
        lemma_join_slot_found(order, head, rows.last(), head.len() as int);
        assert(head.insert(head.len() as int, rows.last()) =~= rows);
    }
}

/// A listing of rows with distinct keys has distinct keys.
pub proof fn lemma_listed_distinct<R: Stamped + Keyed>(order: Order, rows: Seq<R>)
    requires
        distinct(rows),
    ensures
        distinct(listed(order, rows)),
    decreases rows.len(),
{
    if rows.len() > 0 {
        let head = rows.drop_last();
        let earlier = listed(order, head);
        let last = rows.last();
        assert forall|i: int, j: int| 0 <= i < j < head.len() implies head[i].key() != head[j].key() by {
            assert(rows[i].key() != rows[j].key());
        }
        lemma_listed_distinct(order, head);
        lemma_listed(order, head);
        lemma_join_slot_exists(order, earlier, last);
        assert forall|a: int| !row_at(earlier, a, last.key()) by {
            if row_at(earlier, a, last.key()) {
                assert(earlier.contains(earlier[a]));
                let h = choose|h: int| 0 <= h < head.len() && head[h] == earlier[a];
                assert(rows[h].key() == rows[rows.len() - 1].key());
            }
        }
        lemma_insert_puts(earlier, join_slot(order, earlier, last), last);
    }
}

/// `listing` shows the rows of a table that satisfy `keep`: those and no
/// others, each once, in this order.
pub open spec fn shows<R: Stamped + Keyed>(
    order: Order,
    listing: Seq<R>,
    rows: Seq<R>,
    keep: spec_fn(R) -> bool,
) -> bool {
    &&& in_order(order, listing)
    &&& listing.len() == rows.filter(keep).len()
    &&& forall|x: R| #[trigger] listing.contains(x) <==> rows.contains(x) && keep(x)
    &&& distinct(rows) ==> distinct(listing)
}

/// The listing of the rows that a filter keeps shows those rows.
pub proof fn lemma_shows<R: Stamped + Keyed>(order: Order, rows: Seq<R>, keep: spec_fn(R) -> bool)
    ensures
        shows(order, listed(order, rows.filter(keep)), rows, keep),
{
    lemma_listed(order, rows.filter(keep));
    lemma_filter_holds(rows, keep);
    if distinct(rows) {
        lemma_filter_rows(rows, keep);
        lemma_listed_distinct(order, rows.filter(keep));
    }
}

/// Listing and filtering can be done in either order: the rows of a listing
/// that satisfy `p` are the listing of the rows that satisfy `p`.
pub proof fn lemma_listed_filter<R: Stamped>(order: Order, rows: Seq<R>, p: spec_fn(R) -> bool)
    ensures
        listed(order, rows).filter(p) == listed(order, rows.filter(p)),
    decreases rows.len(),
{
    broadcast use vstd::seq_lib::group_filter_ensures;

    if rows.len() == 0 {
        assert(rows.filter(p) =~= rows);
    } else {
        let head = rows.drop_last();
        let x = rows.last();
        let earlier = listed(order, head);
        lemma_listed(order, head);
        lemma_join_slot_exists(order, earlier, x);
        let n = join_slot(order, earlier, x);
        let front = earlier.take(n);
        let back = earlier.skip(n);
        let a = front.filter(p);
        let b = back.filter(p);
        let one = seq![x];
        lemma_listed_filter(order, head, p);
        assert(earlier =~= front + back);
        Seq::filter_distributes_over_add(front, back, p);
        assert(rows =~= head.push(x));
        head.lemma_filter_push(x, p);
        assert(earlier.insert(n, x) =~= (front + one) + back);
        Seq::filter_distributes_over_add(front + one, back, p);
        Seq::filter_distributes_over_add(front, one, p);
        assert(one =~= Seq::<R>::empty().push(x));
        Seq::<R>::empty().lemma_filter_push(x, p);
        assert(Seq::<R>::empty().filter(p) =~= Seq::<R>::empty());
        if p(x) {
            let kept = a + b;
            assert(one.filter(p) =~= one);
            assert forall|i: int| 0 <= i < a.len() implies stays_ahead(order, #[trigger] kept[i], x) by {
                lemma_kept_origin(front, p, i);
                assert(front[origin(front, p, i)] == earlier[origin(front, p, i)]);
            }
            assert forall|i: int| a.len() <= i < kept.len() implies !stays_ahead(
                order,
                #[trigger] kept[i],
                x,
            ) by {
                lemma_kept_origin(back, p, i - a.len());
                assert(back[origin(back, p, i - a.len())] == earlier[n + origin(back, p, i - a.len())]);
            }
            assert(joins_at(order, kept, x, a.len() as int));
            lemma_join_slot_found(order, kept, x, a.len() as int);
            assert(head.filter(p).push(x).drop_last() =~= head.filter(p));
            assert(kept.insert(a.len() as int, x) =~= (a + one) + b);
        } else {
            assert(one.filter(p) =~= Seq::<R>::empty());
            assert((a + Seq::<R>::empty()) + b =~= a + b);
        }
    }
}

} // verus!
