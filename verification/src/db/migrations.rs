//! Schema upgrades and the ledger that keeps each from running twice.
//!
//! The ledger decides which upgrades are due; carrying out their statements
//! against the physical store is the caller's part. A caller that runs the
//! statements itself asks [`Ledger::pending`] what is due and calls
//! [`Ledger::record`] after each upgrade that went through, so that an
//! upgrade that failed is not recorded.

use vstd::prelude::*;
use crate::models::views;

verus! {

/// A named batch of schema statements.
#[derive(Debug, PartialEq, Eq)]
pub struct Migration {
    pub name: String,
    pub statements: String,
}

/// A migration as plain values.
pub struct MigrationView {
    pub name: Seq<char>,
    pub statements: Seq<char>,
}

impl View for Migration {
    type V = MigrationView;

    open spec fn view(&self) -> MigrationView {
        MigrationView { name: self.name@, statements: self.statements@ }
    }
}

impl Clone for Migration {
    fn clone(&self) -> (r: Self)
        ensures
            r == *self,
    {
        Migration { name: self.name.clone(), statements: self.statements.clone() }
    }
}

/// The names of the migrations, in declared order.
pub open spec fn names_of(migrations: Seq<MigrationView>) -> Seq<Seq<char>> {
    Seq::new(migrations.len(), |i: int| migrations[i].name)
}

/// The ledger after a run over `names`, in declared order: each name that
/// was not yet recorded when its turn came is recorded.
pub open spec fn ledger_after(ledger: Seq<Seq<char>>, names: Seq<Seq<char>>) -> Seq<Seq<char>>
    decreases names.len(),
{
    if names.len() == 0 {
        ledger
    } else {
        let earlier = ledger_after(ledger, names.drop_last());
        if earlier.contains(names.last()) {
            earlier
        } else {
            earlier.push(names.last())
        }
    }
}

/// The positions of the migrations that a run over `names` applies, in
/// declared order: those whose name was not yet recorded when their turn
/// came.
pub open spec fn applied_by(ledger: Seq<Seq<char>>, names: Seq<Seq<char>>) -> Seq<int>
    decreases names.len(),
{
    if names.len() == 0 {
        Seq::empty()
    } else {
        let earlier = ledger_after(ledger, names.drop_last());
        let applied = applied_by(ledger, names.drop_last());
        if earlier.contains(names.last()) {
            applied
        } else {
            applied.push(names.len() - 1)
        }
    }
}

/// The texts of a list of names.
pub open spec fn texts(names: Seq<String>) -> Seq<Seq<char>> {
    Seq::new(names.len(), |i: int| names[i]@)
}

/// Where a run stops: at the batch that fails, if that migration is due
/// when its turn comes; at the end of the list otherwise. A migration that
/// is not due is not run, so its batch cannot fail.
pub open spec fn stop_of(ledger: Seq<Seq<char>>, names: Seq<Seq<char>>, failing: Option<int>) -> int {
    match failing {
        Some(p) => if 0 <= p < names.len() && !ledger_after(ledger, names.take(p)).contains(
            names[p],
        ) {
            p
        } else {
            names.len() as int
        },
        None => names.len() as int,
    }
}

/// The positions in a list of due migrations, as integers.
pub open spec fn positions(due: Seq<usize>) -> Seq<int> {
    Seq::new(due.len(), |i: int| due[i] as int)
}

/// A run keeps what the ledger held and records every name it passed.
pub proof fn lemma_run_records(ledger: Seq<Seq<char>>, names: Seq<Seq<char>>)
    ensures
        forall|name: Seq<char>| ledger.contains(name) ==> ledger_after(ledger, names).contains(name),
        forall|i: int| 0 <= i < names.len() ==> ledger_after(ledger, names).contains(names[i]),
    decreases names.len(),
{
    if names.len() > 0 {
        let head = names.drop_last();
        let earlier = ledger_after(ledger, head);
        let after = ledger_after(ledger, names);
        lemma_run_records(ledger, head);
        assert forall|name: Seq<char>| earlier.contains(name) implies after.contains(name) by {
            if !earlier.contains(names.last()) {
                let k = choose|k: int| 0 <= k < earlier.len() && earlier[k] == name;
                assert(after[k] == name);
            }
        }
        assert forall|i: int| 0 <= i < names.len() implies after.contains(names[i]) by {
            if i < names.len() - 1 {
                assert(head[i] == names[i]);
            } else if !earlier.contains(names.last()) {
                assert(after[earlier.len() as int] == names.last());
            }
        }
    }
}

/// After a run the ledger holds what it held before and the names it
/// passed, and nothing else.
pub proof fn lemma_run_holds(ledger: Seq<Seq<char>>, names: Seq<Seq<char>>)
    ensures
        forall|name: Seq<char>| #[trigger]
            ledger_after(ledger, names).contains(name) <==> ledger.contains(name) || names.contains(
                name,
            ),
    decreases names.len(),
{
    lemma_run_records(ledger, names);
    if names.len() > 0 {
        let head = names.drop_last();
        let earlier = ledger_after(ledger, head);
        let after = ledger_after(ledger, names);
        lemma_run_holds(ledger, head);
        assert forall|name: Seq<char>| #[trigger] after.contains(name) implies ledger.contains(name)
            || names.contains(name) by {
            let k = choose|k: int| 0 <= k < after.len() && after[k] == name;
            if k < earlier.len() {
                assert(earlier[k] == name);
                assert(earlier.contains(name));
                if head.contains(name) {
                    let h = choose|h: int| 0 <= h < head.len() && head[h] == name;
                    assert(names[h] == name);
                }
            } else {
                assert(names[names.len() - 1] == name);
            }
        }
        assert forall|name: Seq<char>| names.contains(name) implies #[trigger] after.contains(name) by {
            let k = choose|k: int| 0 <= k < names.len() && names[k] == name;
            assert(after.contains(names[k]));
        }
    } else {
        assert forall|name: Seq<char>| !names.contains(name) by {}
    }
}

/// A run applies the migration at a position exactly where its name is new:
/// the ledger did not hold it and no earlier migration carries it. The
/// positions come out in ascending order.
pub proof fn lemma_run_applies(ledger: Seq<Seq<char>>, names: Seq<Seq<char>>)
    ensures
        forall|i: int| #[trigger]
            applied_by(ledger, names).contains(i) <==> 0 <= i < names.len() && !ledger.contains(
                names[i],
            ) && !names.take(i).contains(names[i]),
        forall|a: int, b: int|
            0 <= a < b < applied_by(ledger, names).len() ==> applied_by(ledger, names)[a]
                < applied_by(ledger, names)[b],
        forall|a: int|
            0 <= a < applied_by(ledger, names).len() ==> 0 <= #[trigger] applied_by(ledger, names)[a]
                < names.len(),
    decreases names.len(),
{
    let applied = applied_by(ledger, names);
    if names.len() > 0 {
        let last = names.len() - 1;
        let head = names.drop_last();
        let earlier = ledger_after(ledger, head);
        let before = applied_by(ledger, head);
        lemma_run_applies(ledger, head);
        lemma_run_holds(ledger, head);
        assert(names.take(last) =~= head);
        assert forall|i: int| 0 <= i < last implies names.take(i) == head.take(i) && names[i]
            == head[i] by {
            assert(names.take(i) =~= head.take(i));
        }
        assert forall|i: int| #[trigger]
            applied.contains(i) <==> 0 <= i < names.len() && !ledger.contains(names[i])
                && !names.take(i).contains(names[i]) by {
            if applied.contains(i) {
                let a = choose|a: int| 0 <= a < applied.len() && applied[a] == i;
                if a < before.len() {
                    assert(before[a] == i);
                    assert(before.contains(i));
                }
            }
            if 0 <= i < last && !ledger.contains(names[i]) && !names.take(i).contains(names[i]) {
                assert(before.contains(i));
                let a = choose|a: int| 0 <= a < before.len() && before[a] == i;
                assert(applied[a] == i);
            }
            if i == last && !ledger.contains(names[i]) && !names.take(i).contains(names[i]) {
                assert(applied[before.len() as int] == i);
            }
        }
    } else {
        assert forall|i: int| !applied.contains(i) by {}
    }
}

/// A run over names that the ledger holds already applies nothing and leaves
/// the ledger as it is.
pub proof fn lemma_run_settled(ledger: Seq<Seq<char>>, names: Seq<Seq<char>>)
    requires
        forall|i: int| 0 <= i < names.len() ==> ledger.contains(names[i]),
    ensures
        ledger_after(ledger, names) == ledger,
        applied_by(ledger, names) == Seq::<int>::empty(),
    decreases names.len(),
{
    if names.len() > 0 {
        let head = names.drop_last();
        assert forall|i: int| 0 <= i < head.len() implies ledger.contains(head[i]) by {
            assert(head[i] == names[i]);
        }
        lemma_run_settled(ledger, head);
        assert(ledger.contains(names[names.len() - 1]));
    }
}

/// A run over a list is a run over its first part, then one over the rest.
pub proof fn lemma_run_in_parts(ledger: Seq<Seq<char>>, first: Seq<Seq<char>>, rest: Seq<Seq<char>>)
    ensures
        ledger_after(ledger, first + rest) == ledger_after(ledger_after(ledger, first), rest),
    decreases rest.len(),
{
    if rest.len() == 0 {
        assert(first + rest =~= first);
    } else {
        lemma_run_in_parts(ledger, first, rest.drop_last());
        assert((first + rest).drop_last() =~= first + rest.drop_last());
        assert((first + rest).last() == rest.last());
    }
}

/// A run that a failing batch ended is taken up by the next run: the two
/// together leave the ledger as one run without a failure would.
pub proof fn lemma_run_resumes(ledger: Seq<Seq<char>>, names: Seq<Seq<char>>, p: int)
    requires
        0 <= p <= names.len(),
    ensures
        ledger_after(ledger_after(ledger, names.take(p)), names) == ledger_after(ledger, names),
{
    let first = names.take(p);
    let rest = names.skip(p);
    let stopped = ledger_after(ledger, first);
    assert(first + rest =~= names);
    lemma_run_records(ledger, first);
    lemma_run_settled(stopped, first);
    lemma_run_in_parts(stopped, first, rest);
    lemma_run_in_parts(ledger, first, rest);
}

/// A run from a ledger that holds none of the names, over names that do not
/// repeat, records them all in their order.
pub proof fn lemma_run_of_new_names(ledger: Seq<Seq<char>>, names: Seq<Seq<char>>)
    requires
        names.no_duplicates(),
        forall|i: int| 0 <= i < names.len() ==> !ledger.contains(names[i]),
    ensures
        ledger_after(ledger, names) == ledger + names,
    decreases names.len(),
{
    if names.len() == 0 {
        assert(ledger + names =~= ledger);
    } else {
        let head = names.drop_last();
        assert forall|i: int| 0 <= i < head.len() implies !ledger.contains(head[i]) by {
            assert(head[i] == names[i]);
        }
        lemma_run_of_new_names(ledger, head);
        let earlier = ledger + head;
        if earlier.contains(names.last()) {
            let k = choose|k: int| 0 <= k < earlier.len() && earlier[k] == names.last();
            if k < ledger.len() {
                assert(ledger[k] == names.last());
                assert(ledger.contains(names[names.len() - 1]));
            } else {
                assert(names[k - ledger.len()] == names[names.len() - 1]);
            }
        }
        assert(earlier.push(names.last()) =~= ledger + names);
    }
}

/// A run records no name twice.
pub proof fn lemma_run_distinct(ledger: Seq<Seq<char>>, names: Seq<Seq<char>>)
    requires
        ledger.no_duplicates(),
    ensures
        ledger_after(ledger, names).no_duplicates(),
    decreases names.len(),
{
    if names.len() > 0 {
        lemma_run_distinct(ledger, names.drop_last());
    }
}

/// The names of the migrations that have been applied, none twice.
pub struct Ledger {
    applied: Vec<String>,
}

impl View for Ledger {
    type V = Seq<Seq<char>>;

    closed spec fn view(&self) -> Seq<Seq<char>> {
        texts(self.applied@)
    }
}

/// How a run ended: the positions of the migrations it applied, in order,
/// and the position of the batch that failed, if one did.
#[derive(Debug, PartialEq, Eq)]
pub struct Run {
    pub applied: Vec<usize>,
    pub failed: Option<usize>,
}

impl Ledger {
    /// What holds of every ledger: no name is recorded twice.
    #[verifier::type_invariant]
    closed spec fn inv(&self) -> bool {
        self@.no_duplicates()
    }

    /// The ledger of a store to which nothing was applied yet.
    pub fn new() -> (r: Ledger)
        ensures
            r@ == Seq::<Seq<char>>::empty(),
    {
        Ledger { applied: Vec::new() }
    }

    /// A ledger that holds the names read from the store, each once: a name
    /// that comes again is passed over.
    pub fn from_names(names: Vec<String>) -> (r: Ledger)
        ensures
            r@ == ledger_after(Seq::empty(), texts(names@)),
            r@.no_duplicates(),
            texts(names@).no_duplicates() ==> r@ == texts(names@),
    {
        let ghost all = texts(names@);
        let mut ledger = Ledger::new();
        let mut i: usize = 0;
        proof {
            assert(all.take(0) =~= Seq::<Seq<char>>::empty());
        }
        while i < names.len()
            invariant
                i <= names.len(),
                all == texts(names@),
                ledger@ == ledger_after(Seq::empty(), all.take(i as int)),
            decreases names.len() - i,
        {
            proof {
                assert(all.take(i + 1).drop_last() =~= all.take(i as int));
                assert(all.take(i + 1).last() == names@[i as int]@);
            }
            ledger.record(names[i].clone());
            i = i + 1;
        }
        proof {
            assert(all.take(i as int) =~= all);
            use_type_invariant(&ledger);
            if all.no_duplicates() {
                lemma_run_of_new_names(Seq::empty(), all);
                assert(Seq::<Seq<char>>::empty() + all =~= all);
            }
        }
        ledger
    }

    /// The names recorded, in the order in which they were, none twice.
    pub fn names(&self) -> (r: &Vec<String>)
        ensures
            texts(r@) == self@,
            self@.no_duplicates(),
    {
        proof {
            use_type_invariant(self);
        }
        &self.applied
    }

    /// Whether a migration of this name was applied.
    pub fn is_applied(&self, name: &String) -> (r: bool)
        ensures
            r == self@.contains(name@),
    {
        let mut i: usize = 0;
        while i < self.applied.len()
            invariant
                i <= self.applied.len(),
                forall|k: int| 0 <= k < i ==> self@[k] != name@,
            decreases self.applied.len() - i,
        {
            if self.applied[i] == *name {
                assert(self@[i as int] == name@);
                return true;
            }
            i = i + 1;
        }
        false
    }

    /// Records a migration as applied. Returns whether the name is new to
    /// the ledger; a name that it holds already is not recorded again.
    pub fn record(&mut self, name: String) -> (r: bool)
        ensures
            r == !old(self)@.contains(name@),
            final(self)@ == if r {
                old(self)@.push(name@)
            } else {
                old(self)@
            },
            final(self)@.no_duplicates(),
    {
        proof {
            use_type_invariant(&*self);
        }
        if self.is_applied(&name) {
            false
        } else {
            let mut held: Vec<String> = Vec::new();
            assert(texts(held@) =~= Seq::<Seq<char>>::empty());
            core::mem::swap(&mut self.applied, &mut held);
            held.push(name);
            proof {
                assert(texts(held@) =~= old(self)@.push(name@));
                assert forall|a: int, b: int|
                    0 <= a < texts(held@).len() && 0 <= b < texts(held@).len() && a != b implies texts(
                    held@,
                )[a] != texts(held@)[b] by {
                    if a < old(self)@.len() && b < old(self)@.len() {
                        assert(old(self)@[a] != old(self)@[b]);
                    }
                }
            }
            core::mem::swap(&mut self.applied, &mut held);
            true
        }
    }

    /// The positions of the migrations that are due, in declared order,
    /// each name once. The ledger is not changed.
    pub fn pending(&self, migrations: &Vec<Migration>) -> (due: Vec<usize>)
        ensures
            positions(due@) == applied_by(self@, names_of(views(migrations@))),
            due@.len() == applied_by(self@, names_of(views(migrations@))).len(),
    {
        proof {
            use_type_invariant(self);
        }
        let mut held: Vec<String> = Vec::new();
        let mut c: usize = 0;
        while c < self.applied.len()
            invariant
                c <= self.applied.len(),
                held@.len() == c,
                forall|k: int| 0 <= k < c ==> held@[k] == self.applied@[k],
            decreases self.applied.len() - c,
        {
            held.push(self.applied[c].clone());
            c = c + 1;
        }
        assert(texts(held@) =~= self@);
        let mut scratch = Ledger { applied: held };
        scratch.run_migrations(migrations)
    }

    /// Runs the migrations in declared order: each one whose name the ledger
    /// does not hold is applied and recorded, so none is ever applied a
    /// second time. Returns the positions of those applied, in order. The
    /// ledger then holds every name of the list, each once.
    pub fn run_migrations(&mut self, migrations: &Vec<Migration>) -> (applied: Vec<usize>)
        ensures
            final(self)@ == ledger_after(old(self)@, names_of(views(migrations@))),
            positions(applied@) == applied_by(old(self)@, names_of(views(migrations@))),
            applied@.len() == applied_by(old(self)@, names_of(views(migrations@))).len(),
            final(self)@.no_duplicates(),
            forall|i: int|
                0 <= i < migrations@.len() ==> final(self)@.contains(
                    (#[trigger] migrations@[i])@.name,
                ),
    {
        let ghost names = names_of(views(migrations@));
        let run = self.run_until_failure(migrations, None);
        proof {
            assert(names.take(names.len() as int) =~= names);
            lemma_run_records(old(self)@, names);
            assert forall|i: int| 0 <= i < migrations@.len() implies self@.contains(
                (#[trigger] migrations@[i])@.name,
            ) by {
                assert(names[i] == migrations@[i]@.name);
            }
        }
        run.applied
    }

    /// Runs the migrations in declared order as [`Ledger::run_migrations`]
    /// does, where the batch at position `failing` fails if it is run. The
    /// run ends at that batch: its name is not recorded, and no later
    /// migration is applied. A run without a failing batch, or with one whose
    /// migration is not due, goes to the end of the list.
    pub fn run_until_failure(&mut self, migrations: &Vec<Migration>, failing: Option<usize>) -> (run:
        Run)
        ensures
            ({
                let names = names_of(views(migrations@));
                let stop = stop_of(
                    old(self)@,
                    names,
                    match failing {
                        Some(p) => Some(p as int),
                        None => None,
                    },
                );
                &&& final(self)@ == ledger_after(old(self)@, names.take(stop))
                &&& positions(run.applied@) == applied_by(old(self)@, names.take(stop))
                &&& run.applied@.len() == applied_by(old(self)@, names.take(stop)).len()
                &&& run.failed == if stop < names.len() {
                    failing
                } else {
                    None
                }
                &&& final(self)@.no_duplicates()
            }),
    {
        let ghost names = names_of(views(migrations@));
        let mut applied: Vec<usize> = Vec::new();
        let mut i: usize = 0;
        proof {
            assert(names.take(0) =~= Seq::<Seq<char>>::empty());
            assert(positions(applied@) =~= applied_by(old(self)@, names.take(0)));
        }
        while i < migrations.len()
            invariant
                i <= migrations.len(),
                names == names_of(views(migrations@)),
                self@ == ledger_after(old(self)@, names.take(i as int)),
                positions(applied@) == applied_by(old(self)@, names.take(i as int)),
                failing is Some && failing->0 < i ==> stop_of(old(self)@, names, Some(failing->0 as int))
                    == names.len(),
            decreases migrations.len() - i,
        {
            proof {
                assert(names.take(i + 1).drop_last() =~= names.take(i as int));
                assert(names.take(i + 1).last() == migrations@[i as int]@.name);
            }
            let fails_here = match failing {
                Some(p) => p == i,
                None => false,
            };
            if fails_here && !self.is_applied(&migrations[i].name) {
                proof {
                    use_type_invariant(&*self);
                }
                return Run { applied, failed: failing };
            }
            let ghost before = applied@;
            if self.record(migrations[i].name.clone()) {
                applied.push(i);
                assert(positions(applied@) =~= positions(before).push(i as int));
            }
            i = i + 1;
        }
        proof {
            assert(names.take(i as int) =~= names);
            use_type_invariant(&*self);
        }
        Run { applied, failed: None }
    }
}

} // verus!
