//! Facts about `Seq::filter`: the rows that a filter keeps stay in order, and
//! each kept row can be found again by counting the kept rows before it.

use vstd::prelude::*;

verus! {

/// How many of the first `i` elements of `s` satisfy `p`.
pub open spec fn rank<A>(s: Seq<A>, p: spec_fn(A) -> bool, i: int) -> int {
    s.take(i).filter(p).len() as int
}

/// Extending a prefix by one element extends its filter by that element or
/// not at all.
pub proof fn lemma_filter_step<A>(s: Seq<A>, p: spec_fn(A) -> bool, i: int)
    requires
        0 <= i < s.len(),
    ensures
        s.take(i + 1).filter(p) == if p(s[i]) {
            s.take(i).filter(p).push(s[i])
        } else {
            s.take(i).filter(p)
        },
        rank(s, p, i + 1) == rank(s, p, i) + if p(s[i]) { 1int } else { 0int },
{
    assert(s.take(i + 1) =~= s.take(i).push(s[i]));
    s.take(i).lemma_filter_push(s[i], p);
}

/// The filter of the whole sequence is the filter of its full prefix.
pub proof fn lemma_rank_ends<A>(s: Seq<A>, p: spec_fn(A) -> bool)
    ensures
        rank(s, p, 0) == 0,
        rank(s, p, s.len() as int) == s.filter(p).len(),
{
    reveal(Seq::filter);
    assert(s.take(0) =~= Seq::<A>::empty());
    assert(s.take(s.len() as int) =~= s);
}

/// Counting further never counts less, and the filter of a shorter prefix
/// starts the filter of a longer one.
pub proof fn lemma_rank_monotone<A>(s: Seq<A>, p: spec_fn(A) -> bool, i: int, j: int)
    requires
        0 <= i <= j <= s.len(),
    ensures
        rank(s, p, i) <= rank(s, p, j),
        forall|a: int| 0 <= a < rank(s, p, i) ==> s.take(i).filter(p)[a] == s.take(j).filter(p)[a],
    decreases j - i,
{
    if i < j {
        lemma_rank_monotone(s, p, i, j - 1);
        lemma_filter_step(s, p, j - 1);
    }
}

/// An element that satisfies `p` stands in the filter at its rank.
pub proof fn lemma_kept_position<A>(s: Seq<A>, p: spec_fn(A) -> bool, i: int)
    requires
        0 <= i < s.len(),
        p(s[i]),
    ensures
        0 <= rank(s, p, i) < s.filter(p).len(),
        s.filter(p)[rank(s, p, i)] == s[i],
{
    lemma_filter_step(s, p, i);
    lemma_rank_monotone(s, p, i + 1, s.len() as int);
    lemma_rank_ends(s, p);
    assert(s.take(s.len() as int) =~= s);
}

/// A kept element before another has the smaller rank.
pub proof fn lemma_rank_strict<A>(s: Seq<A>, p: spec_fn(A) -> bool, i: int, j: int)
    requires
        0 <= i < j <= s.len(),
        p(s[i]),
    ensures
        rank(s, p, i) < rank(s, p, j),
{
    lemma_filter_step(s, p, i);
    lemma_rank_monotone(s, p, i + 1, j);
}

/// Where the `a`-th element of the filter stands in `s`.
pub open spec fn origin<A>(s: Seq<A>, p: spec_fn(A) -> bool, a: int) -> int {
    choose|i: int| 0 <= i < s.len() && p(s[i]) && rank(s, p, i) == a
}

proof fn lemma_origin_below<A>(s: Seq<A>, p: spec_fn(A) -> bool, a: int, n: int)
    requires
        0 <= n <= s.len(),
        0 <= a < rank(s, p, n),
    ensures
        exists|i: int| 0 <= i < n && p(s[i]) && rank(s, p, i) == a,
    decreases n,
{
    lemma_rank_ends(s, p);
    if n > 0 {
        lemma_filter_step(s, p, n - 1);
        if a < rank(s, p, n - 1) {
            lemma_origin_below(s, p, a, n - 1);
        } else {
            assert(p(s[n - 1]) && rank(s, p, n - 1) == a);
        }
    }
}

/// Every element of the filter comes from an element of `s` that satisfies
/// `p` and has that rank.
pub proof fn lemma_kept_origin<A>(s: Seq<A>, p: spec_fn(A) -> bool, a: int)
    requires
        0 <= a < s.filter(p).len(),
    ensures
        0 <= origin(s, p, a) < s.len(),
        p(s[origin(s, p, a)]),
        rank(s, p, origin(s, p, a)) == a,
        s.filter(p)[a] == s[origin(s, p, a)],
{
    lemma_rank_ends(s, p);
    lemma_origin_below(s, p, a, s.len() as int);
    lemma_kept_position(s, p, origin(s, p, a));
}

/// Of two elements of the filter the earlier one comes from the earlier
/// element of `s`.
pub proof fn lemma_origin_ordered<A>(s: Seq<A>, p: spec_fn(A) -> bool, a: int, b: int)
    requires
        0 <= a < b < s.filter(p).len(),
    ensures
        origin(s, p, a) < origin(s, p, b),
{
    lemma_kept_origin(s, p, a);
    lemma_kept_origin(s, p, b);
    let i = origin(s, p, a);
    let j = origin(s, p, b);
    if j <= i {
        lemma_rank_monotone(s, p, j, i);
    }
}

/// A filter holds the elements of `s` that satisfy `p`, and no others.
pub proof fn lemma_filter_holds<A>(s: Seq<A>, p: spec_fn(A) -> bool)
    ensures
        forall|x: A| #[trigger] s.filter(p).contains(x) <==> s.contains(x) && p(x),
{
    assert forall|x: A| #[trigger] s.filter(p).contains(x) <==> s.contains(x) && p(x) by {
        if s.filter(p).contains(x) {
            let a = choose|a: int| 0 <= a < s.filter(p).len() && s.filter(p)[a] == x;
            lemma_kept_origin(s, p, a);
            assert(s[origin(s, p, a)] == x);
        }
        if s.contains(x) && p(x) {
            let i = choose|i: int| 0 <= i < s.len() && s[i] == x;
            lemma_kept_position(s, p, i);
            assert(s.filter(p)[rank(s, p, i)] == x);
        }
    }
}

/// Filtering twice is filtering once by both conditions.
pub proof fn lemma_filter_twice<A>(
    s: Seq<A>,
    p: spec_fn(A) -> bool,
    q: spec_fn(A) -> bool,
    both: spec_fn(A) -> bool,
)
    requires
        forall|x: A| #[trigger] both(x) == (p(x) && q(x)),
    ensures
        s.filter(p).filter(q) == s.filter(both),
    decreases s.len(),
{
    if s.len() == 0 {
        s.lemma_filter_len(p);
        s.lemma_filter_len(both);
        s.filter(p).lemma_filter_len(q);
        assert(s.filter(p).filter(q) =~= s.filter(both));
    } else {
        let head = s.drop_last();
        let x = s.last();
        lemma_filter_twice(head, p, q, both);
        assert(s =~= head.push(x));
        head.lemma_filter_push(x, p);
        head.lemma_filter_push(x, both);
        if p(x) {
            head.filter(p).lemma_filter_push(x, q);
        }
    }
}

} // verus!
