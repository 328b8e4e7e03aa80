//! The order in which text is sorted: byte by byte over its UTF-8 encoding,
//! a proper prefix before any of its extensions.

use vstd::prelude::*;
use vstd::utf8::{encode_utf8, encode_utf8_decode_utf8};

verus! {

/// `a` and `b` agree on their first `k` bytes, and there `a` ends or holds the
/// smaller byte.
pub open spec fn parts_at(a: Seq<u8>, b: Seq<u8>, k: int) -> bool {
    &&& 0 <= k <= a.len()
    &&& k < b.len()
    &&& forall|j: int| 0 <= j < k ==> a[j] == b[j]
    &&& k < a.len() ==> a[k] < b[k]
}

/// `a` sorts strictly before `b`, byte by byte.
pub open spec fn bytes_before(a: Seq<u8>, b: Seq<u8>) -> bool {
    exists|k: int| parts_at(a, b, k)
}

/// `a` sorts strictly before `b`.
pub open spec fn before(a: Seq<char>, b: Seq<char>) -> bool {
    bytes_before(encode_utf8(a), encode_utf8(b))
}

/// Nothing sorts before itself.
pub proof fn lemma_before_irreflexive(a: Seq<char>)
    ensures
        !before(a, a),
{
}

/// The order is transitive.
pub proof fn lemma_before_transitive(a: Seq<char>, b: Seq<char>, c: Seq<char>)
    requires
        before(a, b),
        before(b, c),
    ensures
        before(a, c),
{
    let x = encode_utf8(a);
    let y = encode_utf8(b);
    let z = encode_utf8(c);
    let k1 = choose|k: int| parts_at(x, y, k);
    let k2 = choose|k: int| parts_at(y, z, k);
    let k = if k1 <= k2 { k1 } else { k2 };
    assert(parts_at(x, z, k));
}

proof fn lemma_bytes_compare(a: Seq<u8>, b: Seq<u8>, n: int)
    requires
        0 <= n <= a.len(),
        n <= b.len(),
        forall|j: int| 0 <= j < n ==> a[j] == b[j],
    ensures
        a == b || bytes_before(a, b) || bytes_before(b, a),
    decreases a.len() - n,
{
    if n == a.len() {
        if n == b.len() {
            assert(a =~= b);
        } else {
            assert(parts_at(a, b, n));
        }
    } else if n == b.len() {
        assert(parts_at(b, a, n));
    } else if a[n] < b[n] {
        assert(parts_at(a, b, n));
    } else if b[n] < a[n] {
        assert(parts_at(b, a, n));
    } else {
        lemma_bytes_compare(a, b, n + 1);
    }
}

/// Of two different texts one sorts before the other.
pub proof fn lemma_before_total(a: Seq<char>, b: Seq<char>)
    ensures
        a == b || before(a, b) || before(b, a),
{
    lemma_bytes_compare(encode_utf8(a), encode_utf8(b), 0);
    if encode_utf8(a) == encode_utf8(b) {
        encode_utf8_decode_utf8(a);
        encode_utf8_decode_utf8(b);
    }
}

/// Never both ways.
pub proof fn lemma_before_asymmetric(a: Seq<char>, b: Seq<char>)
    requires
        before(a, b),
    ensures
        !before(b, a),
{
    if before(b, a) {
        lemma_before_transitive(a, b, a);
    }
}

/// Not sorting before is transitive too: if `b` does not sort before `a`,
/// nor `c` before `b`, then `c` does not sort before `a`.
pub proof fn lemma_not_before_transitive(a: Seq<char>, b: Seq<char>, c: Seq<char>)
    requires
        !before(b, a),
        !before(c, b),
    ensures
        !before(c, a),
{
    if before(c, a) {
        lemma_before_total(a, b);
        if before(a, b) {
            lemma_before_transitive(c, a, b);
        }
    }
}

/// Whether `a` sorts strictly before `b`.
pub fn sorts_before(a: &str, b: &str) -> (r: bool)
    ensures
        r == before(a@, b@),
{
    let x = a.as_bytes();
    let y = b.as_bytes();
    let mut i: usize = 0;
    while i < x.len() && i < y.len()
        invariant
            i <= x.len(),
            i <= y.len(),
            x@ == encode_utf8(a@),
            y@ == encode_utf8(b@),
            forall|j: int| 0 <= j < i ==> x@[j] == y@[j],
        decreases x.len() - i,
    {
        if x[i] != y[i] {
            let smaller = x[i] < y[i];
            proof {
                if smaller {
                    assert(parts_at(x@, y@, i as int));
                } else {
                    assert forall|k: int| !parts_at(x@, y@, k) by {
                        if parts_at(x@, y@, k) {
                            if k > i {
                                assert(x@[i as int] == y@[i as int]);
                            }
                        }
                    }
                }
            }
            return smaller;
        }
        i = i + 1;
    }
    let shorter = x.len() < y.len();
    proof {
        if shorter {
            assert(parts_at(x@, y@, i as int));
        } else {
            assert forall|k: int| !parts_at(x@, y@, k) by {}
        }
    }
    shorter
}

} // verus!
