//! The order of bottom-k samples, `(hash, observation bytes)`, and the
//! algebra of merging sorted sample sequences.
//!
//! `merge_union` merges two sequences by their heads, keeping one copy of
//! equal heads; on strictly increasing inputs it is their sorted union. A
//! bottom-k merge keeps the first `k` elements of that union.

use vstd::prelude::*;
use crate::lex::{lex_lt, lex_less, lemma_lex_asymmetric, lemma_lex_total, lemma_lex_transitive};
use crate::codec::bytes_equal;

verus! {

/// `a` sorts strictly before `b`: by hash, then by observation bytes.
pub open spec fn sample_lt(a: (u64, Seq<u8>), b: (u64, Seq<u8>)) -> bool {
    a.0 < b.0 || (a.0 == b.0 && lex_lt(a.1, b.1))
}

/// Every element sorts strictly before every later one.
pub open spec fn strictly_sorted(s: Seq<(u64, Seq<u8>)>) -> bool {
    forall|i: int, j: int| #![trigger s[i], s[j]] 0 <= i < j < s.len() ==> sample_lt(s[i], s[j]) && s[i] != s[j]
}

/// The first `n` elements, or all of them when there are fewer.
pub open spec fn prefix(s: Seq<(u64, Seq<u8>)>, n: nat) -> Seq<(u64, Seq<u8>)> {
    if n < s.len() {
        s.take(n as int)
    } else {
        s
    }
}

/// Head-by-head merge that keeps one copy of equal heads.
pub open spec fn merge_union(a: Seq<(u64, Seq<u8>)>, b: Seq<(u64, Seq<u8>)>) -> Seq<(u64, Seq<u8>)>
    decreases a.len() + b.len(),
{
    if a.len() == 0 {
        b
    } else if b.len() == 0 {
        a
    } else if sample_lt(a[0], b[0]) {
        seq![a[0]] + merge_union(a.drop_first(), b)
    } else if sample_lt(b[0], a[0]) {
        seq![b[0]] + merge_union(a, b.drop_first())
    } else {
        seq![a[0]] + merge_union(a.drop_first(), b.drop_first())
    }
}

/// The first `k` elements of the sorted union.
pub open spec fn merge_bottom(a: Seq<(u64, Seq<u8>)>, b: Seq<(u64, Seq<u8>)>, k: nat) -> Seq<(u64, Seq<u8>)> {
    prefix(merge_union(a, b), k)
}

/// The sample order is a strict total order.
pub proof fn lemma_sample_order(a: (u64, Seq<u8>), b: (u64, Seq<u8>), c: (u64, Seq<u8>))
    ensures
        sample_lt(a, b) ==> !sample_lt(b, a),
        !sample_lt(a, a),
        !sample_lt(a, b) && !sample_lt(b, a) ==> a == b,
        sample_lt(a, b) && sample_lt(b, c) ==> sample_lt(a, c),
{
    lemma_lex_asymmetric(a.1, b.1);
    lemma_lex_asymmetric(a.1, a.1);
    lemma_lex_total(a.1, b.1);
    if sample_lt(a, b) && sample_lt(b, c) && a.0 == b.0 && b.0 == c.0 {
        lemma_lex_transitive(a.1, b.1, c.1);
    }
}

/// Merging is commutative.
pub proof fn lemma_union_commutes(a: Seq<(u64, Seq<u8>)>, b: Seq<(u64, Seq<u8>)>)
    ensures
        merge_union(a, b) == merge_union(b, a),
    decreases a.len() + b.len(),
{
    if a.len() > 0 && b.len() > 0 {
        lemma_sample_order(a[0], b[0], a[0]);
        if sample_lt(a[0], b[0]) {
            lemma_union_commutes(a.drop_first(), b);
        } else if sample_lt(b[0], a[0]) {
            lemma_union_commutes(a, b.drop_first());
        } else {
            lemma_union_commutes(a.drop_first(), b.drop_first());
        }
    }
}

/// The head and the rest of a merge of two sequences not both empty.
pub proof fn lemma_union_head(a: Seq<(u64, Seq<u8>)>, b: Seq<(u64, Seq<u8>)>)
    requires
        a.len() > 0 || b.len() > 0,
    ensures
        merge_union(a, b).len() > 0,
        a.len() > 0 && (b.len() == 0 || sample_lt(a[0], b[0])) ==> merge_union(a, b)[0] == a[0]
            && merge_union(a, b).drop_first() == merge_union(a.drop_first(), b),
        b.len() > 0 && (a.len() == 0 || sample_lt(b[0], a[0])) ==> merge_union(a, b)[0] == b[0]
            && merge_union(a, b).drop_first() == merge_union(a, b.drop_first()),
        a.len() > 0 && b.len() > 0 && a[0] == b[0] ==> merge_union(a, b)[0] == a[0] && merge_union(
            a,
            b,
        ).drop_first() == merge_union(a.drop_first(), b.drop_first()),
{
    if a.len() > 0 && b.len() > 0 {
        lemma_sample_order(a[0], b[0], a[0]);
    }
    if a.len() == 0 {
        assert(b.drop_first() =~= merge_union(a, b.drop_first()));
    } else if b.len() == 0 {
        assert(a.drop_first() =~= merge_union(a.drop_first(), b));
    } else if sample_lt(a[0], b[0]) {
        assert((seq![a[0]] + merge_union(a.drop_first(), b)).drop_first() =~= merge_union(a.drop_first(), b));
    } else if sample_lt(b[0], a[0]) {
        assert((seq![b[0]] + merge_union(a, b.drop_first())).drop_first() =~= merge_union(a, b.drop_first()));
    } else {
        assert((seq![a[0]] + merge_union(a.drop_first(), b.drop_first())).drop_first() =~= merge_union(
            a.drop_first(),
            b.drop_first(),
        ));
    }
}

/// Merging is associative.
pub proof fn lemma_union_associates(a: Seq<(u64, Seq<u8>)>, b: Seq<(u64, Seq<u8>)>, c: Seq<(u64, Seq<u8>)>)
    ensures
        merge_union(merge_union(a, b), c) == merge_union(a, merge_union(b, c)),
    decreases a.len() + b.len() + c.len(),
{
    if a.len() == 0 {
        return;
    }
    if b.len() == 0 {
        return;
    }
    if c.len() == 0 {
        return;
    }
    let x = a[0];
    let y = b[0];
    let z = c[0];
    lemma_sample_order(x, y, z);
    lemma_sample_order(x, z, y);
    lemma_sample_order(y, x, z);
    lemma_sample_order(y, z, x);
    lemma_sample_order(z, x, y);
    lemma_sample_order(z, y, x);
    lemma_union_head(a, b);
    lemma_union_head(b, c);
    let ab = merge_union(a, b);
    let bc = merge_union(b, c);
    lemma_union_head(ab, c);
    lemma_union_head(a, bc);
    let a1 = a.drop_first();
    let b1 = b.drop_first();
    let c1 = c.drop_first();
    if sample_lt(x, y) {
        if sample_lt(x, z) {
            lemma_union_associates(a1, b, c);
        } else if sample_lt(z, x) {
            lemma_union_associates(a, b, c1);
        } else {
            lemma_union_associates(a1, b, c1);
        }
    } else if sample_lt(y, x) {
        if sample_lt(y, z) {
            lemma_union_associates(a, b1, c);
        } else if sample_lt(z, y) {
            lemma_union_associates(a, b, c1);
        } else {
            lemma_union_associates(a, b1, c1);
        }
    } else {
        if sample_lt(x, z) {
            lemma_union_associates(a1, b1, c);
        } else if sample_lt(z, x) {
            lemma_union_associates(a, b, c1);
        } else {
            lemma_union_associates(a1, b1, c1);
        }
    }
    let left = merge_union(ab, c);
    let right = merge_union(a, bc);
    assert(left =~= seq![left[0]] + left.drop_first());
    assert(right =~= seq![right[0]] + right.drop_first());
}

/// Merging a strictly sorted sequence with itself gives it back.
pub proof fn lemma_union_idempotent(a: Seq<(u64, Seq<u8>)>)
    ensures
        merge_union(a, a) == a,
    decreases a.len(),
{
    if a.len() > 0 {
        lemma_sample_order(a[0], a[0], a[0]);
        lemma_union_idempotent(a.drop_first());
        assert(a =~= seq![a[0]] + a.drop_first());
    }
}

/// Truncating an input below the first `j >= k` elements does not change
/// the first `k` elements of the merge.
pub proof fn lemma_prefix_of_truncated(x: Seq<(u64, Seq<u8>)>, y: Seq<(u64, Seq<u8>)>, j: nat, k: nat)
    requires
        k <= j,
    ensures
        prefix(merge_union(prefix(x, j), y), k) == prefix(merge_union(x, y), k),
    decreases x.len() + y.len(), k,
{
    let tx = prefix(x, j);
    if k == 0 {
        assert(prefix(merge_union(tx, y), 0) =~= prefix(merge_union(x, y), 0));
        return;
    }
    if j >= x.len() {
        assert(tx == x);
        return;
    }
    assert(tx.len() == j && j > 0);
    if y.len() == 0 {
        assert(merge_union(tx, y) == tx);
        assert(merge_union(x, y) == x);
        assert(prefix(tx, k) =~= prefix(x, k));
        return;
    }
    lemma_sample_order(x[0], y[0], x[0]);
    lemma_union_head(tx, y);
    lemma_union_head(x, y);
    assert(tx[0] == x[0]);
    assert(tx.drop_first() =~= prefix(x.drop_first(), (j - 1) as nat));
    let m = merge_union(x, y);
    let tm = merge_union(tx, y);
    if sample_lt(x[0], y[0]) {
        lemma_prefix_of_truncated(x.drop_first(), y, (j - 1) as nat, (k - 1) as nat);
    } else if sample_lt(y[0], x[0]) {
        lemma_prefix_of_truncated(x, y.drop_first(), j, (k - 1) as nat);
    } else {
        lemma_prefix_of_truncated(x.drop_first(), y.drop_first(), (j - 1) as nat, (k - 1) as nat);
    }
    assert(prefix(tm, k) =~= seq![tm[0]] + prefix(tm.drop_first(), (k - 1) as nat));
    assert(prefix(m, k) =~= seq![m[0]] + prefix(m.drop_first(), (k - 1) as nat));
}

/// Every element of a merge comes from one of its inputs, and every input
/// element occurs in the merge.
pub proof fn lemma_union_elements(a: Seq<(u64, Seq<u8>)>, b: Seq<(u64, Seq<u8>)>)
    ensures
        forall|i: int| 0 <= i < merge_union(a, b).len() ==> a.contains(#[trigger] merge_union(a, b)[i]) || b.contains(
            merge_union(a, b)[i],
        ),
        forall|i: int| 0 <= i < a.len() ==> merge_union(a, b).contains(#[trigger] a[i]),
        forall|i: int| 0 <= i < b.len() ==> merge_union(a, b).contains(#[trigger] b[i]),
        merge_union(a, b).len() <= a.len() + b.len(),
    decreases a.len() + b.len(),
{
    if a.len() > 0 && b.len() > 0 {
        lemma_sample_order(a[0], b[0], a[0]);
        let m = merge_union(a, b);
        let a1 = a.drop_first();
        let b1 = b.drop_first();
        if sample_lt(a[0], b[0]) {
            lemma_union_elements(a1, b);
            let t = merge_union(a1, b);
            assert forall|i: int| 0 <= i < m.len() implies a.contains(#[trigger] m[i]) || b.contains(m[i]) by {
                if i > 0 {
                    assert(m[i] == t[i - 1]);
                    if a1.contains(t[i - 1]) {
                        let w = choose|w: int| 0 <= w < a1.len() && a1[w] == t[i - 1];
                        assert(a[w + 1] == m[i]);
                    }
                } else {
                    assert(a[0] == m[0]);
                }
            }
            assert forall|i: int| 0 <= i < a.len() implies m.contains(#[trigger] a[i]) by {
                if i > 0 {
                    assert(a[i] == a1[i - 1]);
                    assert(t.contains(a1[i - 1]));
                    let w = choose|w: int| 0 <= w < t.len() && t[w] == a1[i - 1];
                    assert(m[w + 1] == a[i]);
                } else {
                    assert(m[0] == a[0]);
                }
            }
            assert forall|i: int| 0 <= i < b.len() implies m.contains(#[trigger] b[i]) by {
                assert(t.contains(b[i]));
                let w = choose|w: int| 0 <= w < t.len() && t[w] == b[i];
                assert(m[w + 1] == b[i]);
            }
        } else if sample_lt(b[0], a[0]) {
            lemma_union_elements(a, b1);
            let t = merge_union(a, b1);
            assert forall|i: int| 0 <= i < m.len() implies a.contains(#[trigger] m[i]) || b.contains(m[i]) by {
                if i > 0 {
                    assert(m[i] == t[i - 1]);
                    if b1.contains(t[i - 1]) {
                        let w = choose|w: int| 0 <= w < b1.len() && b1[w] == t[i - 1];
                        assert(b[w + 1] == m[i]);
                    }
                } else {
                    assert(b[0] == m[0]);
                }
            }
            assert forall|i: int| 0 <= i < b.len() implies m.contains(#[trigger] b[i]) by {
                if i > 0 {
                    assert(b[i] == b1[i - 1]);
                    assert(t.contains(b1[i - 1]));
                    let w = choose|w: int| 0 <= w < t.len() && t[w] == b1[i - 1];
                    assert(m[w + 1] == b[i]);
                } else {
                    assert(m[0] == b[0]);
                }
            }
            assert forall|i: int| 0 <= i < a.len() implies m.contains(#[trigger] a[i]) by {
                assert(t.contains(a[i]));
                let w = choose|w: int| 0 <= w < t.len() && t[w] == a[i];
                assert(m[w + 1] == a[i]);
            }
        } else {
            lemma_union_elements(a1, b1);
            let t = merge_union(a1, b1);
            assert forall|i: int| 0 <= i < m.len() implies a.contains(#[trigger] m[i]) || b.contains(m[i]) by {
                if i > 0 {
                    assert(m[i] == t[i - 1]);
                    if a1.contains(t[i - 1]) {
                        let w = choose|w: int| 0 <= w < a1.len() && a1[w] == t[i - 1];
                        assert(a[w + 1] == m[i]);
                    } else {
                        let w = choose|w: int| 0 <= w < b1.len() && b1[w] == t[i - 1];
                        assert(b[w + 1] == m[i]);
                    }
                } else {
                    assert(a[0] == m[0]);
                }
            }
            assert forall|i: int| 0 <= i < a.len() implies m.contains(#[trigger] a[i]) by {
                if i > 0 {
                    assert(a[i] == a1[i - 1]);
                    assert(t.contains(a1[i - 1]));
                    let w = choose|w: int| 0 <= w < t.len() && t[w] == a1[i - 1];
                    assert(m[w + 1] == a[i]);
                } else {
                    assert(m[0] == a[0]);
                }
            }
            assert forall|i: int| 0 <= i < b.len() implies m.contains(#[trigger] b[i]) by {
                if i > 0 {
                    assert(b[i] == b1[i - 1]);
                    assert(t.contains(b1[i - 1]));
                    let w = choose|w: int| 0 <= w < t.len() && t[w] == b1[i - 1];
                    assert(m[w + 1] == b[i]);
                } else {
                    assert(m[0] == b[0]);
                }
            }
        }
    }
}

proof fn lemma_drop_first_sorted(s: Seq<(u64, Seq<u8>)>)
    requires
        strictly_sorted(s),
        s.len() > 0,
    ensures
        strictly_sorted(s.drop_first()),
{
    let t = s.drop_first();
    assert forall|i: int, j: int| 0 <= i < j < t.len() implies sample_lt(t[i], t[j]) && t[i]
        != t[j] by {
        assert(sample_lt(s[i + 1], s[j + 1]) && s[i + 1] != s[j + 1]);
    }
}

/// The merge of strictly sorted sequences is strictly sorted.
pub proof fn lemma_union_sorted(a: Seq<(u64, Seq<u8>)>, b: Seq<(u64, Seq<u8>)>)
    requires
        strictly_sorted(a),
        strictly_sorted(b),
    ensures
        strictly_sorted(merge_union(a, b)),
    decreases a.len() + b.len(),
{
    if a.len() > 0 && b.len() > 0 {
        let m = merge_union(a, b);
        let a1 = a.drop_first();
        let b1 = b.drop_first();
        lemma_drop_first_sorted(a);
        lemma_drop_first_sorted(b);
        lemma_sample_order(a[0], b[0], a[0]);
        let (h, t) = if sample_lt(a[0], b[0]) {
            lemma_union_sorted(a1, b);
            lemma_union_elements(a1, b);
            (a[0], merge_union(a1, b))
        } else if sample_lt(b[0], a[0]) {
            lemma_union_sorted(a, b1);
            lemma_union_elements(a, b1);
            (b[0], merge_union(a, b1))
        } else {
            lemma_union_sorted(a1, b1);
            lemma_union_elements(a1, b1);
            (a[0], merge_union(a1, b1))
        };
        assert(m =~= seq![h] + t);
        assert forall|j: int| 0 <= j < t.len() implies #[trigger] sample_lt(h, t[j]) by {
            let e = t[j];
            if a.contains(e) {
                let w = choose|w: int| 0 <= w < a.len() && a[w] == e;
                lemma_sample_order(h, a[0], e);
                lemma_sample_order(a[0], e, a[0]);
                if w > 0 {
                    assert(sample_lt(a[0], a[w]));
                }
            }
            if b.contains(e) {
                let w = choose|w: int| 0 <= w < b.len() && b[w] == e;
                lemma_sample_order(h, b[0], e);
                lemma_sample_order(b[0], e, b[0]);
                if w > 0 {
                    assert(sample_lt(b[0], b[w]));
                }
            }
            if a1.contains(e) {
                let w = choose|w: int| 0 <= w < a1.len() && a1[w] == e;
                assert(sample_lt(a[0], a[w + 1]));
                lemma_sample_order(h, a[0], e);
            }
            if b1.contains(e) {
                let w = choose|w: int| 0 <= w < b1.len() && b1[w] == e;
                assert(sample_lt(b[0], b[w + 1]));
                lemma_sample_order(h, b[0], e);
            }
        }
        assert forall|i: int, j: int| 0 <= i < j < m.len() implies sample_lt(m[i], m[j]) && m[i]
            != m[j] by {
            if i == 0 {
                assert(sample_lt(h, t[j - 1]));
                lemma_sample_order(h, t[j - 1], h);
            } else {
                assert(sample_lt(t[i - 1], t[j - 1]));
            }
        }
    }
}

/// A prefix of a strictly sorted sequence is strictly sorted.
pub proof fn lemma_prefix_sorted(s: Seq<(u64, Seq<u8>)>, n: nat)
    requires
        strictly_sorted(s),
    ensures
        strictly_sorted(prefix(s, n)),
        prefix(s, n).len() <= n,
        prefix(s, n).len() <= s.len(),
        forall|i: int| 0 <= i < prefix(s, n).len() ==> #[trigger] prefix(s, n)[i] == s[i],
{
}

/// Merging a strictly sorted sequence with one new element inserts it at
/// the position of the elements below it, or leaves the sequence alone when
/// the element is already there.
pub proof fn lemma_union_singleton(a: Seq<(u64, Seq<u8>)>, s: (u64, Seq<u8>), p: int)
    requires
        strictly_sorted(a),
        0 <= p <= a.len(),
        forall|i: int| 0 <= i < p ==> #[trigger] sample_lt(a[i], s),
        forall|i: int| p <= i < a.len() ==> !sample_lt(#[trigger] a[i], s),
    ensures
        p < a.len() && a[p] == s ==> merge_union(a, seq![s]) == a,
        !(p < a.len() && a[p] == s) ==> merge_union(a, seq![s]) == a.insert(p, s),
    decreases a.len(),
{
    if a.len() == 0 {
        assert(merge_union(a, seq![s]) =~= a.insert(p, s));
        return;
    }
    lemma_sample_order(a[0], s, a[0]);
    let a1 = a.drop_first();
    if p > 0 {
        assert(sample_lt(a[0], s));
        assert forall|i: int| 0 <= i < p - 1 implies #[trigger] sample_lt(a1[i], s) by {
            assert(sample_lt(a[i + 1], s));
        }
        assert forall|i: int| p - 1 <= i < a1.len() implies !sample_lt(#[trigger] a1[i], s) by {
            assert(!sample_lt(a[i + 1], s));
        }
        assert forall|i: int, j: int| 0 <= i < j < a1.len() implies sample_lt(a1[i], a1[j]) && a1[i]
            != a1[j] by {
            assert(sample_lt(a[i + 1], a[j + 1]) && a[i + 1] != a[j + 1]);
        }
        lemma_union_singleton(a1, s, p - 1);
        if p < a.len() && a[p] == s {
            assert(a =~= seq![a[0]] + a1);
        } else {
            assert(a.insert(p, s) =~= seq![a[0]] + a1.insert(p - 1, s));
        }
    } else {
        let single = seq![s];
        assert(single.drop_first() =~= Seq::<(u64, Seq<u8>)>::empty());
        if a[0] == s {
            assert(merge_union(a1, single.drop_first()) == a1);
            assert(a =~= seq![a[0]] + a1);
        } else {
            assert(sample_lt(s, a[0]));
            assert(merge_union(a, single.drop_first()) == a);
            assert(a.insert(0, s) =~= seq![s] + a);
        }
    }
}

/// Whether sample `(a_hash, a)` sorts strictly before `(b_hash, b)`.
pub fn sample_less(a_hash: u64, a: &[u8], b_hash: u64, b: &[u8]) -> (less: bool)
    ensures
        less == sample_lt((a_hash, a@), (b_hash, b@)),
{
    if a_hash < b_hash {
        true
    } else if a_hash > b_hash {
        false
    } else {
        lex_less(a, b)
    }
}

/// Whether two samples are equal.
pub fn sample_equal(a_hash: u64, a: &[u8], b_hash: u64, b: &[u8]) -> (equal: bool)
    ensures
        equal == ((a_hash, a@) == (b_hash, b@)),
{
    a_hash == b_hash && bytes_equal(a, b)
}

} // verus!
