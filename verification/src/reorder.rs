//! Sums and products do not depend on the order of what is added or multiplied, and so
//! neither does a Lagrange combination.

use crate::interpolation::{terms, total};
use crate::lagrange::{field_inverse, lagrange_at_zero, lagrange_prefix};
use vstd::prelude::*;

verus! {

/// `perm` and `inv` are permutations of the positions below their length, each the
/// inverse of the other.
pub open spec fn is_permutation(perm: Seq<int>, inv: Seq<int>) -> bool {
    &&& perm.len() == inv.len()
    &&& forall|i: int|
        0 <= i < perm.len() ==> 0 <= #[trigger] perm[i] < perm.len() && inv[perm[i]] == i
    &&& forall|v: int|
        0 <= v < inv.len() ==> 0 <= #[trigger] inv[v] < inv.len() && perm[inv[v]] == v
}

/// The sequence in the order that the permutation gives: at position `i` stands what
/// stood at `perm[i]`.
pub open spec fn permuted(s: Seq<int>, perm: Seq<int>) -> Seq<int> {
    Seq::new(perm.len(), |i: int| s[perm[i]])
}

/// The permutation without position `j`, over one position less.
pub open spec fn without(perm: Seq<int>, j: int) -> Seq<int> {
    Seq::new((perm.len() - 1) as nat, |i: int| if i < j { perm[i] } else { perm[i + 1] })
}

/// The inverse of the permutation without position `j`.
pub open spec fn without_inverse(inv: Seq<int>, j: int) -> Seq<int> {
    Seq::new((inv.len() - 1) as nat, |v: int| if inv[v] < j { inv[v] } else { inv[v] - 1 })
}

/// A permutation without the position that holds the last value is a permutation of one
/// position less.
pub proof fn lemma_without(perm: Seq<int>, inv: Seq<int>)
    requires
        is_permutation(perm, inv),
        perm.len() > 0,
    ensures
        is_permutation(
            without(perm, inv[perm.len() - 1]),
            without_inverse(inv, inv[perm.len() - 1]),
        ),
{
    let n = perm.len() as int;
    let j = inv[n - 1];
    let p = without(perm, j);
    let q = without_inverse(inv, j);
    assert(perm[j] == n - 1);
    assert forall|i: int| 0 <= i < p.len() implies 0 <= #[trigger] p[i] < p.len() && q[p[i]]
        == i by {
        let from = if i < j { i } else { i + 1 };
        assert(p[i] == perm[from]);
        assert(inv[perm[from]] == from);
        if perm[from] == n - 1 {
            assert(inv[n - 1] == from);
        }
    }
    assert forall|v: int| 0 <= v < q.len() implies 0 <= #[trigger] q[v] < q.len() && p[q[v]]
        == v by {
        assert(perm[inv[v]] == v);
        assert(inv[v] != j);
    }
}

/// A sum depends on the entries that it adds only.
pub proof fn lemma_total_same(s: Seq<int>, t: Seq<int>, upto: int)
    requires
        forall|i: int| 0 <= i < upto ==> #[trigger] s[i] == t[i],
    ensures
        total(s, upto) == total(t, upto),
    decreases upto,
{
    if upto > 0 {
        lemma_total_same(s, t, upto - 1);
    }
}

/// A sum is the entry at any position plus the sum of the rest.
pub proof fn lemma_total_remove(t: Seq<int>, j: int, upto: int)
    requires
        0 <= j < upto <= t.len(),
    ensures
        total(t, upto) == total(t.remove(j), upto - 1) + t[j],
    decreases upto,
{
    let rest = t.remove(j);
    if j == upto - 1 {
        lemma_total_same(t, rest, upto - 1);
    } else {
        lemma_total_remove(t, j, upto - 1);
        assert(rest[upto - 2] == t[upto - 1]);
    }
}

/// A sum does not depend on the order of its entries.
pub proof fn lemma_total_permuted(s: Seq<int>, perm: Seq<int>, inv: Seq<int>)
    requires
        is_permutation(perm, inv),
        s.len() == perm.len(),
    ensures
        total(permuted(s, perm), s.len() as int) == total(s, s.len() as int),
    decreases s.len(),
{
    let n = s.len() as int;
    if n > 0 {
        let j = inv[n - 1];
        let p = without(perm, j);
        let q = without_inverse(inv, j);
        let shorter = s.drop_last();
        let t = permuted(s, perm);
        lemma_without(perm, inv);
        lemma_total_permuted(shorter, p, q);
        assert(perm[j] == n - 1);
        assert(permuted(shorter, p) =~= t.remove(j)) by {
            assert forall|i: int| 0 <= i < n - 1 implies permuted(shorter, p)[i] == t.remove(
                j,
            )[i] by {
                let from = if i < j { i } else { i + 1 };
                assert(p[i] == perm[from]);
                assert(inv[perm[from]] == from);
            }
        }
        lemma_total_remove(t, j, n);
        lemma_total_same(shorter, s, n - 1);
    }
}

/// The product of the first `upto` entries.
pub open spec fn product(s: Seq<int>, upto: int) -> int
    decreases upto,
{
    if upto <= 0 {
        1
    } else {
        product(s, upto - 1) * s[upto - 1]
    }
}

/// A product depends on the entries that it multiplies only.
pub proof fn lemma_product_same(s: Seq<int>, t: Seq<int>, upto: int)
    requires
        forall|i: int| 0 <= i < upto ==> #[trigger] s[i] == t[i],
    ensures
        product(s, upto) == product(t, upto),
    decreases upto,
{
    if upto > 0 {
        lemma_product_same(s, t, upto - 1);
    }
}

/// A product is the entry at any position times the product of the rest.
pub proof fn lemma_product_remove(t: Seq<int>, j: int, upto: int)
    requires
        0 <= j < upto <= t.len(),
    ensures
        product(t, upto) == product(t.remove(j), upto - 1) * t[j],
    decreases upto,
{
    let rest = t.remove(j);
    if j == upto - 1 {
        lemma_product_same(t, rest, upto - 1);
    } else {
        lemma_product_remove(t, j, upto - 1);
        assert(rest[upto - 2] == t[upto - 1]);
        let a = product(rest, upto - 2);
        assert((a * t[j]) * t[upto - 1] == (a * t[upto - 1]) * t[j]) by (nonlinear_arith);
    }
}

/// A product does not depend on the order of its entries.
pub proof fn lemma_product_permuted(s: Seq<int>, perm: Seq<int>, inv: Seq<int>)
    requires
        is_permutation(perm, inv),
        s.len() == perm.len(),
    ensures
        product(permuted(s, perm), s.len() as int) == product(s, s.len() as int),
    decreases s.len(),
{
    let n = s.len() as int;
    if n > 0 {
        let j = inv[n - 1];
        let p = without(perm, j);
        let q = without_inverse(inv, j);
        let shorter = s.drop_last();
        let t = permuted(s, perm);
        lemma_without(perm, inv);
        lemma_product_permuted(shorter, p, q);
        assert(perm[j] == n - 1);
        assert(permuted(shorter, p) =~= t.remove(j)) by {
            assert forall|i: int| 0 <= i < n - 1 implies permuted(shorter, p)[i] == t.remove(
                j,
            )[i] by {
                let from = if i < j { i } else { i + 1 };
                assert(p[i] == perm[from]);
                assert(inv[perm[from]] == from);
            }
        }
        lemma_product_remove(t, j, n);
        lemma_product_same(shorter, s, n - 1);
    }
}

/// The factors of the Lagrange coefficient of position `i`: one for each node, and one at
/// the node itself.
pub open spec fn factors(xs: Seq<int>, i: int) -> Seq<int> {
    Seq::new(
        xs.len(),
        |m: int|
            if m == i {
                1
            } else {
                xs[m] * field_inverse(xs[m] - xs[i])
            },
    )
}

/// A Lagrange coefficient is the product of its factors.
pub proof fn lemma_prefix_is_product(xs: Seq<int>, i: int, upto: int)
    requires
        0 <= upto <= xs.len(),
    ensures
        lagrange_prefix(xs, i, upto) == product(factors(xs, i), upto),
    decreases upto,
{
    if upto > 0 {
        lemma_prefix_is_product(xs, i, upto - 1);
        assert(product(factors(xs, i), upto - 1) * 1 == product(factors(xs, i), upto - 1));
    }
}

/// A Lagrange combination does not depend on the order of the nodes: with nodes and
/// values reordered alike, the terms are the same in the new order, and the sum is the
/// same.
pub proof fn lemma_terms_permuted(xs: Seq<int>, es: Seq<int>, perm: Seq<int>, inv: Seq<int>)
    requires
        is_permutation(perm, inv),
        xs.len() == perm.len(),
        es.len() == perm.len(),
    ensures
        terms(permuted(xs, perm), permuted(es, perm)) == permuted(terms(xs, es), perm),
        total(terms(permuted(xs, perm), permuted(es, perm)), xs.len() as int) == total(
            terms(xs, es),
            xs.len() as int,
        ),
{
    let n = xs.len() as int;
    let ys = permuted(xs, perm);
    let fs = permuted(es, perm);
    assert forall|i: int| 0 <= i < n implies lagrange_at_zero(ys, i) == lagrange_at_zero(
        xs,
        perm[i],
    ) by {
        let own = perm[i];
        assert(factors(ys, i) =~= permuted(factors(xs, own), perm)) by {
            assert forall|m: int| 0 <= m < n implies factors(ys, i)[m] == permuted(
                factors(xs, own),
                perm,
            )[m] by {
                assert(inv[perm[m]] == m && inv[perm[i]] == i);
            }
        }
        lemma_prefix_is_product(ys, i, n);
        lemma_prefix_is_product(xs, own, n);
        lemma_product_permuted(factors(xs, own), perm, inv);
    }
    assert(terms(ys, fs) =~= permuted(terms(xs, es), perm));
    lemma_total_permuted(terms(xs, es), perm, inv);
}

} // verus!
