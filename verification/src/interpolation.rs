//! Why Lagrange combination works: a polynomial of degree below the number of nodes
//! takes at zero the combination of its values at the nodes.

use crate::lagrange::{
    field_inverse, gap, invertible, lagrange_at_zero, lagrange_prefix, nodes_apart,
};
use crate::modular::{eqm, lemma_eqm_add, lemma_eqm_mul, lemma_eqm_sub};
use crate::poly::poly_eval;
use crate::scalar::{lemma_order_bounds, order};
use vstd::arithmetic::div_mod::lemma_small_mod;
use vstd::prelude::*;

verus! {

/// The quotient of a polynomial by `x - z`: its coefficient at `j` is the value at `z` of
/// what follows the coefficient at `j` in the polynomial.
pub open spec fn quotient(c: Seq<int>, z: int) -> Seq<int> {
    Seq::new((c.len() - 1) as nat, |j: int| poly_eval(c.skip(j + 1), z))
}

/// A polynomial is its value at `z` plus `x - z` times its quotient by `x - z`.
pub proof fn lemma_quotient(c: Seq<int>, z: int, x: int)
    requires
        c.len() > 0,
    ensures
        poly_eval(c, x) == poly_eval(c, z) + (x - z) * poly_eval(quotient(c, z), x),
    decreases c.len(),
{
    let t = c.skip(1);
    let r = quotient(c, z);
    if c.len() == 1 {
        assert(t.len() == 0);
        assert(r.len() == 0);
        assert(poly_eval(t, x) == 0);
        assert(poly_eval(t, z) == 0);
        assert(poly_eval(r, x) == 0);
        assert(x * 0 == 0 && z * 0 == 0 && (x - z) * 0 == 0);
    } else {
        lemma_quotient(t, z, x);
        let rt = quotient(t, z);
        assert(r.skip(1) =~= rt) by {
            assert forall|j: int| 0 <= j < rt.len() implies r.skip(1)[j] == rt[j] by {
                assert(c.skip(j + 2) =~= t.skip(j + 1));
            }
        }
        assert(c.skip(1) =~= t);
        assert(r[0] == poly_eval(t, z));
        let big = poly_eval(rt, x);
        let tz = poly_eval(t, z);
        let tx = poly_eval(t, x);
        assert(poly_eval(r, x) == tz + x * big);
        assert(tx == tz + (x - z) * big);
        assert(c[0] + x * (tz + (x - z) * big) == c[0] + z * tz + (x - z) * (tz + x * big))
            by (nonlinear_arith);
    }
}

/// The coefficients of `x - a` times a polynomial.
pub open spec fn times_linear(c: Seq<int>, a: int) -> Seq<int>
    decreases c.len(),
{
    if c.len() == 0 {
        seq![0]
    } else {
        let rest = times_linear(c.skip(1), a);
        seq![-a * c[0]] + rest.update(0, rest[0] + c[0])
    }
}

/// `times_linear` gives one coefficient more, and the value of the product.
pub proof fn lemma_times_linear(c: Seq<int>, a: int, x: int)
    ensures
        times_linear(c, a).len() == c.len() + 1,
        poly_eval(times_linear(c, a), x) == (x - a) * poly_eval(c, x),
    decreases c.len(),
{
    let s = times_linear(c, a);
    if c.len() == 0 {
        assert(s.skip(1).len() == 0);
        assert(poly_eval(s.skip(1), x) == 0);
        assert(x * 0 == 0 && (x - a) * 0 == 0);
    } else {
        let t = c.skip(1);
        let rest = times_linear(t, a);
        lemma_times_linear(t, a, x);
        let shifted = rest.update(0, rest[0] + c[0]);
        assert(shifted.skip(1) =~= rest.skip(1));
        assert(s.skip(1) =~= shifted);
        let tail = poly_eval(rest.skip(1), x);
        let tx = poly_eval(t, x);
        assert(poly_eval(rest, x) == rest[0] + x * tail);
        assert(poly_eval(shifted, x) == rest[0] + c[0] + x * tail);
        assert(poly_eval(s, x) == -a * c[0] + x * poly_eval(shifted, x));
        assert(-a * c[0] + x * ((x - a) * tx + c[0]) == (x - a) * (c[0] + x * tx))
            by (nonlinear_arith);
    }
}

/// The product of `x - xs[i]` over the first `upto` nodes.
pub open spec fn node_value(xs: Seq<int>, upto: int, x: int) -> int
    decreases upto,
{
    if upto <= 0 {
        1
    } else {
        node_value(xs, upto - 1, x) * (x - xs[upto - 1])
    }
}

/// The coefficients of the polynomial that vanishes at the first `upto` nodes.
pub open spec fn node_poly(xs: Seq<int>, upto: int) -> Seq<int>
    decreases upto,
{
    if upto <= 0 {
        seq![1]
    } else {
        times_linear(node_poly(xs, upto - 1), xs[upto - 1])
    }
}

/// `node_poly` has `upto + 1` coefficients and the values that `node_value` gives.
pub proof fn lemma_node_poly(xs: Seq<int>, upto: int, x: int)
    requires
        0 <= upto,
    ensures
        node_poly(xs, upto).len() == upto + 1,
        poly_eval(node_poly(xs, upto), x) == node_value(xs, upto, x),
    decreases upto,
{
    if upto == 0 {
        let s = node_poly(xs, 0);
        assert(s.skip(1).len() == 0);
        assert(poly_eval(s.skip(1), x) == 0);
        assert(x * 0 == 0);
    } else {
        lemma_node_poly(xs, upto - 1, x);
        lemma_times_linear(node_poly(xs, upto - 1), xs[upto - 1], x);
        assert((x - xs[upto - 1]) * node_value(xs, upto - 1, x) == node_value(xs, upto - 1, x) * (x
            - xs[upto - 1])) by (nonlinear_arith);
    }
}

/// The node polynomial vanishes at each of its nodes.
pub proof fn lemma_node_value_vanishes(xs: Seq<int>, upto: int, i: int)
    requires
        0 <= i < upto,
    ensures
        node_value(xs, upto, xs[i]) == 0,
    decreases upto,
{
    if upto - 1 == i {
        assert(node_value(xs, upto - 1, xs[i]) * 0 == 0);
    } else {
        lemma_node_value_vanishes(xs, upto - 1, i);
        assert(0 * (xs[i] - xs[upto - 1]) == 0);
    }
}

/// The sum of the first `upto` entries.
pub open spec fn total(s: Seq<int>, upto: int) -> int
    decreases upto,
{
    if upto <= 0 {
        0
    } else {
        total(s, upto - 1) + s[upto - 1]
    }
}

/// Where each entry of `t` is congruent to `a` times an entry of `u` plus `b` times an
/// entry of `v`, so are the sums.
pub proof fn lemma_total_combination(
    t: Seq<int>,
    u: Seq<int>,
    v: Seq<int>,
    a: int,
    b: int,
    upto: int,
)
    requires
        forall|i: int| 0 <= i < upto ==> eqm(#[trigger] t[i], a * u[i] + b * v[i]),
    ensures
        eqm(total(t, upto), a * total(u, upto) + b * total(v, upto)),
    decreases upto,
{
    if upto <= 0 {
        assert(a * 0 + b * 0 == 0);
    } else {
        lemma_total_combination(t, u, v, a, b, upto - 1);
        let i = upto - 1;
        assert(eqm(t[i], a * u[i] + b * v[i]));
        lemma_eqm_add(
            total(t, i),
            a * total(u, i) + b * total(v, i),
            t[i],
            a * u[i] + b * v[i],
        );
        assert(a * total(u, i) + b * total(v, i) + (a * u[i] + b * v[i]) == a * (total(u, i)
            + u[i]) + b * (total(v, i) + v[i])) by (nonlinear_arith);
    }
}

/// The Lagrange coefficients of the nodes.
pub open spec fn weights(xs: Seq<int>) -> Seq<int> {
    Seq::new(xs.len(), |i: int| lagrange_at_zero(xs, i))
}

/// Each value times the Lagrange coefficient of its node.
pub open spec fn terms(xs: Seq<int>, es: Seq<int>) -> Seq<int> {
    Seq::new(xs.len(), |i: int| lagrange_at_zero(xs, i) * es[i])
}

/// The values of a polynomial at the nodes.
pub open spec fn values(c: Seq<int>, xs: Seq<int>) -> Seq<int> {
    Seq::new(xs.len(), |i: int| poly_eval(c, xs[i]))
}

/// The product of the inverses of `z - xs[i]` over the first `upto` nodes.
pub open spec fn inverse_product(xs: Seq<int>, upto: int, z: int) -> int
    decreases upto,
{
    if upto <= 0 {
        1
    } else {
        inverse_product(xs, upto - 1, z) * field_inverse(z - xs[upto - 1])
    }
}

/// An invertible number times its inverse is congruent to one.
pub proof fn lemma_inverse_cancels(a: int)
    requires
        invertible(a),
    ensures
        eqm(a * field_inverse(a), 1),
        eqm(field_inverse(a) * a, 1),
        eqm(field_inverse(a) * (-a), -1),
{
    lemma_order_bounds();
    lemma_small_mod(1, order() as nat);
    let x = field_inverse(a);
    assert(x * a == a * x) by (nonlinear_arith);
    assert(x * (-a) == (-1) * (a * x)) by (nonlinear_arith);
    lemma_eqm_mul(-1, -1, a * x, 1);
}

/// A prefix of a Lagrange coefficient depends on the nodes of the prefix and on the
/// coefficient's own node only.
pub proof fn lemma_prefix_independent(xs: Seq<int>, ys: Seq<int>, i: int, upto: int)
    requires
        forall|m: int| 0 <= m < upto ==> xs[m] == ys[m],
        xs[i] == ys[i],
    ensures
        lagrange_prefix(xs, i, upto) == lagrange_prefix(ys, i, upto),
    decreases upto,
{
    if upto > 0 {
        lemma_prefix_independent(xs, ys, i, upto - 1);
    }
}

/// The Lagrange coefficient of the node at `m`, as far as it is made of the first `upto`
/// nodes, turns the node polynomial's value at that node into its value at zero.
pub proof fn lemma_last_weight(xs: Seq<int>, m: int, upto: int)
    requires
        nodes_apart(xs),
        0 <= upto <= m < xs.len(),
    ensures
        eqm(
            lagrange_prefix(xs, m, upto) * node_value(xs, upto, xs[m]),
            node_value(xs, upto, 0),
        ),
    decreases upto,
{
    if upto > 0 {
        let z = xs[m];
        let x = xs[upto - 1];
        let before = lagrange_prefix(xs, m, upto - 1);
        let inv = field_inverse(x - z);
        let nz = node_value(xs, upto - 1, z);
        let n0 = node_value(xs, upto - 1, 0);
        lemma_last_weight(xs, m, upto - 1);
        assert(invertible(gap(xs, m, upto - 1)));
        lemma_inverse_cancels(x - z);
        assert(-(x - z) == z - x);
        lemma_eqm_mul(x, x, inv * (z - x), -1);
        lemma_eqm_mul(before * nz, n0, x * (inv * (z - x)), x * (-1));
        assert((before * (x * inv)) * (nz * (z - x)) == (before * nz) * (x * (inv * (z - x))))
            by (nonlinear_arith);
        assert(n0 * (x * (-1)) == n0 * (0 - x)) by (nonlinear_arith);
    }
}

/// The node polynomial's value at a further node is invertible.
pub proof fn lemma_node_value_invertible(xs: Seq<int>, m: int, upto: int)
    requires
        nodes_apart(xs),
        0 <= upto <= m < xs.len(),
    ensures
        eqm(inverse_product(xs, upto, xs[m]) * node_value(xs, upto, xs[m]), 1),
    decreases upto,
{
    if upto > 0 {
        let z = xs[m];
        let x = xs[upto - 1];
        let before = inverse_product(xs, upto - 1, z);
        let inv = field_inverse(z - x);
        let nz = node_value(xs, upto - 1, z);
        lemma_node_value_invertible(xs, m, upto - 1);
        assert(invertible(gap(xs, upto - 1, m)));
        lemma_inverse_cancels(z - x);
        lemma_eqm_mul(before * nz, 1, inv * (z - x), 1);
        assert((before * inv) * (nz * (z - x)) == (before * nz) * (inv * (z - x)))
            by (nonlinear_arith);
    }
}

/// With one node more, a polynomial's interpolation at zero is off by its value at the
/// new node times what the Lagrange coefficients' sum is off from one.
pub proof fn lemma_one_more_node(xs: Seq<int>, c: Seq<int>)
    requires
        nodes_apart(xs),
        xs.len() >= 2,
        1 <= c.len() <= xs.len(),
    ensures
        eqm(
            total(terms(xs, values(c, xs)), xs.len() as int),
            poly_eval(c, 0) + poly_eval(c, xs.last()) * (total(weights(xs), xs.len() as int) - 1),
        ),
    decreases xs.len(), 0int,
{
    let m = xs.len() - 1;
    let shorter = xs.drop_last();
    let z = xs[m];
    let r = quotient(c, z);
    let pz = poly_eval(c, z);
    let r0 = poly_eval(r, 0);
    let t = terms(xs, values(c, xs));
    let u = weights(xs);
    let v = terms(shorter, values(r, shorter));
    assert(nodes_apart(shorter)) by {
        assert forall|i: int, j: int|
            0 <= i < shorter.len() && 0 <= j < shorter.len() && i != j implies invertible(
            #[trigger] gap(shorter, i, j),
        ) by {
            assert(gap(shorter, i, j) == gap(xs, i, j));
        }
    }
    lemma_interpolation(shorter, r);
    assert forall|i: int| 0 <= i < m implies eqm(#[trigger] t[i], pz * u[i] + (-z) * v[i]) by {
        let x = xs[i];
        let inv = field_inverse(z - x);
        let own = lagrange_at_zero(shorter, i);
        let ri = poly_eval(r, x);
        lemma_prefix_independent(xs, shorter, i, m);
        assert(u[i] == own * (z * inv));
        lemma_quotient(c, z, x);
        assert(invertible(gap(xs, i, m)));
        lemma_inverse_cancels(z - x);
        assert(t[i] == u[i] * (pz + (x - z) * ri));
        assert(v[i] == own * ri);
        assert((own * (z * inv)) * (pz + (x - z) * ri) == pz * (own * (z * inv)) + (own * ri * z)
            * (inv * (-(z - x)))) by (nonlinear_arith);
        lemma_eqm_mul(own * ri * z, own * ri * z, inv * (-(z - x)), -1);
        lemma_eqm_add(
            pz * u[i],
            pz * u[i],
            (own * ri * z) * (inv * (-(z - x))),
            (own * ri * z) * (-1),
        );
        assert((own * ri * z) * (-1) == (-z) * (own * ri)) by (nonlinear_arith);
    }
    lemma_total_combination(t, u, v, pz, -z, m);
    lemma_eqm_mul(-z, -z, total(v, m), r0);
    lemma_eqm_add(pz * total(u, m), pz * total(u, m), (-z) * total(v, m), (-z) * r0);
    lemma_eqm_add(
        total(t, m),
        pz * total(u, m) + (-z) * r0,
        t[m],
        t[m],
    );
    lemma_quotient(c, z, 0);
    let whole = total(u, m + 1);
    assert(t[m] == u[m] * pz);
    assert(pz * total(u, m) + (-z) * r0 + u[m] * pz == (pz + (0 - z) * r0) + pz * (total(u, m)
        + u[m] - 1)) by (nonlinear_arith);
}

/// Lagrange interpolation at zero: a polynomial with no more coefficients than there are
/// nodes takes at zero the sum of its values at the nodes, each times the Lagrange
/// coefficient of its node.
pub proof fn lemma_interpolation(xs: Seq<int>, c: Seq<int>)
    requires
        nodes_apart(xs),
        xs.len() >= 1,
        c.len() <= xs.len(),
    ensures
        eqm(total(terms(xs, values(c, xs)), xs.len() as int), poly_eval(c, 0)),
    decreases xs.len(), 1int,
{
    let n = xs.len() as int;
    let m = n - 1;
    let t = terms(xs, values(c, xs));
    if c.len() == 0 {
        assert forall|i: int| 0 <= i < n implies eqm(#[trigger] t[i], 0 * t[i] + 0 * t[i]) by {
            assert(poly_eval(c, xs[i]) == 0);
            assert(lagrange_at_zero(xs, i) * 0 == 0);
        }
        lemma_total_combination(t, t, t, 0, 0, n);
        assert(0 * total(t, n) + 0 * total(t, n) == 0);
    } else if n == 1 {
        assert(lagrange_prefix(xs, 0, 0) == 1);
        assert(lagrange_at_zero(xs, 0) == 1);
        assert(c.skip(1).len() == 0);
        assert(poly_eval(c.skip(1), xs[0]) == 0);
        assert(poly_eval(c.skip(1), 0) == 0);
        assert(xs[0] * 0 == 0 && 0 * 0 == 0);
        assert(total(t, 0) == 0);
        assert(t[0] == 1 * c[0]);
    } else {
        let z = xs[m];
        let node = node_poly(xs, m);
        let s = terms(xs, values(node, xs));
        let whole = total(weights(xs), n);
        lemma_node_poly(xs, m, z);
        lemma_node_poly(xs, m, 0);
        lemma_one_more_node(xs, node);
        let nz = node_value(xs, m, z);
        let n0 = node_value(xs, m, 0);
        assert forall|i: int| 0 <= i < m implies eqm(#[trigger] s[i], 0 * s[i] + 0 * s[i]) by {
            lemma_node_poly(xs, m, xs[i]);
            lemma_node_value_vanishes(xs, m, i);
            assert(lagrange_at_zero(xs, i) * 0 == 0);
        }
        lemma_total_combination(s, s, s, 0, 0, m);
        assert(0 * total(s, m) + 0 * total(s, m) == 0);
        lemma_last_weight(xs, m, m);
        assert(s[m] == lagrange_prefix(xs, m, m) * nz);
        lemma_eqm_add(total(s, m), 0, s[m], n0);
        // so n0 is congruent to n0 + nz * (whole - 1)
        assert(eqm(n0, n0 + nz * (whole - 1)));
        lemma_eqm_sub(n0 + nz * (whole - 1), n0, n0, n0);
        assert(n0 + nz * (whole - 1) - n0 == nz * (whole - 1));
        assert(eqm(nz * (whole - 1), 0));
        lemma_node_value_invertible(xs, m, m);
        let back = inverse_product(xs, m, z);
        lemma_eqm_mul(back * nz, 1, whole - 1, whole - 1);
        lemma_eqm_mul(back, back, nz * (whole - 1), 0);
        assert((back * nz) * (whole - 1) == back * (nz * (whole - 1))) by (nonlinear_arith);
        assert(back * 0 == 0);
        assert(1 * (whole - 1) == whole - 1);
        assert(eqm(whole - 1, 0));
        lemma_one_more_node(xs, c);
        let pz = poly_eval(c, z);
        lemma_eqm_mul(pz, pz, whole - 1, 0);
        assert(pz * 0 == 0);
        lemma_eqm_add(poly_eval(c, 0), poly_eval(c, 0), pz * (whole - 1), 0);
    }
}

} // verus!
