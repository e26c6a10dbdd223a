//! Sums and matrix products over GF(2^8), and the facts about them that
//! Gauss-Jordan elimination and Reed-Solomon decoding rely on.

use vstd::prelude::*;
use crate::erasure::field::{
    gf_mul, lemma_gf_mul_associative, lemma_gf_mul_commutative, lemma_gf_mul_distributive,
    lemma_gf_mul_identity,
};

verus! {

/// `f(0) + f(1) + ... + f(n - 1)` in GF(2^8), where addition is xor.
pub open spec fn gf_sum(f: spec_fn(int) -> u8, n: nat) -> u8
    decreases n,
{
    if n == 0 {
        0
    } else {
        gf_sum(f, (n - 1) as nat) ^ f(n - 1)
    }
}

/// `sum_t u[off + t] * m[t][c]` for `t < n`: entry `c` of the row vector
/// `u[off..off + n]` times the matrix `m`.
pub open spec fn dot_at(u: Seq<u8>, off: int, m: Seq<Seq<u8>>, c: int, n: nat) -> u8 {
    gf_sum(|t: int| gf_mul(u[off + t], m[t][c]), n)
}

/// `m` is an `n` by `n` matrix.
pub open spec fn is_square(m: Seq<Seq<u8>>, n: nat) -> bool {
    m.len() == n && forall|r: int| 0 <= r < n ==> #[trigger] m[r].len() == n
}

/// Entry `(r, c)` of the `n` by `n` identity matrix.
pub open spec fn identity_entry(r: int, c: int) -> u8 {
    if r == c { 1 } else { 0 }
}

/// `x * m == I` for `n` by `n` matrices `x` and `m`.
pub open spec fn is_left_inverse(x: Seq<Seq<u8>>, m: Seq<Seq<u8>>, n: nat) -> bool {
    &&& is_square(x, n)
    &&& is_square(m, n)
    &&& forall|r: int, c: int| 0 <= r < n && 0 <= c < n ==> #[trigger] dot_at(x[r], 0, m, c, n) == identity_entry(r, c)
}

/// Row `a` of an augmented matrix `[A | E]` in which `A == E * m`:
/// its left half is its right half times `m`.
pub open spec fn row_consistent(a: Seq<u8>, m: Seq<Seq<u8>>, n: nat) -> bool {
    &&& a.len() == 2 * n
    &&& forall|c: int| 0 <= c < n ==> #[trigger] a[c] == dot_at(a, n as int, m, c, n)
}

pub proof fn lemma_xor_facts(a: u8, b: u8, c: u8, d: u8)
    ensures
        a ^ 0 == a,
        0 ^ a == a,
        a ^ a == 0,
        (a ^ b) ^ (c ^ d) == (a ^ c) ^ (b ^ d),
        a ^ b == b ^ a,
        (a ^ c) ^ (b ^ c) == a ^ b,
{
    assert(a ^ 0 == a && 0 ^ a == a && a ^ a == 0 && (a ^ b) ^ (c ^ d) == (a ^ c) ^ (b ^ d)
        && a ^ b == b ^ a && (a ^ c) ^ (b ^ c) == a ^ b) by (bit_vector);
}

/// Sums of functions that agree on `0..n` are equal.
pub proof fn lemma_sum_ext(f: spec_fn(int) -> u8, g: spec_fn(int) -> u8, n: nat)
    requires
        forall|t: int| 0 <= t < n ==> #[trigger] f(t) == g(t),
    ensures
        gf_sum(f, n) == gf_sum(g, n),
    decreases n,
{
    if n > 0 {
        lemma_sum_ext(f, g, (n - 1) as nat);
    }
}

/// The sum of `f + g` is the sum of `f` plus the sum of `g`.
pub proof fn lemma_sum_add(f: spec_fn(int) -> u8, g: spec_fn(int) -> u8, n: nat)
    ensures
        gf_sum(f, n) ^ gf_sum(g, n) == gf_sum(|t: int| f(t) ^ g(t), n),
    decreases n,
{
    if n == 0 {
        lemma_xor_facts(0, 0, 0, 0);
    } else {
        let m = (n - 1) as nat;
        lemma_sum_add(f, g, m);
        lemma_xor_facts(gf_sum(f, m), f(n - 1), gf_sum(g, m), g(n - 1));
    }
}

/// A factor can be moved into a sum.
pub proof fn lemma_sum_scale(x: u8, f: spec_fn(int) -> u8, n: nat)
    ensures
        gf_mul(x, gf_sum(f, n)) == gf_sum(|t: int| gf_mul(x, f(t)), n),
    decreases n,
{
    if n == 0 {
        lemma_gf_mul_identity(x);
    } else {
        let m = (n - 1) as nat;
        lemma_sum_scale(x, f, m);
        lemma_gf_mul_distributive(x, gf_sum(f, m), f(n - 1));
    }
}

/// A sum whose terms vanish except at `r` equals its term at `r`; a sum of
/// vanishing terms is zero.
pub proof fn lemma_sum_single(f: spec_fn(int) -> u8, n: nat, r: int)
    requires
        forall|t: int| 0 <= t < n && t != r ==> #[trigger] f(t) == 0,
    ensures
        0 <= r < n ==> gf_sum(f, n) == f(r),
        !(0 <= r < n) ==> gf_sum(f, n) == 0,
    decreases n,
{
    if n > 0 {
        let m = (n - 1) as nat;
        lemma_sum_single(f, m, r);
        lemma_xor_facts(gf_sum(f, m), f(n - 1), 0, 0);
        lemma_xor_facts(f(n - 1), 0, 0, 0);
    }
}

/// The order of a double sum can be exchanged.
pub proof fn lemma_sum_swap(f: spec_fn(int, int) -> u8, n1: nat, n2: nat)
    ensures
        gf_sum(|s: int| gf_sum(|j: int| f(s, j), n2), n1)
            == gf_sum(|j: int| gf_sum(|s: int| f(s, j), n1), n2),
    decreases n1,
{
    if n1 == 0 {
        lemma_sum_single(|j: int| gf_sum(|s: int| f(s, j), 0), n2, -1);
    } else {
        let m = (n1 - 1) as nat;
        lemma_sum_swap(f, m, n2);
        let inner_m = |j: int| gf_sum(|s: int| f(s, j), m);
        let last = |j: int| f(m as int, j);
        lemma_sum_add(inner_m, last, n2);
        lemma_sum_ext(
            |j: int| inner_m(j) ^ last(j),
            |j: int| gf_sum(|s: int| f(s, j), n1),
            n2,
        );
    }
}

/// The augmented rows `[m[r] | e_r]` are consistent.
pub proof fn lemma_initial_row(a: Seq<u8>, m: Seq<Seq<u8>>, n: nat, r: int)
    requires
        is_square(m, n),
        0 <= r < n,
        a.len() == 2 * n,
        forall|c: int| 0 <= c < n ==> #[trigger] a[c] == m[r][c],
        forall|t: int| 0 <= t < n ==> #[trigger] a[n + t] == identity_entry(r, t),
    ensures
        row_consistent(a, m, n),
{
    assert forall|c: int| 0 <= c < n implies #[trigger] a[c] == dot_at(a, n as int, m, c, n) by {
        let f = |t: int| gf_mul(a[n + t], m[t][c]);
        assert forall|t: int| 0 <= t < n && t != r implies #[trigger] f(t) == 0 by {
            lemma_gf_mul_identity(m[t][c]);
        }
        lemma_sum_single(f, n, r);
        lemma_gf_mul_identity(m[r][c]);
    }
}

/// Scaling a consistent row keeps it consistent.
pub proof fn lemma_scale_row(a: Seq<u8>, b: Seq<u8>, x: u8, m: Seq<Seq<u8>>, n: nat)
    requires
        row_consistent(a, m, n),
        b.len() == a.len(),
        forall|j: int| 0 <= j < a.len() ==> #[trigger] b[j] == gf_mul(a[j], x),
    ensures
        row_consistent(b, m, n),
{
    assert forall|c: int| 0 <= c < n implies #[trigger] b[c] == dot_at(b, n as int, m, c, n) by {
        let f = |t: int| gf_mul(a[n + t], m[t][c]);
        lemma_sum_scale(x, f, n);
        lemma_gf_mul_commutative(a[c], x);
        assert forall|t: int| 0 <= t < n implies #[trigger] gf_mul(x, f(t)) == gf_mul(b[n + t], m[t][c]) by {
            lemma_gf_mul_associative(x, a[n + t], m[t][c]);
            lemma_gf_mul_commutative(x, a[n + t]);
        }
        lemma_sum_ext(|t: int| gf_mul(x, f(t)), |t: int| gf_mul(b[n + t], m[t][c]), n);
    }
}

/// Adding a multiple of one consistent row to another keeps it consistent.
pub proof fn lemma_combine_rows(a: Seq<u8>, p: Seq<u8>, b: Seq<u8>, x: u8, m: Seq<Seq<u8>>, n: nat)
    requires
        row_consistent(a, m, n),
        row_consistent(p, m, n),
        b.len() == a.len(),
        forall|j: int| 0 <= j < a.len() ==> #[trigger] b[j] == a[j] ^ gf_mul(x, p[j]),
    ensures
        row_consistent(b, m, n),
{
    assert forall|c: int| 0 <= c < n implies #[trigger] b[c] == dot_at(b, n as int, m, c, n) by {
        let fa = |t: int| gf_mul(a[n + t], m[t][c]);
        let fp = |t: int| gf_mul(p[n + t], m[t][c]);
        let fx = |t: int| gf_mul(x, fp(t));
        lemma_sum_scale(x, fp, n);
        lemma_sum_add(fa, fx, n);
        assert forall|t: int| 0 <= t < n implies #[trigger] fa(t) ^ fx(t) == gf_mul(b[n + t], m[t][c]) by {
            lemma_gf_mul_associative(x, p[n + t], m[t][c]);
            lemma_gf_mul_distributive(m[t][c], a[n + t], gf_mul(x, p[n + t]));
            lemma_gf_mul_commutative(a[n + t], m[t][c]);
            lemma_gf_mul_commutative(gf_mul(x, p[n + t]), m[t][c]);
            lemma_gf_mul_commutative(b[n + t], m[t][c]);
        }
        lemma_sum_ext(|t: int| fa(t) ^ fx(t), |t: int| gf_mul(b[n + t], m[t][c]), n);
    }
}

/// A left inverse undoes the matrix: if column `b` of `y` is `r` times
/// column `b` of `data`, then `x` times column `b` of `y` is column `b` of
/// `data`.
pub proof fn lemma_left_inverse_recovers(
    x: Seq<Seq<u8>>,
    r: Seq<Seq<u8>>,
    y: Seq<Seq<u8>>,
    data: Seq<Seq<u8>>,
    n: nat,
    b: int,
    d: int,
)
    requires
        is_left_inverse(x, r, n),
        0 <= d < n,
        forall|s: int| 0 <= s < n ==> #[trigger] y[s][b] == dot_at(r[s], 0, data, b, n),
    ensures
        dot_at(x[d], 0, y, b, n) == data[d][b],
{
    let f = |s: int, j: int| gf_mul(gf_mul(x[d][s], r[s][j]), data[j][b]);
    // Move x[d][s] into the inner sum.
    assert forall|s: int| 0 <= s < n implies #[trigger] gf_mul(x[d][s], y[s][b])
        == gf_sum(|j: int| f(s, j), n) by {
        let g = |j: int| gf_mul(r[s][j], data[j][b]);
        lemma_sum_ext(|t: int| gf_mul(r[s][0 + t], data[t][b]), g, n);
        lemma_sum_scale(x[d][s], g, n);
        assert forall|j: int| 0 <= j < n implies #[trigger] gf_mul(x[d][s], g(j)) == f(s, j) by {
            lemma_gf_mul_associative(x[d][s], r[s][j], data[j][b]);
        }
        lemma_sum_ext(|j: int| gf_mul(x[d][s], g(j)), |j: int| f(s, j), n);
    }
    lemma_sum_ext(
        |s: int| gf_mul(x[d][s], y[s][b]),
        |s: int| gf_sum(|j: int| f(s, j), n),
        n,
    );
    lemma_sum_swap(f, n, n);
    // Take data[j][b] out of the inner sum.
    let col = |j: int| gf_sum(|s: int| f(s, j), n);
    assert forall|j: int| 0 <= j < n implies #[trigger] col(j)
        == gf_mul(data[j][b], identity_entry(d, j)) by {
        let h = |s: int| gf_mul(x[d][s], r[s][j]);
        lemma_sum_scale(data[j][b], h, n);
        assert forall|s: int| 0 <= s < n implies #[trigger] gf_mul(data[j][b], h(s)) == f(s, j) by {
            lemma_gf_mul_commutative(data[j][b], h(s));
        }
        lemma_sum_ext(|s: int| gf_mul(data[j][b], h(s)), |s: int| f(s, j), n);
        assert(dot_at(x[d], 0, r, j, n) == identity_entry(d, j));
        lemma_sum_ext(h, |t: int| gf_mul(x[d][0 + t], r[t][j]), n);
    }
    let e = |j: int| gf_mul(data[j][b], identity_entry(d, j));
    lemma_sum_ext(col, e, n);
    assert forall|j: int| 0 <= j < n && j != d implies #[trigger] e(j) == 0 by {
        lemma_gf_mul_identity(data[j][b]);
    }
    lemma_sum_single(e, n, d);
    lemma_gf_mul_identity(data[d][b]);
    lemma_sum_ext(|t: int| gf_mul(x[d][0 + t], y[t][b]), |s: int| gf_mul(x[d][s], y[s][b]), n);
}

/// The right half `E` of an augmented matrix `[A | E]`.
pub open spec fn right_half(aug: Seq<Seq<u8>>, n: nat) -> Seq<Seq<u8>> {
    Seq::new(n, |r: int| Seq::new(n, |t: int| aug[r][n + t]))
}

/// `f` with columns `i` and `p` exchanged.
pub open spec fn swap_cols(f: Seq<Seq<u8>>, i: int, p: int) -> Seq<Seq<u8>> {
    Seq::new(f.len(), |r: int| f[r].update(i, f[r][p]).update(p, f[r][i]))
}

/// `f` with column `i` multiplied by `x`.
pub open spec fn scale_col(f: Seq<Seq<u8>>, i: int, x: u8) -> Seq<Seq<u8>> {
    Seq::new(f.len(), |r: int| f[r].update(i, gf_mul(f[r][i], x)))
}

/// `f` with `x` times column `k` added to column `i`.
pub open spec fn combine_col(f: Seq<Seq<u8>>, i: int, k: int, x: u8) -> Seq<Seq<u8>> {
    Seq::new(f.len(), |r: int| f[r].update(i, f[r][i] ^ gf_mul(x, f[r][k])))
}

/// Changing the terms of a sum at two distinct points `a` and `b` keeps the
/// sum when the two changed terms add up to the same.
pub proof fn lemma_sum_two_points(g: spec_fn(int) -> u8, h: spec_fn(int) -> u8, n: nat, a: int, b: int)
    requires
        0 <= a < n,
        0 <= b < n,
        a != b,
        forall|t: int| 0 <= t < n && t != a && t != b ==> #[trigger] g(t) == h(t),
        g(a) ^ g(b) == h(a) ^ h(b),
    ensures
        gf_sum(g, n) == gf_sum(h, n),
{
    let diff = |t: int| g(t) ^ h(t);
    lemma_sum_add(g, h, n);
    // diff vanishes except at a and b, where it adds up to zero.
    let da = |t: int| if t == a { diff(t) } else { 0u8 };
    let db = |t: int| if t == a { 0u8 } else { diff(t) };
    assert forall|t: int| 0 <= t < n && t != a && t != b implies #[trigger] diff(t) == 0 by {
        lemma_xor_facts(g(t), 0, 0, 0);
    }
    assert forall|t: int| 0 <= t < n implies #[trigger] diff(t) == da(t) ^ db(t) by {
        lemma_xor_facts(diff(t), 0, 0, 0);
        lemma_xor_facts(0, diff(t), 0, 0);
    }
    lemma_sum_add(da, db, n);
    lemma_sum_ext(diff, |t: int| da(t) ^ db(t), n);
    assert forall|t: int| 0 <= t < n && t != a implies #[trigger] da(t) == 0 by {}
    assert forall|t: int| 0 <= t < n && t != b implies #[trigger] db(t) == 0 by {}
    lemma_sum_single(da, n, a);
    lemma_sum_single(db, n, b);
    assert(g(a) ^ h(a) ^ (g(b) ^ h(b)) == 0) by {
        lemma_xor_facts(g(a), g(b), h(a), h(b));
        lemma_xor_facts(h(a) ^ h(b), 0, 0, 0);
    }
    lemma_xor_facts(gf_sum(g, n), 0, 0, 0);
    assert(gf_sum(g, n) ^ gf_sum(h, n) == 0);
    assert(gf_sum(g, n) == gf_sum(h, n)) by {
        lemma_xor_equal(gf_sum(g, n), gf_sum(h, n));
    }
}

/// Elements whose sum (xor) is zero are equal.
pub proof fn lemma_xor_equal(a: u8, b: u8)
    requires
        a ^ b == 0,
    ensures
        a == b,
{
    assert(a ^ b == 0 ==> a == b) by (bit_vector);
}

/// Exchanging rows `i` and `p` of `e` and columns `i` and `p` of its left
/// inverse `f` keeps `f` a left inverse.
pub proof fn lemma_inverse_swap(f: Seq<Seq<u8>>, e: Seq<Seq<u8>>, e2: Seq<Seq<u8>>, n: nat, i: int, p: int)
    requires
        is_left_inverse(f, e, n),
        0 <= i < n,
        0 <= p < n,
        i != p,
        e2 == e.update(i, e[p]).update(p, e[i]),
    ensures
        is_left_inverse(swap_cols(f, i, p), e2, n),
{
    let f2 = swap_cols(f, i, p);
    assert forall|r: int| 0 <= r < n implies #[trigger] f2[r].len() == n by {}
    assert forall|r: int, c: int| 0 <= r < n && 0 <= c < n implies #[trigger] dot_at(f2[r], 0, e2, c, n) == identity_entry(r, c) by {
        let g = |t: int| gf_mul(f[r][0 + t], e[t][c]);
        let h = |t: int| gf_mul(f2[r][0 + t], e2[t][c]);
        assert(dot_at(f[r], 0, e, c, n) == identity_entry(r, c));
        lemma_sum_ext(g, |t: int| gf_mul(f[r][0 + t], e[t][c]), n);
        lemma_sum_ext(h, |t: int| gf_mul(f2[r][0 + t], e2[t][c]), n);
        assert forall|t: int| 0 <= t < n && t != i && t != p implies #[trigger] g(t) == h(t) by {}
        lemma_xor_facts(g(i), g(p), 0, 0);
        assert(g(i) ^ g(p) == h(i) ^ h(p)) by {
            assert(h(i) == g(p));
            assert(h(p) == g(i));
            lemma_xor_facts(g(i), g(p), 0, 0);
        }
        lemma_sum_two_points(h, g, n, i, p);
    }
}

/// Scaling row `i` of `e` by `x` and column `i` of its left inverse by `y`,
/// where `x * y == 1`, keeps a left inverse.
pub proof fn lemma_inverse_scale(f: Seq<Seq<u8>>, e: Seq<Seq<u8>>, e2: Seq<Seq<u8>>, n: nat, i: int, x: u8, y: u8)
    requires
        is_left_inverse(f, e, n),
        0 <= i < n,
        gf_mul(x, y) == 1,
        is_square(e2, n),
        forall|t: int| 0 <= t < n && t != i ==> #[trigger] e2[t] == e[t],
        forall|c: int| 0 <= c < n ==> #[trigger] e2[i][c] == gf_mul(e[i][c], x),
    ensures
        is_left_inverse(scale_col(f, i, y), e2, n),
{
    let f2 = scale_col(f, i, y);
    assert forall|r: int| 0 <= r < n implies #[trigger] f2[r].len() == n by {}
    assert forall|r: int, c: int| 0 <= r < n && 0 <= c < n implies #[trigger] dot_at(f2[r], 0, e2, c, n) == identity_entry(r, c) by {
        let g = |t: int| gf_mul(f[r][0 + t], e[t][c]);
        let h = |t: int| gf_mul(f2[r][0 + t], e2[t][c]);
        assert(dot_at(f[r], 0, e, c, n) == identity_entry(r, c));
        lemma_sum_ext(g, |t: int| gf_mul(f[r][0 + t], e[t][c]), n);
        lemma_sum_ext(h, |t: int| gf_mul(f2[r][0 + t], e2[t][c]), n);
        assert forall|t: int| 0 <= t < n implies #[trigger] g(t) == h(t) by {
            if t == i {
                // (f * y) * (e * x) == f * e
                lemma_gf_mul_associative(f[r][i], y, gf_mul(e[i][c], x));
                lemma_gf_mul_commutative(e[i][c], x);
                lemma_gf_mul_associative(y, x, e[i][c]);
                lemma_gf_mul_commutative(y, x);
                lemma_gf_mul_identity(e[i][c]);
            }
        }
        lemma_sum_ext(g, h, n);
    }
}

/// Adding `x` times row `i` of `e` to row `k`, and `x` times column `k` of
/// its left inverse to column `i`, keeps a left inverse.
pub proof fn lemma_inverse_combine(f: Seq<Seq<u8>>, e: Seq<Seq<u8>>, e2: Seq<Seq<u8>>, n: nat, i: int, k: int, x: u8)
    requires
        is_left_inverse(f, e, n),
        0 <= i < n,
        0 <= k < n,
        i != k,
        is_square(e2, n),
        forall|t: int| 0 <= t < n && t != k ==> #[trigger] e2[t] == e[t],
        forall|c: int| 0 <= c < n ==> #[trigger] e2[k][c] == e[k][c] ^ gf_mul(x, e[i][c]),
    ensures
        is_left_inverse(combine_col(f, i, k, x), e2, n),
{
    let f2 = combine_col(f, i, k, x);
    assert forall|r: int| 0 <= r < n implies #[trigger] f2[r].len() == n by {}
    assert forall|r: int, c: int| 0 <= r < n && 0 <= c < n implies #[trigger] dot_at(f2[r], 0, e2, c, n) == identity_entry(r, c) by {
        let g = |t: int| gf_mul(f[r][0 + t], e[t][c]);
        let h = |t: int| gf_mul(f2[r][0 + t], e2[t][c]);
        assert(dot_at(f[r], 0, e, c, n) == identity_entry(r, c));
        lemma_sum_ext(g, |t: int| gf_mul(f[r][0 + t], e[t][c]), n);
        lemma_sum_ext(h, |t: int| gf_mul(f2[r][0 + t], e2[t][c]), n);
        assert forall|t: int| 0 <= t < n && t != i && t != k implies #[trigger] g(t) == h(t) by {}
        lemma_combine_terms(f[r][i], f[r][k], e[i][c], e[k][c], x);
        assert(h(i) == gf_mul(f[r][i] ^ gf_mul(x, f[r][k]), e[i][c]));
        assert(h(k) == gf_mul(f[r][k], e[k][c] ^ gf_mul(x, e[i][c])));
        lemma_sum_two_points(h, g, n, i, k);
    }
}

/// The two changed terms of a column combination add up to the old ones.
proof fn lemma_combine_terms(fi: u8, fk: u8, ei: u8, ek: u8, x: u8)
    ensures
        gf_mul(fi, ei) ^ gf_mul(fk, ek)
            == gf_mul(fi ^ gf_mul(x, fk), ei) ^ gf_mul(fk, ek ^ gf_mul(x, ei)),
{
    let z = gf_mul(gf_mul(x, fk), ei);
    lemma_gf_mul_distributive(ei, fi, gf_mul(x, fk));
    lemma_gf_mul_commutative(fi ^ gf_mul(x, fk), ei);
    lemma_gf_mul_commutative(fi, ei);
    lemma_gf_mul_commutative(gf_mul(x, fk), ei);
    lemma_gf_mul_distributive(fk, ek, gf_mul(x, ei));
    lemma_gf_mul_associative(fk, x, ei);
    lemma_gf_mul_associative(x, fk, ei);
    lemma_gf_mul_commutative(fk, x);
    assert(gf_mul(fi ^ gf_mul(x, fk), ei) == gf_mul(fi, ei) ^ z);
    assert(gf_mul(fk, ek ^ gf_mul(x, ei)) == gf_mul(fk, ek) ^ z);
    lemma_xor_facts(gf_mul(fi, ei), gf_mul(fk, ek), z, 0);
}

/// The identity is its own left inverse.
pub proof fn lemma_identity_inverse(e: Seq<Seq<u8>>, n: nat)
    requires
        is_square(e, n),
        forall|r: int, c: int| 0 <= r < n && 0 <= c < n ==> #[trigger] e[r][c] == identity_entry(r, c),
    ensures
        is_left_inverse(e, e, n),
{
    assert forall|r: int, c: int| 0 <= r < n && 0 <= c < n implies #[trigger] dot_at(e[r], 0, e, c, n) == identity_entry(r, c) by {
        let g = |t: int| gf_mul(e[r][0 + t], e[t][c]);
        assert forall|t: int| 0 <= t < n && t != r implies #[trigger] g(t) == 0 by {
            lemma_gf_mul_identity(e[t][c]);
        }
        lemma_sum_single(g, n, r);
        lemma_gf_mul_identity(e[r][c]);
    }
}

/// `m` has a left inverse.
pub open spec fn has_left_inverse(m: Seq<Seq<u8>>, n: nat) -> bool {
    exists|x: Seq<Seq<u8>>| is_left_inverse(x, m, n)
}

/// The `n` by 1 matrix with entries `v(0), ..., v(n - 1)`.
pub open spec fn column(v: spec_fn(int) -> u8, n: nat) -> Seq<Seq<u8>> {
    Seq::new(n, |t: int| seq![v(t)])
}

/// A sum of products with a zero factor is zero.
proof fn lemma_sum_zero(g: spec_fn(int) -> u8, n: nat)
    requires
        forall|t: int| 0 <= t < n ==> #[trigger] g(t) == 0,
    ensures
        gf_sum(g, n) == 0,
{
    lemma_sum_single(g, n, -1);
}

/// `e * (m * v) == (e * m) * v` for a row `e` and a column `v`.
pub proof fn lemma_assoc_vec(e: Seq<u8>, m: Seq<Seq<u8>>, v: spec_fn(int) -> u8, n: nat)
    ensures
        gf_sum(|t: int| gf_mul(e[t], gf_sum(|c: int| gf_mul(m[t][c], v(c)), n)), n)
            == gf_sum(|c: int| gf_mul(gf_sum(|t: int| gf_mul(e[t], m[t][c]), n), v(c)), n),
{
    let f = |t: int, c: int| gf_mul(gf_mul(e[t], m[t][c]), v(c));
    let outer = |t: int| gf_mul(e[t], gf_sum(|c: int| gf_mul(m[t][c], v(c)), n));
    let rows = |t: int| gf_sum(|c: int| f(t, c), n);
    assert forall|t: int| 0 <= t < n implies #[trigger] outer(t) == rows(t) by {
        let g = |c: int| gf_mul(m[t][c], v(c));
        lemma_sum_scale(e[t], g, n);
        assert forall|c: int| 0 <= c < n implies #[trigger] gf_mul(e[t], g(c)) == f(t, c) by {
            lemma_gf_mul_associative(e[t], m[t][c], v(c));
        }
        lemma_sum_ext(|c: int| gf_mul(e[t], g(c)), |c: int| f(t, c), n);
    }
    lemma_sum_ext(outer, rows, n);
    lemma_sum_swap(f, n, n);
    let cols = |c: int| gf_sum(|t: int| f(t, c), n);
    let target = |c: int| gf_mul(gf_sum(|t: int| gf_mul(e[t], m[t][c]), n), v(c));
    assert forall|c: int| 0 <= c < n implies #[trigger] cols(c) == target(c) by {
        let h = |t: int| gf_mul(e[t], m[t][c]);
        lemma_sum_scale(v(c), h, n);
        lemma_gf_mul_commutative(v(c), gf_sum(h, n));
        assert forall|t: int| 0 <= t < n implies #[trigger] gf_mul(v(c), h(t)) == f(t, c) by {
            lemma_gf_mul_commutative(v(c), h(t));
        }
        lemma_sum_ext(|t: int| gf_mul(v(c), h(t)), |t: int| f(t, c), n);
    }
    lemma_sum_ext(cols, target, n);
}

/// When Gauss-Jordan elimination finds no pivot in column `i`, the matrix
/// has no left inverse: column `i` of the reduced matrix is a combination of
/// the earlier columns, so a non-zero vector is sent to zero.
pub proof fn lemma_stuck_column_singular(aug: Seq<Seq<u8>>, m: Seq<Seq<u8>>, f: Seq<Seq<u8>>, n: nat, i: int)
    requires
        is_square(m, n),
        aug.len() == n,
        forall|r: int| 0 <= r < n ==> #[trigger] row_consistent(aug[r], m, n),
        0 <= i < n,
        forall|r: int, c: int| 0 <= r < n && 0 <= c < i ==> #[trigger] aug[r][c] == identity_entry(r, c),
        forall|r: int| i <= r < n ==> #[trigger] aug[r][i] == 0,
        is_left_inverse(f, right_half(aug, n), n),
    ensures
        !has_left_inverse(m, n),
{
    if has_left_inverse(m, n) {
        let x = choose|x: Seq<Seq<u8>>| is_left_inverse(x, m, n);
        let v = |c: int| if c < i { aug[c][i] } else if c == i { 1u8 } else { 0u8 };
        let vm = column(v, n);
        let w = |t: int| dot_at(m[t], 0, vm, 0, n);
        let wm = column(w, n);
        let e = right_half(aug, n);
        let y = Seq::new(n, |s: int| seq![dot_at(e[s], 0, wm, 0, n)]);
        assert forall|s: int| 0 <= s < n implies #[trigger] y[s][0] == 0 by {
            assert forall|t: int| 0 <= t < n implies #[trigger] w(t) == gf_sum(|c: int| gf_mul(m[t][c], v(c)), n) by {
                lemma_sum_ext(|c: int| gf_mul(m[t][0 + c], vm[c][0]), |c: int| gf_mul(m[t][c], v(c)), n);
            }
            lemma_sum_ext(
                |t: int| gf_mul(e[s][0 + t], wm[t][0]),
                |t: int| gf_mul(e[s][t], gf_sum(|c: int| gf_mul(m[t][c], v(c)), n)),
                n,
            );
            lemma_assoc_vec(e[s], m, v, n);
            let h = |c: int| gf_mul(gf_sum(|t: int| gf_mul(e[s][t], m[t][c]), n), v(c));
            let a = |c: int| gf_mul(aug[s][c], v(c));
            assert forall|c: int| 0 <= c < n implies #[trigger] h(c) == a(c) by {
                assert(row_consistent(aug[s], m, n));
                lemma_sum_ext(|t: int| gf_mul(e[s][t], m[t][c]), |t: int| gf_mul(aug[s][n + t], m[t][c]), n);
            }
            lemma_sum_ext(h, a, n);
            let zero = |c: int| 0u8;
            assert forall|c: int| 0 <= c < n && c != s && c != i implies #[trigger] a(c) == zero(c) by {
                lemma_gf_mul_identity(aug[s][c]);
                lemma_gf_mul_identity(v(c));
            }
            lemma_gf_mul_identity(aug[s][i]);
            if s < i {
                lemma_gf_mul_identity(v(s));
                assert(a(s) == aug[s][i]);
                assert(a(i) == aug[s][i]);
                lemma_xor_facts(aug[s][i], 0, 0, 0);
                lemma_xor_facts(0, 0, 0, 0);
                assert(a(s) ^ a(i) == zero(s) ^ zero(i));
                lemma_sum_two_points(a, zero, n, s, i);
            } else {
                lemma_gf_mul_identity(v(s));
                assert(a(i) == 0);
                assert forall|c: int| 0 <= c < n implies #[trigger] a(c) == 0 by {
                    lemma_gf_mul_identity(aug[s][c]);
                    lemma_gf_mul_identity(v(c));
                }
                lemma_sum_zero(a, n);
            }
            lemma_sum_zero(zero, n);
        }
        assert forall|d: int| 0 <= d < n implies #[trigger] w(d) == 0 by {
            assert forall|s: int| 0 <= s < n implies #[trigger] y[s][0] == dot_at(e[s], 0, wm, 0, n) by {}
            lemma_left_inverse_recovers(f, e, y, wm, n, 0, d);
            assert forall|t: int| 0 <= t < n implies #[trigger] gf_mul(f[d][0 + t], y[t][0]) == 0 by {
                lemma_gf_mul_identity(f[d][0 + t]);
            }
            lemma_sum_zero(|t: int| gf_mul(f[d][0 + t], y[t][0]), n);
        }
        assert forall|t: int| 0 <= t < n implies #[trigger] wm[t][0] == dot_at(m[t], 0, vm, 0, n) by {}
        lemma_left_inverse_recovers(x, m, wm, vm, n, 0, i);
        assert forall|t: int| 0 <= t < n implies #[trigger] gf_mul(x[i][0 + t], wm[t][0]) == 0 by {
            lemma_gf_mul_identity(x[i][0 + t]);
        }
        lemma_sum_zero(|t: int| gf_mul(x[i][0 + t], wm[t][0]), n);
        assert(vm[i][0] == 1);
    }
}

} // verus!
