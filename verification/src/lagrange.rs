//! Lagrange interpolation modulo 2^61 - 1: the values of a polynomial at distinct points fix its
//! value anywhere, by the weights `ell` below. The inverse of every nonzero residue, which the
//! weights divide by, comes from `prime`.
use vstd::prelude::*;
use vstd::arithmetic::div_mod::{
    lemma_add_mod_noop, lemma_mod_bound, lemma_mod_twice, lemma_mul_mod_noop, lemma_mul_mod_noop_left,
    lemma_mul_mod_noop_right, lemma_small_mod,
};
use vstd::arithmetic::power::{
    lemma_pow0, lemma_pow1, lemma_pow_adds, lemma_pow_distributes, lemma_pow_mod_noop, lemma_pow_multiplies,
    lemma_square_is_pow2, lemma1_pow, pow,
};
use crate::prime::{law_every_nonzero_residue_has_its_inverse, modulus};
use crate::shamir::{horner, P};

verus! {

/// The inverse of `a` modulo the modulus, as Fermat's little theorem gives it.
pub open spec fn iv(a: int) -> int {
    pow(a, (modulus() - 2) as nat) % modulus()
}

/// `f(0) + .. + f(k - 1)`, modulo the modulus.
pub open spec fn sum(f: spec_fn(int) -> int, k: nat) -> int
    decreases k,
{
    if k == 0 {
        0
    } else {
        (sum(f, (k - 1) as nat) + f(k - 1)) % modulus()
    }
}

proof fn lemma_sum_bound(f: spec_fn(int) -> int, k: nat)
    ensures
        0 <= sum(f, k) < modulus(),
{
    if k > 0 {
        lemma_mod_bound(sum(f, (k - 1) as nat) + f(k - 1), modulus());
    }
}

/// Sums of terms that agree modulo the modulus agree.
pub(crate) proof fn lemma_sum_ext(f: spec_fn(int) -> int, g: spec_fn(int) -> int, k: nat)
    requires
        forall|i: int| 0 <= i < k ==> #[trigger] f(i) % modulus() == g(i) % modulus(),
    ensures
        sum(f, k) == sum(g, k),
    decreases k,
{
    if k > 0 {
        lemma_sum_ext(f, g, (k - 1) as nat);
        let m = modulus();
        let s = sum(f, (k - 1) as nat);
        lemma_add_mod_noop(s, f(k - 1), m);
        lemma_add_mod_noop(s, g(k - 1), m);
    }
}

/// The sum of pointwise sums is the sum of the sums.
proof fn lemma_sum_add(f: spec_fn(int) -> int, g: spec_fn(int) -> int, h: spec_fn(int) -> int, k: nat)
    requires
        forall|i: int| 0 <= i < k ==> #[trigger] h(i) % modulus() == (f(i) + g(i)) % modulus(),
    ensures
        sum(h, k) == (sum(f, k) + sum(g, k)) % modulus(),
    decreases k,
{
    let m = modulus();
    if k == 0 {
        lemma_small_mod(0, m as nat);
    } else {
        lemma_sum_add(f, g, h, (k - 1) as nat);
        let a = sum(f, (k - 1) as nat);
        let b = sum(g, (k - 1) as nat);
        let c = sum(h, (k - 1) as nat);
        let x = f(k - 1);
        let y = g(k - 1);
        let z = h(k - 1);
        // sum(h,k) = (c + z) % m, c = (a + b) % m, z ≡ x + y
        lemma_add_mod_noop(c, z, m);
        lemma_add_mod_noop(a + b, x + y, m);
        lemma_mod_twice(a + b, m);
        lemma_mod_twice(z, m);
        assert((c + z) % m == ((a + b) + (x + y)) % m) by {
            lemma_add_mod_noop(a + b, z, m);
            lemma_add_mod_noop(a + b, x + y, m);
        }
        lemma_add_mod_noop(a + x, b + y, m);
        assert((a + b) + (x + y) == (a + x) + (b + y));
    }
}

/// A common factor comes out of a sum.
proof fn lemma_sum_scale(f: spec_fn(int) -> int, g: spec_fn(int) -> int, c: int, k: nat)
    requires
        forall|i: int| 0 <= i < k ==> #[trigger] g(i) % modulus() == (c * f(i)) % modulus(),
    ensures
        sum(g, k) == (c * sum(f, k)) % modulus(),
    decreases k,
{
    let m = modulus();
    if k == 0 {
        lemma_small_mod(0, m as nat);
    } else {
        lemma_sum_scale(f, g, c, (k - 1) as nat);
        let a = sum(f, (k - 1) as nat);
        let b = sum(g, (k - 1) as nat);
        let x = f(k - 1);
        let y = g(k - 1);
        lemma_add_mod_noop(b, y, m);
        lemma_mul_mod_noop_right(c, a, m);
        lemma_add_mod_noop(c * a, c * x, m);
        lemma_mod_twice(c * a, m);
        lemma_mul_mod_noop_right(c, a + x, m);
        assert(c * (a + x) == c * a + c * x) by (nonlinear_arith);
        lemma_mod_twice(y, m);
        assert((b + y) % m == ((c * a) % m + (c * x) % m) % m) by {
            lemma_add_mod_noop(b, y, m);
        }
    }
}

/// A product of residues that are not zero is not zero.
proof fn lemma_nonzero_product(a: int, b: int)
    requires
        a % modulus() != 0,
        b % modulus() != 0,
    ensures
        (a * b) % modulus() != 0,
{
    let m = modulus();
    if (a * b) % m == 0 {
        law_every_nonzero_residue_has_its_inverse(a);
        let ia = iv(a);
        // b = b * (a * ia) = (a * b) * ia = 0
        lemma_mul_mod_noop_right(b, a * ia, m);
        lemma_mul_mod_noop_right(a, pow(a, (m - 2) as nat), m);
        assert((b * (a * ia)) % m == (b * 1) % m) by {
            lemma_mul_mod_noop_right(b, a * ia, m);
            lemma_small_mod(1, m as nat);
        }
        assert(b * (a * ia) == (a * b) * ia) by (nonlinear_arith);
        lemma_mul_mod_noop_left(a * b, ia, m);
        assert(false);
    }
}

/// The inverse of a product is the product of the inverses.
proof fn lemma_iv_mul(a: int, b: int)
    ensures
        iv(a * b) == (iv(a) * iv(b)) % modulus(),
        iv((a * b) % modulus()) == iv(a * b),
{
    let m = modulus();
    let e = (m - 2) as nat;
    lemma_pow_distributes(a, b, e);
    lemma_mul_mod_noop(pow(a, e), pow(b, e), m);
    vstd::arithmetic::power::lemma_pow_mod_noop(a * b, e, m);
}

/// `a` times its inverse is one.
proof fn lemma_iv(a: int)
    requires
        a % modulus() != 0,
    ensures
        (a * iv(a)) % modulus() == 1,
        0 <= iv(a) < modulus(),
        iv(a) % modulus() != 0,
{
    law_every_nonzero_residue_has_its_inverse(a);
    lemma_mod_bound(pow(a, (modulus() - 2) as nat), modulus());
    if iv(a) % modulus() == 0 {
        lemma_mul_mod_noop_right(a, iv(a), modulus());
        lemma_small_mod(0, modulus() as nat);
        assert(a * 0 == 0);
    }
}

/// Congruence respects products.
proof fn lemma_cong_mul(a: int, b: int, c: int, d: int)
    requires
        a % modulus() == c % modulus(),
        b % modulus() == d % modulus(),
    ensures
        (a * b) % modulus() == (c * d) % modulus(),
{
    lemma_mul_mod_noop(a, b, modulus());
    lemma_mul_mod_noop(c, d, modulus());
}

/// Congruence respects sums.
proof fn lemma_cong_add(a: int, b: int, c: int, d: int)
    requires
        a % modulus() == c % modulus(),
        b % modulus() == d % modulus(),
    ensures
        (a + b) % modulus() == (c + d) % modulus(),
{
    lemma_add_mod_noop(a, b, modulus());
    lemma_add_mod_noop(c, d, modulus());
}

/// A residue is congruent to itself reduced.
proof fn lemma_cong_red(a: int)
    ensures
        (a % modulus()) % modulus() == a % modulus(),
        0 <= a % modulus() < modulus(),
{
    lemma_mod_twice(a, modulus());
    lemma_mod_bound(a, modulus());
}

/// `(z - x_j)` over `j < n` except `j == i`, multiplied together modulo the modulus.
pub open spec fn pe(xs: Seq<int>, i: int, z: int, n: nat) -> int
    decreases n,
{
    if n == 0 {
        1
    } else if n - 1 == i {
        pe(xs, i, z, (n - 1) as nat)
    } else {
        (pe(xs, i, z, (n - 1) as nat) * ((z - xs[n - 1]) % modulus())) % modulus()
    }
}

/// `(z - x_j)` over every `j < n`, multiplied together.
pub open spec fn pa(xs: Seq<int>, z: int, n: nat) -> int
    decreases n,
{
    if n == 0 {
        1
    } else {
        (pa(xs, z, (n - 1) as nat) * ((z - xs[n - 1]) % modulus())) % modulus()
    }
}

/// The weight of point `i` among the first `n` at `z`.
pub open spec fn ell(xs: Seq<int>, i: int, z: int, n: nat) -> int {
    (pe(xs, i, z, n) * iv(pe(xs, i, xs[i], n))) % modulus()
}

/// The first `n` points are distinct modulo the modulus.
pub open spec fn distinct(xs: Seq<int>, n: nat) -> bool {
    &&& n <= xs.len()
    &&& forall|i: int, j: int| 0 <= i < n && 0 <= j < n && i != j ==> #[trigger] ((xs[i] - xs[j]) % modulus()) != 0
}

proof fn lemma_pe_bound(xs: Seq<int>, i: int, z: int, n: nat)
    ensures
        0 <= pe(xs, i, z, n) < modulus(),
        0 <= pa(xs, z, n) < modulus(),
    decreases n,
{
    if n == 0 {
    } else {
        lemma_pe_bound(xs, i, z, (n - 1) as nat);
        lemma_mod_bound(pe(xs, i, z, (n - 1) as nat) * ((z - xs[n - 1]) % modulus()), modulus());
        lemma_mod_bound(pa(xs, z, (n - 1) as nat) * ((z - xs[n - 1]) % modulus()), modulus());
    }
}

/// Leaving out an index that is not there leaves out nothing.
proof fn lemma_pe_full(xs: Seq<int>, i: int, z: int, n: nat)
    requires
        i >= n || i < 0,
    ensures
        pe(xs, i, z, n) == pa(xs, z, n),
    decreases n,
{
    if n > 0 {
        lemma_pe_full(xs, i, z, (n - 1) as nat);
    }
}

/// The product leaving out `i`, times the factor for `i`, is the whole product.
proof fn lemma_pe_split(xs: Seq<int>, i: int, z: int, n: nat)
    requires
        0 <= i < n,
    ensures
        (pe(xs, i, z, n) * ((z - xs[i]) % modulus())) % modulus() == pa(xs, z, n),
    decreases n,
{
    let m = modulus();
    let k = (n - 1) as nat;
    let fi = (z - xs[i]) % m;
    let fk = (z - xs[k as int]) % m;
    if i == k {
        lemma_pe_full(xs, i, z, k);
    } else {
        lemma_pe_split(xs, i, z, k);
        let a = pe(xs, i, z, k);
        // ((a * fk) % m * fi) % m == ((a * fi) % m * fk) % m
        lemma_mul_mod_noop_left(a * fk, fi, m);
        lemma_mul_mod_noop_left(a * fi, fk, m);
        assert((a * fk) * fi == (a * fi) * fk) by (nonlinear_arith);
    }
}

/// The denominators of the weights are not zero.
proof fn lemma_pe_nonzero(xs: Seq<int>, i: int, z: int, n: nat)
    requires
        n <= xs.len(),
        forall|j: int| 0 <= j < n && j != i ==> #[trigger] ((z - xs[j]) % modulus()) != 0,
    ensures
        pe(xs, i, z, n) % modulus() != 0,
    decreases n,
{
    let m = modulus();
    if n == 0 {
        lemma_small_mod(1, m as nat);
    } else {
        lemma_pe_nonzero(xs, i, z, (n - 1) as nat);
        if n - 1 != i {
            let a = pe(xs, i, z, (n - 1) as nat);
            let f = (z - xs[n - 1]) % m;
            lemma_cong_red(z - xs[n - 1]);
            lemma_nonzero_product(a, f);
            lemma_cong_red(a * f);
        }
    }
}

/// The inverse of a negation is the negation of the inverse: the exponent is odd.
proof fn lemma_iv_neg(y: int)
    ensures
        iv(-y) == (-iv(y)) % modulus(),
{
    let m = modulus();
    let e = (m - 2) as nat;
    let h = (e / 2) as nat;
    assert(e == 2 * h + 1);
    lemma_pow_adds(-1, 2 * h, 1);
    lemma_pow_multiplies(-1, 2, h);
    lemma_square_is_pow2(-1);
    lemma1_pow(h);
    lemma_pow1(-1);
    assert(pow(-1, e) == -1);
    lemma_pow_distributes(-1, y, e);
    assert(-y == -1 * y);
    assert(pow(-y, e) == -pow(y, e));
    // (-p) % m == (-(p % m)) % m
    let p = pow(y, e);
    lemma_fundamental(p);
}

proof fn lemma_fundamental(p: int)
    ensures
        (-p) % modulus() == (-(p % modulus())) % modulus(),
{
    let m = modulus();
    vstd::arithmetic::div_mod::lemma_fundamental_div_mod(p, m);
    let q = p / m;
    assert(-p == m * (-q) + (-(p % m))) by (nonlinear_arith)
        requires
            p == m * q + p % m,
    ;
    vstd::arithmetic::div_mod::lemma_mod_multiples_vanish(-q, -(p % m), m);
}

/// Going from `k - 1` points to `k`, the weight of an old point splits into its old weight and
/// a part proportional to the inverse of its new denominator.
proof fn lemma_ell_step(xs: Seq<int>, i: int, z: int, k: nat)
    requires
        k >= 2,
        0 <= i < k - 1,
        distinct(xs, k),
    ensures
        ell(xs, i, z, k) % modulus() == (ell(xs, i, z, (k - 1) as nat) + pa(xs, z, (k - 1) as nat) * iv(
            pe(xs, i, xs[i], k),
        )) % modulus(),
{
    let m = modulus();
    let kk = (k - 1) as nat;
    let c = xs[kk as int];
    let a = pe(xs, i, z, kk);
    let fz = (z - c) % m;
    let d = pe(xs, i, xs[i], kk);
    let u = (xs[i] - c) % m;
    let b = iv(d);
    let v = iv(u);
    let w = (z - xs[i]) % m;
    let big_a = pa(xs, z, kk);
    assert(pe(xs, i, z, k) == (a * fz) % m);
    assert(pe(xs, i, xs[i], k) == (d * u) % m);
    lemma_iv_mul(d, u);
    let ivk = iv(pe(xs, i, xs[i], k));
    assert(ivk == (b * v) % m);
    assert((xs[i] - c) % m != 0);
    lemma_cong_red(xs[i] - c);
    lemma_iv(u);
    assert((u * v) % m == 1);
    lemma_pe_split(xs, i, z, kk);
    assert((a * w) % m == big_a);
    lemma_cong_red(a * fz);
    lemma_cong_red(b * v);
    // E1
    lemma_cong_mul(a * fz, b * v, (a * fz) % m, (b * v) % m);
    assert(ell(xs, i, z, k) == ((a * fz) % m * ((b * v) % m)) % m);
    // E2: fz ≡ u + w
    lemma_add_mod_noop(xs[i] - c, z - xs[i], m);
    assert((xs[i] - c) + (z - xs[i]) == z - c);
    lemma_cong_red(z - c);
    lemma_cong_red(z - xs[i]);
    assert(fz % m == (u + w) % m);
    lemma_cong_mul(a, fz, a, u + w);
    lemma_cong_mul(a * fz, b * v, a * (u + w), b * v);
    // E3
    assert((a * (u + w)) * (b * v) == (a * b) * (u * v) + (a * w) * (b * v)) by (nonlinear_arith);
    // E4
    lemma_small_mod(1, m as nat);
    lemma_cong_mul(a * b, u * v, a * b, 1);
    // E5
    lemma_cong_mul(a * w, b * v, big_a, ivk);
    // E6
    lemma_cong_add((a * b) * (u * v), (a * w) * (b * v), a * b, big_a * ivk);
    assert(ell(xs, i, z, kk) == (a * b) % m);
    lemma_cong_red(a * b);
    lemma_cong_add(a * b, big_a * ivk, ell(xs, i, z, kk), big_a * ivk);
    lemma_cong_red(ell(xs, i, z, k));
}

/// The weights at any point add up to one.
proof fn lemma_unity(xs: Seq<int>, z: int, k: nat)
    requires
        k >= 1,
        distinct(xs, k),
    ensures
        sum(|i: int| ell(xs, i, z, k), k) == 1,
    decreases k, 1int,
{
    let m = modulus();
    if k == 1 {
        assert(pe(xs, 0, z, 0) == 1);
        assert(pe(xs, 0, z, 1) == 1);
        assert(pe(xs, 0, xs[0], 0) == 1);
        assert(pe(xs, 0, xs[0], 1) == 1);
        lemma1_pow((m - 2) as nat);
        lemma_small_mod(1, m as nat);
        assert(ell(xs, 0, z, 1) == 1);
        assert(sum(|i: int| ell(xs, i, z, k), 0) == 0);
    } else {
        let kk = (k - 1) as nat;
        assert(distinct(xs, kk));
        lemma_unity(xs, z, kk);
        lemma_vanish(xs, k);
        let big_a = pa(xs, z, kk);
        let f = |i: int| if i < kk { ell(xs, i, z, kk) } else { 0 };
        let g = |i: int| big_a * iv(pe(xs, i, xs[i], k));
        let h = |i: int| ell(xs, i, z, k);
        let invs = |i: int| iv(pe(xs, i, xs[i], k));
        assert forall|i: int| 0 <= i < k implies #[trigger] h(i) % m == (f(i) + g(i)) % m by {
            if i < kk {
                lemma_ell_step(xs, i, z, k);
            } else {
                assert(pe(xs, i, z, k) == pe(xs, i, z, kk));
                lemma_pe_full(xs, i, z, kk);
                lemma_cong_red(big_a * iv(pe(xs, i, xs[i], k)));
            }
        }
        lemma_sum_add(f, g, h, k);
        lemma_sum_ext(f, |i: int| ell(xs, i, z, kk), kk);
        lemma_sum_bound(f, kk);
        lemma_small_mod(sum(f, kk) as nat, m as nat);
        assert(sum(f, k) == 1);
        assert forall|i: int| 0 <= i < k implies #[trigger] g(i) % m == (big_a * invs(i)) % m by {}
        lemma_sum_scale(invs, g, big_a, k);
        assert(sum(g, k) == 0);
        lemma_small_mod(1, m as nat);
    }
}

/// The inverses of the denominators of two or more distinct points add up to zero.
proof fn lemma_vanish(xs: Seq<int>, k: nat)
    requires
        k >= 2,
        distinct(xs, k),
    ensures
        sum(|i: int| iv(pe(xs, i, xs[i], k)), k) == 0,
    decreases k, 0int,
{
    let m = modulus();
    let kk = (k - 1) as nat;
    let c = xs[kk as int];
    assert(distinct(xs, kk));
    lemma_unity(xs, c, kk);
    let big_b = pe(xs, kk as int, c, k);
    assert(big_b == pe(xs, kk as int, c, kk));
    assert(forall|j: int| 0 <= j < k && j != kk ==> #[trigger] ((c - xs[j]) % m) != 0);
    lemma_pe_nonzero(xs, kk as int, c, k);
    lemma_pe_bound(xs, kk as int, c, k);
    let invs = |i: int| iv(pe(xs, i, xs[i], k));
    let g = |i: int| big_b * invs(i);
    let ells = |i: int| ell(xs, i, c, kk);
    let negs = |i: int| -1 * ells(i);
    let h = |i: int| if i < kk { -1 * ells(i) } else { 1 };
    assert forall|i: int| 0 <= i < k implies #[trigger] g(i) % m == h(i) % m by {
        if i < kk {
            lemma_vanish_term(xs, i, k);
        } else {
            assert(pe(xs, i, xs[i], k) == big_b);
            lemma_iv(big_b);
            lemma_small_mod(1, m as nat);
        }
    }
    lemma_sum_ext(g, h, k);
    lemma_sum_ext(h, negs, kk);
    lemma_sum_scale(ells, negs, -1, kk);
    // sum(h, k) = (sum(h, kk) + 1) % m = ((-1 * 1) % m + 1) % m = 0
    assert(sum(h, kk) == (-1 * 1int) % m);
    assert(sum(h, k) == (sum(h, kk) + 1) % m);
    lemma_add_mod_noop(-1, 1, m);
    lemma_small_mod(1, m as nat);
    lemma_small_mod(0, m as nat);
    assert(sum(h, k) == 0);
    lemma_sum_scale(invs, g, big_b, k);
    lemma_sum_bound(invs, k);
    if sum(invs, k) != 0 {
        lemma_small_mod(sum(invs, k) as nat, m as nat);
        lemma_nonzero_product(big_b, sum(invs, k));
        assert(false);
    }
}

/// One term of the vanishing sum: the whole product at the last point times the inverse of an
/// old point's new denominator is minus that point's weight at the last point.
proof fn lemma_vanish_term(xs: Seq<int>, i: int, k: nat)
    requires
        k >= 2,
        0 <= i < k - 1,
        distinct(xs, k),
    ensures
        (pe(xs, (k - 1) as int, xs[k - 1], k) * iv(pe(xs, i, xs[i], k))) % modulus() == (-1 * ell(
            xs,
            i,
            xs[k - 1],
            (k - 1) as nat,
        )) % modulus(),
{
    let m = modulus();
    let kk = (k - 1) as nat;
    let c = xs[kk as int];
    let big_b = pe(xs, kk as int, c, k);
    assert(big_b == pe(xs, kk as int, c, kk));
    lemma_pe_full(xs, kk as int, c, kk);
    let d = pe(xs, i, xs[i], kk);
    let u = (xs[i] - c) % m;
    let u2 = (c - xs[i]) % m;
    let p = pe(xs, i, c, kk);
    lemma_pe_split(xs, i, c, kk);
    assert((p * u2) % m == big_b);
    assert(pe(xs, i, xs[i], k) == (d * u) % m);
    lemma_iv_mul(d, u);
    let ivk = iv(pe(xs, i, xs[i], k));
    assert(ivk == (iv(d) * iv(u)) % m);
    // iv(u) = iv(xs[i] - c) = -iv(c - xs[i]) = -iv(u2)
    lemma_pow_mod_noop(xs[i] - c, (m - 2) as nat, m);
    lemma_pow_mod_noop(c - xs[i], (m - 2) as nat, m);
    assert(iv(u) == iv(xs[i] - c));
    assert(iv(u2) == iv(c - xs[i]));
    assert(xs[i] - c == -(c - xs[i]));
    lemma_iv_neg(c - xs[i]);
    assert(iv(u) == (-iv(u2)) % m);
    assert((c - xs[i]) % m != 0);
    lemma_cong_red(c - xs[i]);
    lemma_iv(u2);
    // B * ivk ≡ (p*u2) * (iv(d) * -iv(u2)) = -(p*iv(d)) * (u2*iv(u2)) ≡ -(p*iv(d))
    lemma_cong_red(p * u2);
    lemma_cong_red(iv(d) * iv(u));
    lemma_cong_red(-iv(u2));
    lemma_cong_mul(iv(d), iv(u), iv(d), -iv(u2));
    lemma_cong_mul(big_b, ivk, p * u2, iv(d) * -iv(u2));
    assert((p * u2) * (iv(d) * -iv(u2)) == (-1 * (p * iv(d))) * (u2 * iv(u2))) by (nonlinear_arith);
    lemma_small_mod(1, m as nat);
    lemma_cong_mul(-1 * (p * iv(d)), u2 * iv(u2), -1 * (p * iv(d)), 1);
    assert(ell(xs, i, c, kk) == (p * iv(d)) % m);
    lemma_cong_red(p * iv(d));
    lemma_cong_mul(-1, p * iv(d), -1, ell(xs, i, c, kk));
}

/// The quotient of the polynomial `cs` by `X - c`, lowest coefficient first.
pub open spec fn divide(cs: Seq<int>, c: int) -> Seq<int>
    decreases cs.len(),
{
    if cs.len() <= 1 {
        Seq::empty()
    } else {
        seq![horner(cs.drop_first(), c)] + divide(cs.drop_first(), c)
    }
}

proof fn lemma_horner_bound(cs: Seq<int>, x: int)
    ensures
        0 <= horner(cs, x) < modulus(),
    decreases cs.len(),
{
    assert(P as int == modulus());
    if cs.len() > 0 {
        lemma_mod_bound(horner(cs.drop_first(), x) * x + cs[0], modulus());
    }
}

/// Dividing by `X - c` leaves the value at `c`: `f(x) = f(c) + (x - c) q(x)`.
proof fn lemma_divide(cs: Seq<int>, c: int, x: int)
    ensures
        divide(cs, c).len() == if cs.len() == 0 { 0 } else { cs.len() - 1 },
        horner(cs, x) % modulus() == (horner(cs, c) + (x - c) * horner(divide(cs, c), x)) % modulus(),
    decreases cs.len(),
{
    let m = modulus();
    assert(P as int == m);
    if cs.len() == 0 {
        assert(divide(cs, c) =~= Seq::<int>::empty());
    } else if cs.len() == 1 {
        assert(cs.drop_first() =~= Seq::<int>::empty());
        assert(horner(cs.drop_first(), x) == 0);
        assert(horner(cs.drop_first(), c) == 0);
        assert(divide(cs, c) =~= Seq::<int>::empty());
        assert(horner(divide(cs, c), x) == 0);
        assert(horner(cs, x) == (0 * x + cs[0]) % m);
        assert(horner(cs, c) == (0 * c + cs[0]) % m);
        lemma_cong_red(cs[0]);
    } else {
        let t = cs.drop_first();
        lemma_divide(t, c, x);
        let g = divide(cs, c);
        assert(g.drop_first() =~= divide(t, c));
        let h = horner(t, c);
        let gg = horner(divide(t, c), x);
        let f = horner(t, x);
        assert(horner(g, x) == (gg * x + h) % m);
        assert(horner(cs, x) == (f * x + cs[0]) % m);
        assert(horner(cs, c) == (h * c + cs[0]) % m);
        // f ≡ h + (x - c) gg
        lemma_cong_red(f * x + cs[0]);
        lemma_cong_mul(f, x, h + (x - c) * gg, x);
        lemma_cong_add(f * x, cs[0], (h + (x - c) * gg) * x, cs[0]);
        // right side
        lemma_cong_red(h * c + cs[0]);
        lemma_cong_red(gg * x + h);
        lemma_cong_mul(x - c, horner(g, x), x - c, gg * x + h);
        lemma_cong_add(horner(cs, c), (x - c) * horner(g, x), h * c + cs[0], (x - c) * (gg * x + h));
        assert((h + (x - c) * gg) * x + cs[0] == (h * c + cs[0]) + (x - c) * (gg * x + h)) by (nonlinear_arith);
    }
}

/// Multiplying an old point's weight among `k` points by its distance to the new point gives
/// its weight among `k - 1` points times the distance from `z` to the new point.
proof fn lemma_ell_shift(xs: Seq<int>, i: int, z: int, k: nat)
    requires
        k >= 2,
        0 <= i < k - 1,
        distinct(xs, k),
    ensures
        ((xs[i] - xs[k - 1]) * ell(xs, i, z, k)) % modulus() == ((z - xs[k - 1]) * ell(xs, i, z, (k - 1) as nat))
            % modulus(),
{
    let m = modulus();
    let kk = (k - 1) as nat;
    let c = xs[kk as int];
    let a = pe(xs, i, z, kk);
    let fz = (z - c) % m;
    let d = pe(xs, i, xs[i], kk);
    let u = (xs[i] - c) % m;
    let b = iv(d);
    let v = iv(u);
    assert(pe(xs, i, z, k) == (a * fz) % m);
    assert(pe(xs, i, xs[i], k) == (d * u) % m);
    lemma_iv_mul(d, u);
    assert((xs[i] - c) % m != 0);
    lemma_cong_red(xs[i] - c);
    lemma_iv(u);
    lemma_cong_red(a * fz);
    lemma_cong_red(b * v);
    lemma_cong_red(z - c);
    let e = ell(xs, i, z, k);
    assert(e == ((a * fz) % m * ((b * v) % m)) % m);
    lemma_cong_mul(a * fz, b * v, (a * fz) % m, (b * v) % m);
    lemma_cong_red(e);
    // (xs[i] - c) * e ≡ (xs[i] - c) * (a * fz * (b * v))
    lemma_cong_mul(xs[i] - c, e, xs[i] - c, (a * fz) * (b * v));
    assert((xs[i] - c) * ((a * fz) * (b * v)) == ((a * b) * fz) * ((xs[i] - c) * v)) by (nonlinear_arith);
    // (xs[i] - c) * v ≡ u * v ≡ 1
    lemma_cong_mul(xs[i] - c, v, u, v);
    lemma_small_mod(1, m as nat);
    lemma_cong_mul((a * b) * fz, (xs[i] - c) * v, (a * b) * fz, 1);
    // (a * b) * fz ≡ ell_K * (z - c)
    assert(ell(xs, i, z, kk) == (a * b) % m);
    lemma_cong_red(a * b);
    lemma_cong_mul(a * b, fz, ell(xs, i, z, kk), z - c);
    assert(ell(xs, i, z, kk) * (z - c) == (z - c) * ell(xs, i, z, kk)) by (nonlinear_arith);
}

/// Lagrange interpolation: the values of a polynomial with fewer than `k + 1` coefficients at
/// `k` distinct points, weighted by `ell`, add up to its value at `z`.
pub proof fn lemma_interpolate(xs: Seq<int>, cs: Seq<int>, z: int, k: nat)
    requires
        distinct(xs, k),
        cs.len() <= k,
    ensures
        sum(|i: int| (horner(cs, xs[i]) * ell(xs, i, z, k)) % modulus(), k) == horner(cs, z),
    decreases k,
{
    let m = modulus();
    assert(P as int == m);
    if k == 0 {
        assert(cs =~= Seq::<int>::empty());
    } else {
        let kk = (k - 1) as nat;
        let c = xs[kk as int];
        let g = divide(cs, c);
        lemma_divide(cs, c, z);
        assert(distinct(xs, kk));
        lemma_interpolate(xs, g, z, kk);
        lemma_unity(xs, z, k);
        let fc = horner(cs, c);
        let term = |i: int| (horner(cs, xs[i]) * ell(xs, i, z, k)) % m;
        let a = |i: int| fc * ell(xs, i, z, k);
        let ells = |i: int| ell(xs, i, z, k);
        let gk = |i: int| (horner(g, xs[i]) * ell(xs, i, z, kk)) % m;
        let b = |i: int| if i < kk { (z - c) * gk(i) } else { 0 };
        let bb = |i: int| if i < kk { gk(i) } else { 0 };
        assert forall|i: int| 0 <= i < k implies #[trigger] term(i) % m == (a(i) + b(i)) % m by {
            lemma_divide(cs, c, xs[i]);
            let fx = horner(cs, xs[i]);
            let gx = horner(g, xs[i]);
            let e = ell(xs, i, z, k);
            // fx ≡ fc + (xs[i] - c) * gx
            lemma_cong_red(fx * e);
            lemma_cong_mul(fx, e, fc + (xs[i] - c) * gx, e);
            assert((fc + (xs[i] - c) * gx) * e == fc * e + gx * ((xs[i] - c) * e)) by (nonlinear_arith);
            if i < kk {
                lemma_ell_shift(xs, i, z, k);
                lemma_cong_mul(gx, (xs[i] - c) * e, gx, (z - c) * ell(xs, i, z, kk));
                lemma_cong_add(fc * e, gx * ((xs[i] - c) * e), fc * e, gx * ((z - c) * ell(xs, i, z, kk)));
                assert(gx * ((z - c) * ell(xs, i, z, kk)) == (z - c) * (gx * ell(xs, i, z, kk))) by (nonlinear_arith);
                lemma_cong_red(gx * ell(xs, i, z, kk));
                lemma_cong_mul(z - c, gx * ell(xs, i, z, kk), z - c, gk(i));
                lemma_cong_add(fc * e, (z - c) * (gx * ell(xs, i, z, kk)), fc * e, (z - c) * gk(i));
            } else {
                assert(xs[i] - c == 0);
                assert(gx * ((xs[i] - c) * e) == 0) by (nonlinear_arith)
                    requires
                        xs[i] - c == 0,
                ;
            }
        }
        lemma_sum_add(a, b, term, k);
        lemma_sum_scale(ells, a, fc, k);
        assert(sum(a, k) == (fc * 1) % m);
        assert forall|i: int| 0 <= i < k implies #[trigger] b(i) % m == ((z - c) * bb(i)) % m by {}
        lemma_sum_scale(bb, b, z - c, k);
        lemma_sum_ext(bb, gk, kk);
        lemma_sum_bound(bb, kk);
        lemma_small_mod(sum(bb, kk) as nat, m as nat);
        assert(sum(bb, k) == sum(bb, kk));
        assert(sum(bb, k) == horner(g, z));
        // sum = (fc + (z - c) * g(z)) % m = f(z)
        lemma_horner_bound(cs, c);
        lemma_small_mod(fc as nat, m as nat);
        lemma_cong_red(fc);
        lemma_cong_red((z - c) * horner(g, z));
        lemma_cong_add(fc * 1, (z - c) * horner(g, z), fc, (z - c) * horner(g, z));
        lemma_add_mod_noop(fc * 1, (z - c) * horner(g, z), m);
        lemma_horner_bound(cs, z);
        lemma_small_mod(horner(cs, z) as nat, m as nat);
    }
}

} // verus!
