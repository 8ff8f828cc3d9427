//! Shamir secret sharing over the prime field of order 2^61 - 1.
//!
//! A secret is the constant term of a polynomial whose other coefficients are drawn from a
//! seed; share `x` is the polynomial's value at `x`. Any `threshold` shares with distinct
//! indices interpolate back to the constant term, Lagrange at zero.
use vstd::prelude::*;
use vstd::arithmetic::div_mod::{
    lemma_mul_mod_noop_left, lemma_mul_mod_noop_right, lemma_add_mod_noop, lemma_mod_twice,
    lemma_small_mod,
};
use vstd::arithmetic::power::{
    lemma_pow_adds, lemma_pow_multiplies, lemma_pow_mod_noop, lemma_square_is_pow2, lemma_pow0,
    lemma_pow1,
};
use crate::codec::{blake3_xof, blake3_xof_bytes, le_u64, push_all, push_u64_le, u64_le};
use crate::lagrange::{distinct, ell, lemma_interpolate, pe, sum};
use crate::prime::modulus;

verus! {

/// The Mersenne prime 2^61 - 1: reduction is cheap and products of two reduced values fit in
/// a `u128`.
pub const P: u128 = 2305843009213693951;

/// `base` to the power `exp`, as a mathematical integer.
pub open spec fn power(base: int, exp: nat) -> int {
    vstd::arithmetic::power::pow(base, exp)
}

/// `(a + b) mod P`.
pub fn add(a: u128, b: u128) -> (r: u128)
    requires
        a + b <= u128::MAX,
    ensures
        r == (a + b) % (P as int),
{
    (a + b) % P
}

/// `(a - b) mod P`, written as the code computes it: `(a + P - b mod P) mod P`.
pub fn sub(a: u128, b: u128) -> (r: u128)
    requires
        a + P <= u128::MAX,
    ensures
        r == (a + P - b % P) % (P as int),
{
    (a + P - b % P) % P
}

/// `(a * b) mod P`.
pub fn mul(a: u128, b: u128) -> (r: u128)
    ensures
        r == (a * b) % (P as int),
{
    let x = a % P;
    let y = b % P;
    assert(x * y <= (P - 1) * (P - 1)) by (nonlinear_arith)
        requires
            x < P,
            y < P,
    ;
    proof {
        lemma_mul_mod_noop_left(a as int, b as int, P as int);
        lemma_mul_mod_noop_right(x as int, b as int, P as int);
    }
    x * y % P
}

proof fn lemma_pow_step(acc: int, base: int, e: nat)
    ensures
        ((acc * power(base, e % 2)) % (P as int) * power((base * base) % (P as int), e / 2)) % (
        P as int) == (acc * power(base, e)) % (P as int),
{
    let m = P as int;
    let h = e / 2;
    let r = e % 2;
    lemma_pow_adds(base, 2 * h, r);
    assert(2 * h + r == e);
    lemma_pow_multiplies(base, 2, h);
    lemma_square_is_pow2(base);
    lemma_pow_mod_noop(base * base, h, m);
    let a = acc * power(base, r);
    let b = power((base * base) % m, h);
    let c = power(base * base, h);
    lemma_mul_mod_noop_left(a, b, m);
    lemma_mul_mod_noop_right(a, b, m);
    lemma_mul_mod_noop_right(a, c, m);
    assert(a * c == acc * power(base, e)) by (nonlinear_arith)
        requires
            a == acc * power(base, r),
            c == power(base * base, h),
            power(base * base, h) == power(base, 2 * h),
            power(base, e) == power(base, 2 * h) * power(base, r),
    ;
}

/// `base` to the power `exp`, mod `P`, by square and multiply.
pub fn pow(base: u128, exp: u128) -> (r: u128)
    ensures
        r == power(base as int, exp as nat) % (P as int),
{
    let ghost b0 = base as int;
    let ghost e0 = exp as nat;
    let mut acc: u128 = 1;
    let mut base = base % P;
    let mut exp = exp;
    proof {
        lemma_pow_mod_noop(b0, e0, P as int);
    }
    while exp > 0
        invariant
            acc < P,
            base < P,
            (acc * power(base as int, exp as nat)) % (P as int) == power(b0, e0) % (P as int),
        decreases exp,
    {
        let odd = exp & 1 == 1;
        assert((exp & 1 == 1) == (exp % 2 == 1)) by (bit_vector);
        assert(exp >> 1 == exp / 2) by (bit_vector);
        let ghost a0 = acc as int;
        let ghost s0 = base as int;
        let ghost x0 = exp as nat;
        if odd {
            acc = self::mul(acc, base);
        }
        base = self::mul(base, base);
        exp = exp >> 1;
        proof {
            lemma_pow_step(a0, s0, x0);
            if !odd {
                lemma_pow0(s0);
                assert(a0 * power(s0, x0 % 2) == a0);
                lemma_small_mod(a0 as nat, P as nat);
            } else {
                lemma_pow1(s0);
            }
        }
    }
    proof {
        lemma_pow0(base as int);
        lemma_small_mod(acc as nat, P as nat);
    }
    acc
}

/// The inverse of `a` mod `P` by Fermat's little theorem: `a^(P-2)`.
pub fn inv(a: u128) -> (r: u128)
    ensures
        r == power(a as int, (P - 2) as nat) % (P as int),
        a % P != 0 ==> (a * r) % (P as int) == 1,
{
    let r = self::pow(a, P - 2);
    proof {
        assert(P as int == modulus());
        if a % P != 0 {
            crate::prime::law_every_nonzero_residue_has_its_inverse(a as int);
        }
    }
    r
}


/// One issuer's share: its one-based index and the polynomial's value there.
#[derive(Clone, Copy, Debug, PartialEq, Eq)]
pub struct Share {
    /// Issuer index, one-based. Zero is the secret itself and is never a valid share.
    pub index: u64,
    pub value: u128,
}

/// `karst.shamir.coeff`: hashed ahead of the seed and position of each coefficient.
pub open spec fn coeff_domain() -> Seq<u8> {
    seq![107u8, 97, 114, 115, 116, 46, 115, 104, 97, 109, 105, 114, 46, 99, 111, 101, 102, 102]
}

/// The integer whose 16 little-endian bytes are `b`.
pub open spec fn le_u128(b: Seq<u8>) -> int {
    le_u64(b.subrange(0, 8)) + le_u64(b.subrange(8, 16)) * 0x1_0000_0000_0000_0000
}

/// Coefficient `i` of the sharing polynomial: the secret itself at zero, otherwise drawn from
/// the seed through BLAKE3's extendable output.
pub open spec fn coeff(secret: u128, seed: u64, i: nat) -> int {
    if i == 0 {
        (secret % P) as int
    } else {
        le_u128(blake3_xof_bytes(coeff_domain() + u64_le(seed) + u64_le(i as u64), 16)) % (
        P as int)
    }
}

/// The first `threshold` coefficients.
pub open spec fn coeffs(secret: u128, threshold: nat, seed: u64) -> Seq<int> {
    Seq::new(threshold, |i: int| coeff(secret, seed, i as nat))
}

/// The polynomial with coefficients `cs`, lowest first, evaluated at `x` mod `P`, by Horner's
/// rule.
pub open spec fn horner(cs: Seq<int>, x: int) -> int
    decreases cs.len(),
{
    if cs.len() == 0 {
        0
    } else {
        (horner(cs.drop_first(), x) * x + cs[0]) % (P as int)
    }
}

/// The 16 bytes of `b` read as a little-endian integer.
fn le_u128_of(b: &Vec<u8>) -> (v: u128)
    requires
        b@.len() == 16,
    ensures
        v == le_u128(b@),
{
    let lo = (b[0] as u64) | ((b[1] as u64) << 8) | ((b[2] as u64) << 16) | ((b[3] as u64)
        << 24) | ((b[4] as u64) << 32) | ((b[5] as u64) << 40) | ((b[6] as u64) << 48) | ((
    b[7] as u64) << 56);
    let hi = (b[8] as u64) | ((b[9] as u64) << 8) | ((b[10] as u64) << 16) | ((b[11] as u64)
        << 24) | ((b[12] as u64) << 32) | ((b[13] as u64) << 40) | ((b[14] as u64) << 48) | ((
    b[15] as u64) << 56);
    assert(lo == le_u64(b@.subrange(0, 8)));
    assert(hi == le_u64(b@.subrange(8, 16)));
    (lo as u128) + (hi as u128) * 0x1_0000_0000_0000_0000
}

/// The polynomial with coefficients `cs` evaluated at `x`.
fn eval_at(cs: &Vec<u128>, x: u64) -> (v: u128)
    requires
        forall|i: int| 0 <= i < cs@.len() ==> cs@[i] < P,
    ensures
        v == horner(cs@.map_values(|c: u128| c as int), x as int),
        v < P,
{
    let ghost ci = cs@.map_values(|c: u128| c as int);
    let mut acc: u128 = 0;
    let mut j: usize = cs.len();
    assert(ci.skip(j as int) =~= Seq::<int>::empty());
    while j > 0
        invariant
            j <= cs@.len(),
            ci == cs@.map_values(|c: u128| c as int),
            forall|i: int| 0 <= i < cs@.len() ==> cs@[i] < P,
            acc == horner(ci.skip(j as int), x as int),
            acc < P,
        decreases j,
    {
        j = j - 1;
        let m = self::mul(acc, x as u128);
        let ghost prev = acc as int;
        acc = self::add(m, cs[j]);
        proof {
            assert(ci.skip(j as int).drop_first() =~= ci.skip(j as int + 1));
            lemma_add_mod_noop(prev * x, cs@[j as int] as int, P as int);
            lemma_small_mod(cs@[j as int] as nat, P as nat);
            lemma_mod_twice(prev * x, P as int);
        }
    }
    assert(ci.skip(0) =~= ci);
    acc
}

/// Split `secret` so that any `threshold` of `count` shares reconstruct it. Share `x`, for
/// `x` from 1 to `count`, is the value at `x` of the polynomial whose constant term is the
/// secret and whose other coefficients are drawn from `seed`.
pub fn split(secret: u128, threshold: usize, count: usize, seed: u64) -> (r: Vec<Share>)
    requires
        1 <= threshold <= count,
        count <= u64::MAX,
    ensures
        r@.len() == count,
        forall|i: int|
            0 <= i < count ==> (#[trigger] r@[i]).index == i + 1 && r@[i].value == horner(
                coeffs(secret, threshold as nat, seed),
                i + 1,
            ),
{
    let domain: [u8; 18] = [
        107, 97, 114, 115, 116, 46, 115, 104, 97, 109, 105, 114, 46, 99, 111, 101, 102, 102,
    ];
    assert(domain@ =~= coeff_domain());
    let mut cs: Vec<u128> = Vec::new();
    cs.push(secret % P);
    let mut i: usize = 1;
    while i < threshold
        invariant
            1 <= i <= threshold,
            domain@ == coeff_domain(),
            cs@.len() == i,
            forall|k: int| 0 <= k < i ==> cs@[k] < P && cs@[k] as int == coeff(secret, seed, k as nat),
        decreases threshold - i,
    {
        let mut input: Vec<u8> = Vec::new();
        push_all(&mut input, &domain);
        push_u64_le(&mut input, seed);
        push_u64_le(&mut input, i as u64);
        let b = blake3_xof(input.as_slice(), 16);
        let v = le_u128_of(&b);
        cs.push(v % P);
        i = i + 1;
    }
    let ghost ci = cs@.map_values(|c: u128| c as int);
    assert(ci =~= coeffs(secret, threshold as nat, seed));
    let mut out: Vec<Share> = Vec::new();
    let mut k: usize = 0;
    while k < count
        invariant
            k <= count,
            count <= u64::MAX,
            ci == cs@.map_values(|c: u128| c as int),
            ci == coeffs(secret, threshold as nat, seed),
            forall|j: int| 0 <= j < cs@.len() ==> cs@[j] < P,
            out@.len() == k,
            forall|j: int|
                0 <= j < k ==> (#[trigger] out@[j]).index == j + 1 && out@[j].value == horner(
                    ci,
                    j + 1,
                ),
        decreases count - k,
    {
        let x = k as u64 + 1;
        let v = eval_at(&cs, x);
        out.push(Share { index: x, value: v });
        k = k + 1;
    }
    out
}

/// `(a - b) mod P` as the code computes it.
pub open spec fn fsub(a: int, b: int) -> int {
    (a + P - b % (P as int)) % (P as int)
}

/// The Lagrange numerator for share `i` over the first `n` shares: the product of `0 - x_j`.
pub open spec fn num_prefix(s: Seq<Share>, i: int, n: nat) -> int
    decreases n,
{
    if n == 0 {
        1
    } else if n - 1 == i {
        num_prefix(s, i, (n - 1) as nat)
    } else {
        (num_prefix(s, i, (n - 1) as nat) * fsub(0, s[n - 1].index as int)) % (P as int)
    }
}

/// The Lagrange denominator for share `i` over the first `n` shares: the product of
/// `x_i - x_j`.
pub open spec fn den_prefix(s: Seq<Share>, i: int, n: nat) -> int
    decreases n,
{
    if n == 0 {
        1
    } else if n - 1 == i {
        den_prefix(s, i, (n - 1) as nat)
    } else {
        (den_prefix(s, i, (n - 1) as nat) * fsub(s[i].index as int, s[n - 1].index as int)) % (
        P as int)
    }
}

/// Share `i`'s contribution to the secret: its value times its Lagrange coefficient at zero.
pub open spec fn lagrange_term(s: Seq<Share>, i: int) -> int {
    let num = num_prefix(s, i, s.len());
    let den = den_prefix(s, i, s.len());
    (s[i].value * ((num * (power(den, (P - 2) as nat) % (P as int))) % (P as int))) % (P as int)
}

/// The contributions of the first `n` shares, added up mod `P`.
pub open spec fn sum_prefix(s: Seq<Share>, n: nat) -> int
    decreases n,
{
    if n == 0 {
        0
    } else {
        (sum_prefix(s, (n - 1) as nat) + lagrange_term(s, n - 1)) % (P as int)
    }
}

/// Two shares carry the same index.
pub open spec fn has_duplicate_index(s: Seq<Share>) -> bool {
    exists|i: int, j: int| 0 <= i < j < s.len() && s[i].index == s[j].index
}

/// What the shares interpolate to at zero.
pub open spec fn combine_spec(s: Seq<Share>) -> int {
    sum_prefix(s, s.len())
}

/// Reconstruct the secret from shares by Lagrange interpolation at zero. Refuses no shares,
/// and two shares with the same index, which would make the interpolation singular.
pub fn combine(shares: &[Share]) -> (r: Option<u128>)
    ensures
        r is None <==> (shares@.len() == 0 || has_duplicate_index(shares@)),
        r matches Some(v) ==> v == combine_spec(shares@),
{
    let n = shares.len();
    if n == 0 {
        return None;
    }
    let mut i: usize = 0;
    while i < n
        invariant
            n == shares@.len(),
            i <= n,
            forall|a: int, b: int| 0 <= a < i && a < b < n ==> shares@[a].index != shares@[b].index,
        decreases n - i,
    {
        let mut j: usize = i + 1;
        while j < n
            invariant
                n == shares@.len(),
                i < n,
                i < j <= n,
                forall|a: int, b: int|
                    0 <= a < i && a < b < n ==> shares@[a].index != shares@[b].index,
                forall|b: int| i < b < j ==> shares@[i as int].index != shares@[b].index,
            decreases n - j,
        {
            if shares[i].index == shares[j].index {
                return None;
            }
            j = j + 1;
        }
        i = i + 1;
    }
    let mut secret: u128 = 0;
    let mut i: usize = 0;
    while i < n
        invariant
            n == shares@.len(),
            i <= n,
            secret < P,
            secret == sum_prefix(shares@, i as nat),
        decreases n - i,
    {
        let mut num: u128 = 1;
        let mut den: u128 = 1;
        let mut j: usize = 0;
        while j < n
            invariant
                n == shares@.len(),
                i < n,
                j <= n,
                num == num_prefix(shares@, i as int, j as nat),
                den == den_prefix(shares@, i as int, j as nat),
                num < P,
                den < P,
            decreases n - j,
        {
            if i != j {
                let xj = shares[j].index as u128;
                let xi = shares[i].index as u128;
                num = self::mul(num, self::sub(0, xj));
                den = self::mul(den, self::sub(xi, xj));
            }
            j = j + 1;
        }
        let t = self::mul(shares[i].value, self::mul(num, self::inv(den)));
        secret = self::add(secret, t);
        i = i + 1;
    }
    Some(secret)
}


/// A single-issuer split is just the secret: with a threshold of one every share holds the
/// secret reduced mod `P`, and each share on its own reconstructs it.
pub proof fn law_a_single_issuer_split_is_just_the_secret(secret: u128, seed: u64, x: u64)
    ensures
        horner(coeffs(secret, 1, seed), x as int) == secret % P,
        combine_spec(seq![Share { index: x, value: secret % P }]) == secret % P,
{
    let cs = coeffs(secret, 1, seed);
    assert(cs.drop_first() =~= Seq::<int>::empty());
    assert(horner(cs.drop_first(), x as int) == 0);
    assert(cs[0] == (secret % P) as int);
    lemma_small_mod((secret % P) as nat, P as nat);
    assert(horner(cs, x as int) == (0 * x + cs[0]) % (P as int));
    let s = seq![Share { index: x, value: secret % P }];
    vstd::arithmetic::power::lemma1_pow((P - 2) as nat);
    lemma_small_mod(1, P as nat);
    assert(num_prefix(s, 0, 0) == 1);
    assert(den_prefix(s, 0, 0) == 1);
    assert(num_prefix(s, 0, 1) == 1);
    assert(den_prefix(s, 0, 1) == 1);
    assert(sum_prefix(s, 0) == 0);
    assert(power(1, (P - 2) as nat) == 1);
    assert((1 * (power(1, (P - 2) as nat) % (P as int))) % (P as int) == 1);
    assert(lagrange_term(s, 0) == ((secret % P) * 1) % (P as int));
    assert(sum_prefix(s, 1) == (0 + lagrange_term(s, 0)) % (P as int));
}

/// `fsub` is subtraction modulo `P`.
proof fn lemma_fsub(a: int, b: int)
    ensures
        fsub(a, b) == (a - b) % (P as int),
{
    let m = P as int;
    vstd::arithmetic::div_mod::lemma_fundamental_div_mod(b, m);
    let q = b / m;
    assert(a + P - b % m == m * (q + 1) + (a - b)) by (nonlinear_arith)
        requires
            b == m * q + b % m,
            m == P as int,
    ;
    vstd::arithmetic::div_mod::lemma_mod_multiples_vanish(q + 1, a - b, m);
}

/// The indices of a list of shares, as points.
pub open spec fn points(s: Seq<Share>) -> Seq<int> {
    s.map_values(|sh: Share| sh.index as int)
}

proof fn lemma_num_den(s: Seq<Share>, i: int, n: nat)
    requires
        n <= s.len(),
    ensures
        num_prefix(s, i, n) == pe(points(s), i, 0, n),
        0 <= i < s.len() ==> den_prefix(s, i, n) == pe(points(s), i, points(s)[i], n),
    decreases n,
{
    if n > 0 {
        lemma_num_den(s, i, (n - 1) as nat);
        lemma_fsub(0, s[n - 1].index as int);
        if 0 <= i < s.len() {
            lemma_fsub(s[i].index as int, s[n - 1].index as int);
        }
    }
}

proof fn lemma_combine_is_interpolation(s: Seq<Share>, n: nat)
    requires
        n <= s.len(),
    ensures
        sum_prefix(s, n) == sum(|i: int| (s[i].value * ell(points(s), i, 0, s.len())) % modulus(), n),
    decreases n,
{
    assert(P as int == modulus());
    if n > 0 {
        lemma_combine_is_interpolation(s, (n - 1) as nat);
        let i = n - 1;
        lemma_num_den(s, i, s.len());
        assert(lagrange_term(s, i) == (s[i].value * ell(points(s), i, 0, s.len())) % modulus());
    }
}

/// Law: any `threshold` or more of the shares a split hands out, with distinct indices, in any
/// order, give back the secret, reduced mod `P`. This holds for every count of shares below `P`,
/// so that distinct indices are distinct points; the threshold is what makes the polynomial fit.
pub proof fn law_any_threshold_subset_reconstructs(secret: u128, t: nat, n: nat, seed: u64, s: Seq<Share>)
    requires
        1 <= t <= n,
        n < P,
        s.len() >= t,
        forall|i: int, j: int| 0 <= i < j < s.len() ==> #[trigger] s[i].index != #[trigger] s[j].index,
        forall|i: int|
            0 <= i < s.len() ==> 1 <= (#[trigger] s[i]).index <= n && s[i].value == horner(
                coeffs(secret, t, seed),
                s[i].index as int,
            ),
    ensures
        combine_spec(s) == secret % P,
{
    let m = modulus();
    assert(P as int == m);
    let xs = points(s);
    let k = s.len();
    let cs = coeffs(secret, t, seed);
    assert(distinct(xs, k)) by {
        assert forall|i: int, j: int| 0 <= i < k && 0 <= j < k && i != j implies #[trigger] ((xs[i] - xs[j]) % m) != 0 by {
            let d = xs[i] - xs[j];
            assert(d != 0) by {
                if i < j {
                    assert(s[i].index != s[j].index);
                } else {
                    assert(s[j].index != s[i].index);
                }
            }
            assert(-m < d < m);
            if d > 0 {
                lemma_small_mod(d as nat, m as nat);
            } else {
                vstd::arithmetic::div_mod::lemma_mod_add_multiples_vanish(d, m);
                lemma_small_mod((m + d) as nat, m as nat);
            }
        }
    }
    lemma_interpolate(xs, cs, 0, k);
    lemma_combine_is_interpolation(s, k);
    vstd::arithmetic::div_mod::lemma_mod_bound(secret as int, m);
    assert forall|i: int| 0 <= i < k implies #[trigger] ((s[i].value * ell(xs, i, 0, k)) % m) == (horner(cs, xs[i]) * ell(xs, i, 0, k)) % m by {
        assert(s[i].value == horner(cs, xs[i]));
    }
    crate::lagrange::lemma_sum_ext(
        |i: int| (s[i].value * ell(xs, i, 0, k)) % m,
        |i: int| (horner(cs, xs[i]) * ell(xs, i, 0, k)) % m,
        k,
    );
    assert(cs.drop_first().len() < t);
    let h = horner(cs.drop_first(), 0);
    assert(horner(cs, 0) == (h * 0 + cs[0]) % m);
    assert(h * 0 == 0);
    assert(cs[0] == (secret % P) as int);
    lemma_small_mod((secret % P) as nat, m as nat);
}

} // verus!
