//! The shares of a secret live in the integers modulo 2^61 - 1, and every nonzero residue there
//! has an inverse: the one Fermat's little theorem gives. That is shown here from a Lucas
//! certificate: 37 has order 2^61 - 2 modulo 2^61 - 1, so its powers are every nonzero
//! residue, and each of them raised to 2^61 - 2 is one.
use vstd::prelude::*;
use vstd::arithmetic::div_mod::{
    lemma_fundamental_div_mod, lemma_mod_bound, lemma_mod_multiples_basic, lemma_mul_mod_noop,
    lemma_mul_mod_noop_left, lemma_mul_mod_noop_right, lemma_small_mod,
};
use vstd::arithmetic::power::{
    lemma1_pow, lemma_pow0, lemma_pow1, lemma_pow_adds, lemma_pow_mod_noop, lemma_pow_multiplies,
    lemma_square_is_pow2, pow,
};
use vstd::set_lib::{lemma_int_range, lemma_map_size, lemma_subset_equality, set_int_range};

verus! {

/// The modulus, 2^61 - 1.
pub open spec fn modulus() -> int {
    2305843009213693951
}

/// `acc` times `base` to the power `e`, mod `m`, by squaring.
#[verifier::opaque]
pub open spec fn mexp(acc: int, base: int, e: nat, m: int) -> int
    decreases e,
{
    if e == 0 {
        acc
    } else {
        mexp(
            if e % 2 == 1 {
                (acc * base) % m
            } else {
                acc
            },
            (base * base) % m,
            e / 2,
            m,
        )
    }
}

proof fn lemma_square_step(acc: int, base: int, e: nat, m: int)
    requires
        m > 0,
    ensures
        ((acc * pow(base, e % 2)) % m * pow((base * base) % m, e / 2)) % m == (acc * pow(base, e)) % m,
{
    let h = e / 2;
    let r = e % 2;
    lemma_pow_adds(base, 2 * h, r);
    assert(2 * h + r == e);
    lemma_pow_multiplies(base, 2, h);
    lemma_square_is_pow2(base);
    lemma_pow_mod_noop(base * base, h, m);
    let a = acc * pow(base, r);
    let b = pow((base * base) % m, h);
    let c = pow(base * base, h);
    lemma_mul_mod_noop_left(a, b, m);
    lemma_mul_mod_noop_right(a, b, m);
    lemma_mul_mod_noop_right(a, c, m);
    assert(a * c == acc * pow(base, e)) by (nonlinear_arith)
        requires
            a == acc * pow(base, r),
            c == pow(base * base, h),
            pow(base * base, h) == pow(base, 2 * h),
            pow(base, e) == pow(base, 2 * h) * pow(base, r),
    ;
}

/// Squaring computes the power.
proof fn lemma_mexp(acc: int, base: int, e: nat, m: int)
    requires
        m > 1,
        0 <= acc < m,
    ensures
        mexp(acc, base, e, m) == (acc * pow(base, e)) % m,
    decreases e,
{
    reveal_with_fuel(mexp, 1);
    if e == 0 {
        lemma_pow0(base);
        lemma_small_mod(acc as nat, m as nat);
    } else {
        let acc2 = if e % 2 == 1 {
            (acc * base) % m
        } else {
            acc
        };
        lemma_square_step(acc, base, e, m);
        if e % 2 == 1 {
            lemma_pow1(base);
        } else {
            lemma_pow0(base);
            lemma_small_mod(acc as nat, m as nat);
        }
        assert(acc2 == (acc * pow(base, e % 2)) % m);
        lemma_mod_bound(acc * pow(base, e % 2), m);
        lemma_mexp(acc2, (base * base) % m, e / 2, m);
    }
}

/// One squaring step, on given values.
proof fn lemma_mexp_step(acc: int, base: int, e: nat, m: int, acc2: int, base2: int, e2: nat)
    requires
        e > 0,
        acc2 == (if e % 2 == 1 {
            (acc * base) % m
        } else {
            acc
        }),
        base2 == (base * base) % m,
        e2 == e / 2,
    ensures
        mexp(acc, base, e, m) == mexp(acc2, base2, e2, m),
{
    reveal_with_fuel(mexp, 1);
}

/// No squaring is left to do.
proof fn lemma_mexp_done(acc: int, base: int, m: int)
    ensures
        mexp(acc, base, 0, m) == acc,
{
    reveal_with_fuel(mexp, 1);
}

/// The prime factors of 2^61 - 2, with multiplicity.
pub open spec fn factors() -> Seq<int> {
    seq![2, 3, 3, 5, 5, 7, 11, 13, 31, 41, 61, 151, 331, 1321]
}

pub open spec fn product(s: Seq<int>) -> int
    decreases s.len(),
{
    if s.len() == 0 {
        1
    } else {
        s[0] * product(s.drop_first())
    }
}

/// `q` has no divisor strictly between one and itself.
pub open spec fn is_prime(q: int) -> bool {
    q > 1 && forall|d: int| 1 < d < q ==> #[trigger] (q % d) != 0
}

/// Euclid: a prime dividing `r * c` with `0 < r < q` divides `c`.
proof fn lemma_euclid(q: int, r: int, c: int)
    requires
        is_prime(q),
        0 < r < q,
        (r * c) % q == 0,
    ensures
        c % q == 0,
    decreases r,
{
    if r == 1 {
        assert(r * c == c) by (nonlinear_arith)
            requires
                r == 1,
        ;
    } else {
        let s = q / r;
        let t = q % r;
        lemma_fundamental_div_mod(q, r);
        lemma_mod_bound(q, r);
        assert(q % r != 0);
        let m = (r * c) / q;
        lemma_fundamental_div_mod(r * c, q);
        assert(r * c == q * m);
        assert(t * c == q * (c - s * m)) by (nonlinear_arith)
            requires
                q == r * s + t,
                r * c == q * m,
        ;
        lemma_mod_multiples_basic(c - s * m, q);
        assert((t * c) % q == 0);
        lemma_euclid(q, t, c);
    }
}

proof fn lemma_euclid_mul(q: int, k: int, c: int)
    requires
        is_prime(q),
        k % q != 0,
        (k * c) % q == 0,
    ensures
        c % q == 0,
{
    lemma_mul_mod_noop_left(k, c, q);
    lemma_mod_bound(k, q);
    lemma_euclid(q, k % q, c);
}

/// Each listed factor is below 1322 and has no divisor from 2 to 36 other than itself.
proof fn lemma_small_divisors(q: int, d: int)
    requires
        q == 2 || q == 3 || q == 5 || q == 7 || q == 11 || q == 13 || q == 31 || q == 41 || q == 61
            || q == 151 || q == 331 || q == 1321,
        2 <= d <= 36,
        d < q,
    ensures
        q % d != 0,
{
    if q == 2 {
    } else if q == 3 {
        if d == 2 {
            assert(3int % 2int == 1int);
        }
    } else if q == 5 {
        if d == 2 {
            assert(5int % 2int == 1int);
        } else if d == 3 {
            assert(5int % 3int == 2int);
        } else if d == 4 {
            assert(5int % 4int == 1int);
        }
    } else if q == 7 {
        if d == 2 {
            assert(7int % 2int == 1int);
        } else if d == 3 {
            assert(7int % 3int == 1int);
        } else if d == 4 {
            assert(7int % 4int == 3int);
        } else if d == 5 {
            assert(7int % 5int == 2int);
        } else if d == 6 {
            assert(7int % 6int == 1int);
        }
    } else if q == 11 {
        if d == 2 {
            assert(11int % 2int == 1int);
        } else if d == 3 {
            assert(11int % 3int == 2int);
        } else if d == 4 {
            assert(11int % 4int == 3int);
        } else if d == 5 {
            assert(11int % 5int == 1int);
        } else if d == 6 {
            assert(11int % 6int == 5int);
        } else if d == 7 {
            assert(11int % 7int == 4int);
        } else if d == 8 {
            assert(11int % 8int == 3int);
        } else if d == 9 {
            assert(11int % 9int == 2int);
        } else if d == 10 {
            assert(11int % 10int == 1int);
        }
    } else if q == 13 {
        if d == 2 {
            assert(13int % 2int == 1int);
        } else if d == 3 {
            assert(13int % 3int == 1int);
        } else if d == 4 {
            assert(13int % 4int == 1int);
        } else if d == 5 {
            assert(13int % 5int == 3int);
        } else if d == 6 {
            assert(13int % 6int == 1int);
        } else if d == 7 {
            assert(13int % 7int == 6int);
        } else if d == 8 {
            assert(13int % 8int == 5int);
        } else if d == 9 {
            assert(13int % 9int == 4int);
        } else if d == 10 {
            assert(13int % 10int == 3int);
        } else if d == 11 {
            assert(13int % 11int == 2int);
        } else if d == 12 {
            assert(13int % 12int == 1int);
        }
    } else if q == 31 {
        if d == 2 {
            assert(31int % 2int == 1int);
        } else if d == 3 {
            assert(31int % 3int == 1int);
        } else if d == 4 {
            assert(31int % 4int == 3int);
        } else if d == 5 {
            assert(31int % 5int == 1int);
        } else if d == 6 {
            assert(31int % 6int == 1int);
        } else if d == 7 {
            assert(31int % 7int == 3int);
        } else if d == 8 {
            assert(31int % 8int == 7int);
        } else if d == 9 {
            assert(31int % 9int == 4int);
        } else if d == 10 {
            assert(31int % 10int == 1int);
        } else if d == 11 {
            assert(31int % 11int == 9int);
        } else if d == 12 {
            assert(31int % 12int == 7int);
        } else if d == 13 {
            assert(31int % 13int == 5int);
        } else if d == 14 {
            assert(31int % 14int == 3int);
        } else if d == 15 {
            assert(31int % 15int == 1int);
        } else if d == 16 {
            assert(31int % 16int == 15int);
        } else if d == 17 {
            assert(31int % 17int == 14int);
        } else if d == 18 {
            assert(31int % 18int == 13int);
        } else if d == 19 {
            assert(31int % 19int == 12int);
        } else if d == 20 {
            assert(31int % 20int == 11int);
        } else if d == 21 {
            assert(31int % 21int == 10int);
        } else if d == 22 {
            assert(31int % 22int == 9int);
        } else if d == 23 {
            assert(31int % 23int == 8int);
        } else if d == 24 {
            assert(31int % 24int == 7int);
        } else if d == 25 {
            assert(31int % 25int == 6int);
        } else if d == 26 {
            assert(31int % 26int == 5int);
        } else if d == 27 {
            assert(31int % 27int == 4int);
        } else if d == 28 {
            assert(31int % 28int == 3int);
        } else if d == 29 {
            assert(31int % 29int == 2int);
        } else if d == 30 {
            assert(31int % 30int == 1int);
        }
    } else if q == 41 {
        if d == 2 {
            assert(41int % 2int == 1int);
        } else if d == 3 {
            assert(41int % 3int == 2int);
        } else if d == 4 {
            assert(41int % 4int == 1int);
        } else if d == 5 {
            assert(41int % 5int == 1int);
        } else if d == 6 {
            assert(41int % 6int == 5int);
        } else if d == 7 {
            assert(41int % 7int == 6int);
        } else if d == 8 {
            assert(41int % 8int == 1int);
        } else if d == 9 {
            assert(41int % 9int == 5int);
        } else if d == 10 {
            assert(41int % 10int == 1int);
        } else if d == 11 {
            assert(41int % 11int == 8int);
        } else if d == 12 {
            assert(41int % 12int == 5int);
        } else if d == 13 {
            assert(41int % 13int == 2int);
        } else if d == 14 {
            assert(41int % 14int == 13int);
        } else if d == 15 {
            assert(41int % 15int == 11int);
        } else if d == 16 {
            assert(41int % 16int == 9int);
        } else if d == 17 {
            assert(41int % 17int == 7int);
        } else if d == 18 {
            assert(41int % 18int == 5int);
        } else if d == 19 {
            assert(41int % 19int == 3int);
        } else if d == 20 {
            assert(41int % 20int == 1int);
        } else if d == 21 {
            assert(41int % 21int == 20int);
        } else if d == 22 {
            assert(41int % 22int == 19int);
        } else if d == 23 {
            assert(41int % 23int == 18int);
        } else if d == 24 {
            assert(41int % 24int == 17int);
        } else if d == 25 {
            assert(41int % 25int == 16int);
        } else if d == 26 {
            assert(41int % 26int == 15int);
        } else if d == 27 {
            assert(41int % 27int == 14int);
        } else if d == 28 {
            assert(41int % 28int == 13int);
        } else if d == 29 {
            assert(41int % 29int == 12int);
        } else if d == 30 {
            assert(41int % 30int == 11int);
        } else if d == 31 {
            assert(41int % 31int == 10int);
        } else if d == 32 {
            assert(41int % 32int == 9int);
        } else if d == 33 {
            assert(41int % 33int == 8int);
        } else if d == 34 {
            assert(41int % 34int == 7int);
        } else if d == 35 {
            assert(41int % 35int == 6int);
        } else if d == 36 {
            assert(41int % 36int == 5int);
        }
    } else if q == 61 {
        if d == 2 {
            assert(61int % 2int == 1int);
        } else if d == 3 {
            assert(61int % 3int == 1int);
        } else if d == 4 {
            assert(61int % 4int == 1int);
        } else if d == 5 {
            assert(61int % 5int == 1int);
        } else if d == 6 {
            assert(61int % 6int == 1int);
        } else if d == 7 {
            assert(61int % 7int == 5int);
        } else if d == 8 {
            assert(61int % 8int == 5int);
        } else if d == 9 {
            assert(61int % 9int == 7int);
        } else if d == 10 {
            assert(61int % 10int == 1int);
        } else if d == 11 {
            assert(61int % 11int == 6int);
        } else if d == 12 {
            assert(61int % 12int == 1int);
        } else if d == 13 {
            assert(61int % 13int == 9int);
        } else if d == 14 {
            assert(61int % 14int == 5int);
        } else if d == 15 {
            assert(61int % 15int == 1int);
        } else if d == 16 {
            assert(61int % 16int == 13int);
        } else if d == 17 {
            assert(61int % 17int == 10int);
        } else if d == 18 {
            assert(61int % 18int == 7int);
        } else if d == 19 {
            assert(61int % 19int == 4int);
        } else if d == 20 {
            assert(61int % 20int == 1int);
        } else if d == 21 {
            assert(61int % 21int == 19int);
        } else if d == 22 {
            assert(61int % 22int == 17int);
        } else if d == 23 {
            assert(61int % 23int == 15int);
        } else if d == 24 {
            assert(61int % 24int == 13int);
        } else if d == 25 {
            assert(61int % 25int == 11int);
        } else if d == 26 {
            assert(61int % 26int == 9int);
        } else if d == 27 {
            assert(61int % 27int == 7int);
        } else if d == 28 {
            assert(61int % 28int == 5int);
        } else if d == 29 {
            assert(61int % 29int == 3int);
        } else if d == 30 {
            assert(61int % 30int == 1int);
        } else if d == 31 {
            assert(61int % 31int == 30int);
        } else if d == 32 {
            assert(61int % 32int == 29int);
        } else if d == 33 {
            assert(61int % 33int == 28int);
        } else if d == 34 {
            assert(61int % 34int == 27int);
        } else if d == 35 {
            assert(61int % 35int == 26int);
        } else if d == 36 {
            assert(61int % 36int == 25int);
        }
    } else if q == 151 {
        if d == 2 {
            assert(151int % 2int == 1int);
        } else if d == 3 {
            assert(151int % 3int == 1int);
        } else if d == 4 {
            assert(151int % 4int == 3int);
        } else if d == 5 {
            assert(151int % 5int == 1int);
        } else if d == 6 {
            assert(151int % 6int == 1int);
        } else if d == 7 {
            assert(151int % 7int == 4int);
        } else if d == 8 {
            assert(151int % 8int == 7int);
        } else if d == 9 {
            assert(151int % 9int == 7int);
        } else if d == 10 {
            assert(151int % 10int == 1int);
        } else if d == 11 {
            assert(151int % 11int == 8int);
        } else if d == 12 {
            assert(151int % 12int == 7int);
        } else if d == 13 {
            assert(151int % 13int == 8int);
        } else if d == 14 {
            assert(151int % 14int == 11int);
        } else if d == 15 {
            assert(151int % 15int == 1int);
        } else if d == 16 {
            assert(151int % 16int == 7int);
        } else if d == 17 {
            assert(151int % 17int == 15int);
        } else if d == 18 {
            assert(151int % 18int == 7int);
        } else if d == 19 {
            assert(151int % 19int == 18int);
        } else if d == 20 {
            assert(151int % 20int == 11int);
        } else if d == 21 {
            assert(151int % 21int == 4int);
        } else if d == 22 {
            assert(151int % 22int == 19int);
        } else if d == 23 {
            assert(151int % 23int == 13int);
        } else if d == 24 {
            assert(151int % 24int == 7int);
        } else if d == 25 {
            assert(151int % 25int == 1int);
        } else if d == 26 {
            assert(151int % 26int == 21int);
        } else if d == 27 {
            assert(151int % 27int == 16int);
        } else if d == 28 {
            assert(151int % 28int == 11int);
        } else if d == 29 {
            assert(151int % 29int == 6int);
        } else if d == 30 {
            assert(151int % 30int == 1int);
        } else if d == 31 {
            assert(151int % 31int == 27int);
        } else if d == 32 {
            assert(151int % 32int == 23int);
        } else if d == 33 {
            assert(151int % 33int == 19int);
        } else if d == 34 {
            assert(151int % 34int == 15int);
        } else if d == 35 {
            assert(151int % 35int == 11int);
        } else if d == 36 {
            assert(151int % 36int == 7int);
        }
    } else if q == 331 {
        if d == 2 {
            assert(331int % 2int == 1int);
        } else if d == 3 {
            assert(331int % 3int == 1int);
        } else if d == 4 {
            assert(331int % 4int == 3int);
        } else if d == 5 {
            assert(331int % 5int == 1int);
        } else if d == 6 {
            assert(331int % 6int == 1int);
        } else if d == 7 {
            assert(331int % 7int == 2int);
        } else if d == 8 {
            assert(331int % 8int == 3int);
        } else if d == 9 {
            assert(331int % 9int == 7int);
        } else if d == 10 {
            assert(331int % 10int == 1int);
        } else if d == 11 {
            assert(331int % 11int == 1int);
        } else if d == 12 {
            assert(331int % 12int == 7int);
        } else if d == 13 {
            assert(331int % 13int == 6int);
        } else if d == 14 {
            assert(331int % 14int == 9int);
        } else if d == 15 {
            assert(331int % 15int == 1int);
        } else if d == 16 {
            assert(331int % 16int == 11int);
        } else if d == 17 {
            assert(331int % 17int == 8int);
        } else if d == 18 {
            assert(331int % 18int == 7int);
        } else if d == 19 {
            assert(331int % 19int == 8int);
        } else if d == 20 {
            assert(331int % 20int == 11int);
        } else if d == 21 {
            assert(331int % 21int == 16int);
        } else if d == 22 {
            assert(331int % 22int == 1int);
        } else if d == 23 {
            assert(331int % 23int == 9int);
        } else if d == 24 {
            assert(331int % 24int == 19int);
        } else if d == 25 {
            assert(331int % 25int == 6int);
        } else if d == 26 {
            assert(331int % 26int == 19int);
        } else if d == 27 {
            assert(331int % 27int == 7int);
        } else if d == 28 {
            assert(331int % 28int == 23int);
        } else if d == 29 {
            assert(331int % 29int == 12int);
        } else if d == 30 {
            assert(331int % 30int == 1int);
        } else if d == 31 {
            assert(331int % 31int == 21int);
        } else if d == 32 {
            assert(331int % 32int == 11int);
        } else if d == 33 {
            assert(331int % 33int == 1int);
        } else if d == 34 {
            assert(331int % 34int == 25int);
        } else if d == 35 {
            assert(331int % 35int == 16int);
        } else if d == 36 {
            assert(331int % 36int == 7int);
        }
    } else if q == 1321 {
        if d == 2 {
            assert(1321int % 2int == 1int);
        } else if d == 3 {
            assert(1321int % 3int == 1int);
        } else if d == 4 {
            assert(1321int % 4int == 1int);
        } else if d == 5 {
            assert(1321int % 5int == 1int);
        } else if d == 6 {
            assert(1321int % 6int == 1int);
        } else if d == 7 {
            assert(1321int % 7int == 5int);
        } else if d == 8 {
            assert(1321int % 8int == 1int);
        } else if d == 9 {
            assert(1321int % 9int == 7int);
        } else if d == 10 {
            assert(1321int % 10int == 1int);
        } else if d == 11 {
            assert(1321int % 11int == 1int);
        } else if d == 12 {
            assert(1321int % 12int == 1int);
        } else if d == 13 {
            assert(1321int % 13int == 8int);
        } else if d == 14 {
            assert(1321int % 14int == 5int);
        } else if d == 15 {
            assert(1321int % 15int == 1int);
        } else if d == 16 {
            assert(1321int % 16int == 9int);
        } else if d == 17 {
            assert(1321int % 17int == 12int);
        } else if d == 18 {
            assert(1321int % 18int == 7int);
        } else if d == 19 {
            assert(1321int % 19int == 10int);
        } else if d == 20 {
            assert(1321int % 20int == 1int);
        } else if d == 21 {
            assert(1321int % 21int == 19int);
        } else if d == 22 {
            assert(1321int % 22int == 1int);
        } else if d == 23 {
            assert(1321int % 23int == 10int);
        } else if d == 24 {
            assert(1321int % 24int == 1int);
        } else if d == 25 {
            assert(1321int % 25int == 21int);
        } else if d == 26 {
            assert(1321int % 26int == 21int);
        } else if d == 27 {
            assert(1321int % 27int == 25int);
        } else if d == 28 {
            assert(1321int % 28int == 5int);
        } else if d == 29 {
            assert(1321int % 29int == 16int);
        } else if d == 30 {
            assert(1321int % 30int == 1int);
        } else if d == 31 {
            assert(1321int % 31int == 19int);
        } else if d == 32 {
            assert(1321int % 32int == 9int);
        } else if d == 33 {
            assert(1321int % 33int == 1int);
        } else if d == 34 {
            assert(1321int % 34int == 29int);
        } else if d == 35 {
            assert(1321int % 35int == 26int);
        } else if d == 36 {
            assert(1321int % 36int == 25int);
        }
    }
}

proof fn lemma_factor_prime(q: int)
    requires
        q == 2 || q == 3 || q == 5 || q == 7 || q == 11 || q == 13 || q == 31 || q == 41 || q == 61
            || q == 151 || q == 331 || q == 1321,
    ensures
        is_prime(q),
{
    assert forall|d: int| 1 < d < q implies #[trigger] (q % d) != 0 by {
        if d <= 36 {
            lemma_small_divisors(q, d);
        } else if q % d == 0 {
            let e = q / d;
            lemma_fundamental_div_mod(q, d);
            assert(q == d * e);
            assert(2 <= e <= 36) by (nonlinear_arith)
                requires
                    q == d * e,
                    37 <= d < q,
                    q <= 1321,
            ;
            lemma_mod_multiples_basic(d, e);
            assert(q == d * e);
            assert((d * e) % e == 0);
            lemma_small_divisors(q, e);
        }
    }
}

proof fn lemma_factors_prime()
    ensures
        forall|i: int| 0 <= i < factors().len() ==> is_prime(#[trigger] factors()[i]),
{
    assert forall|i: int| 0 <= i < factors().len() implies is_prime(#[trigger] factors()[i]) by {
        lemma_factor_prime(factors()[i]);
    }
}

proof fn lemma_product_positive(fs: Seq<int>)
    requires
        forall|i: int| 0 <= i < fs.len() ==> #[trigger] fs[i] > 1,
    ensures
        product(fs) >= 1,
    decreases fs.len(),
{
    if fs.len() > 0 {
        let rest = fs.drop_first();
        assert forall|i: int| 0 <= i < rest.len() implies #[trigger] rest[i] > 1 by {
            assert(rest[i] == fs[i + 1]);
        }
        lemma_product_positive(rest);
        assert(fs[0] * product(rest) >= 1) by (nonlinear_arith)
            requires
                fs[0] > 1,
                product(rest) >= 1,
        ;
    }
}

/// A divisor of a product of primes that none of them divides is one.
proof fn lemma_strip(fs: Seq<int>, k: int)
    requires
        k >= 1,
        product(fs) % k == 0,
        forall|i: int| 0 <= i < fs.len() ==> is_prime(#[trigger] fs[i]) && k % fs[i] != 0,
    ensures
        k == 1,
    decreases fs.len(),
{
    if fs.len() == 0 {
        if k > 1 {
            lemma_small_mod(1, k as nat);
        }
    } else {
        let f = fs[0];
        let rest = fs.drop_first();
        let r = product(rest);
        assert(product(fs) == f * r);
        let c = (f * r) / k;
        lemma_fundamental_div_mod(f * r, k);
        assert(f * r == k * c);
        lemma_mod_multiples_basic(r, f);
        assert((r * f) % f == 0);
        assert(k * c == r * f) by (nonlinear_arith)
            requires
                f * r == k * c,
        ;
        assert(is_prime(f));
        assert(k % f != 0);
        lemma_euclid_mul(f, k, c);
        let c2 = c / f;
        lemma_fundamental_div_mod(c, f);
        assert(c == f * c2);
        assert(r == k * c2) by (nonlinear_arith)
            requires
                f * r == k * c,
                c == f * c2,
                f > 1,
        ;
        lemma_mod_multiples_basic(c2, k);
        assert((c2 * k) % k == 0);
        assert(r % k == 0) by {
            assert(c2 * k == r) by (nonlinear_arith)
                requires
                    r == k * c2,
            ;
        }
        assert forall|i: int| 0 <= i < rest.len() implies is_prime(#[trigger] rest[i]) && k % rest[i] != 0 by {
            assert(rest[i] == fs[i + 1]);
        }
        lemma_strip(rest, k);
    }
}

/// 37 to the power 2^61 - 2 is one, and to that exponent divided by any of its prime factors is
/// not.
proof fn lemma_certificate(i: int)
    requires
        0 <= i < 14,
    ensures
        pow(37, (modulus() - 1) as nat) % modulus() == 1,
        pow(37, ((modulus() - 1) / factors()[i]) as nat) % modulus() != 1,
{
    lemma_mexp(1, 37, (modulus() - 1) as nat, modulus());
    lemma_mexp(1, 37, ((modulus() - 1) / factors()[i]) as nat, modulus());
    lemma_full_power();
    if i == 0 {
        assert(factors()[0] == 2);
        assert((modulus() - 1) / 2 == 1152921504606846975);
        lemma_cert_2();
    } else if i == 1 {
        assert(factors()[1] == 3);
        assert((modulus() - 1) / 3 == 768614336404564650);
        lemma_cert_3();
    } else if i == 2 {
        assert(factors()[2] == 3);
        assert((modulus() - 1) / 3 == 768614336404564650);
        lemma_cert_3();
    } else if i == 3 {
        assert(factors()[3] == 5);
        assert((modulus() - 1) / 5 == 461168601842738790);
        lemma_cert_5();
    } else if i == 4 {
        assert(factors()[4] == 5);
        assert((modulus() - 1) / 5 == 461168601842738790);
        lemma_cert_5();
    } else if i == 5 {
        assert(factors()[5] == 7);
        assert((modulus() - 1) / 7 == 329406144173384850);
        lemma_cert_7();
    } else if i == 6 {
        assert(factors()[6] == 11);
        assert((modulus() - 1) / 11 == 209622091746699450);
        lemma_cert_11();
    } else if i == 7 {
        assert(factors()[7] == 13);
        assert((modulus() - 1) / 13 == 177372539170284150);
        lemma_cert_13();
    } else if i == 8 {
        assert(factors()[8] == 31);
        assert((modulus() - 1) / 31 == 74382032555280450);
        lemma_cert_31();
    } else if i == 9 {
        assert(factors()[9] == 41);
        assert((modulus() - 1) / 41 == 56240073395455950);
        lemma_cert_41();
    } else if i == 10 {
        assert(factors()[10] == 61);
        assert((modulus() - 1) / 61 == 37800705069076950);
        lemma_cert_61();
    } else if i == 11 {
        assert(factors()[11] == 151);
        assert((modulus() - 1) / 151 == 15270483504726450);
        lemma_cert_151();
    } else if i == 12 {
        assert(factors()[12] == 331);
        assert((modulus() - 1) / 331 == 6966293079195450);
        lemma_cert_331();
    } else if i == 13 {
        assert(factors()[13] == 1321);
        assert((modulus() - 1) / 1321 == 1745528394559950);
        lemma_cert_1321();
    }
}

proof fn lemma_full_power()
    ensures
        mexp(1, 37, (modulus() - 1) as nat, modulus()) == 1,
{
    lemma_mexp_step(1, 37, 2305843009213693950, 2305843009213693951, 1, 1369, 1152921504606846975);
    lemma_mexp_step(1, 1369, 1152921504606846975, 2305843009213693951, 1369, 1874161, 576460752303423487);
    lemma_mexp_step(1369, 1874161, 576460752303423487, 2305843009213693951, 2565726409, 3512479453921, 288230376151711743);
    lemma_mexp_step(2565726409, 3512479453921, 288230376151711743, 2305843009213693951, 826815987892339181, 2048012909902302799, 144115188075855871);
    lemma_mexp_step(826815987892339181, 2048012909902302799, 144115188075855871, 2305843009213693951, 402778895455182525, 307828676072022436, 72057594037927935);
    lemma_mexp_step(402778895455182525, 307828676072022436, 72057594037927935, 2305843009213693951, 494625628984157828, 1530484379699738889, 36028797018963967);
    lemma_mexp_step(494625628984157828, 1530484379699738889, 36028797018963967, 2305843009213693951, 1331839259318856813, 1671968728696755707, 18014398509481983);
    lemma_mexp_step(1331839259318856813, 1671968728696755707, 18014398509481983, 2305843009213693951, 1558476626656031890, 649718369440752735, 9007199254740991);
    lemma_mexp_step(1558476626656031890, 649718369440752735, 9007199254740991, 2305843009213693951, 1549265469538204418, 1874702330417107273, 4503599627370495);
    lemma_mexp_step(1549265469538204418, 1874702330417107273, 4503599627370495, 2305843009213693951, 2162679627971461758, 5986862548113618, 2251799813685247);
    lemma_mexp_step(2162679627971461758, 5986862548113618, 2251799813685247, 2305843009213693951, 146181933895270542, 1820568710247692212, 1125899906842623);
    lemma_mexp_step(146181933895270542, 1820568710247692212, 1125899906842623, 2305843009213693951, 1280383653602432052, 404534779322076428, 562949953421311);
    lemma_mexp_step(1280383653602432052, 404534779322076428, 562949953421311, 2305843009213693951, 1718487481277847155, 649492471404925175, 281474976710655);
    lemma_mexp_step(1718487481277847155, 649492471404925175, 281474976710655, 2305843009213693951, 588638499900072055, 1106896147619454396, 140737488355327);
    lemma_mexp_step(588638499900072055, 1106896147619454396, 140737488355327, 2305843009213693951, 208391841392942170, 1669740733653474757, 70368744177663);
    lemma_mexp_step(208391841392942170, 1669740733653474757, 70368744177663, 2305843009213693951, 152515368071080937, 1267668060077347163, 35184372088831);
    lemma_mexp_step(152515368071080937, 1267668060077347163, 35184372088831, 2305843009213693951, 2155288217072033190, 1416360387298873781, 17592186044415);
    lemma_mexp_step(2155288217072033190, 1416360387298873781, 17592186044415, 2305843009213693951, 794460576466359998, 1564471842796986341, 8796093022207);
    lemma_mexp_step(794460576466359998, 1564471842796986341, 8796093022207, 2305843009213693951, 724797475747227351, 735250336065844589, 4398046511103);
    lemma_mexp_step(724797475747227351, 735250336065844589, 4398046511103, 2305843009213693951, 652921838251185575, 1488752000173493138, 2199023255551);
    lemma_mexp_step(652921838251185575, 1488752000173493138, 2199023255551, 2305843009213693951, 742068081681864210, 1320279768446765050, 1099511627775);
    lemma_mexp_step(742068081681864210, 1320279768446765050, 1099511627775, 2305843009213693951, 666585808950332814, 1747983813596511721, 549755813887);
    lemma_mexp_step(666585808950332814, 1747983813596511721, 549755813887, 2305843009213693951, 1180762468442821560, 67869839423255989, 274877906943);
    lemma_mexp_step(1180762468442821560, 67869839423255989, 274877906943, 2305843009213693951, 565830704986682533, 2164827040180914092, 137438953471);
    lemma_mexp_step(565830704986682533, 2164827040180914092, 137438953471, 2305843009213693951, 412249612943649628, 1744025871715016688, 68719476735);
    lemma_mexp_step(412249612943649628, 1744025871715016688, 68719476735, 2305843009213693951, 2166097415507956791, 73251981582425893, 34359738367);
    lemma_mexp_step(2166097415507956791, 73251981582425893, 34359738367, 2305843009213693951, 390966364361498179, 277374673314010419, 17179869183);
    lemma_mexp_step(390966364361498179, 277374673314010419, 17179869183, 2305843009213693951, 72493925214921715, 92934223038987942, 8589934591);
    lemma_mexp_step(72493925214921715, 92934223038987942, 8589934591, 2305843009213693951, 571440403349648785, 621132062226937276, 4294967295);
    lemma_mexp_step(571440403349648785, 621132062226937276, 4294967295, 2305843009213693951, 1846425465361805404, 552523982103027780, 2147483647);
    lemma_mexp_step(1846425465361805404, 552523982103027780, 2147483647, 2305843009213693951, 151227346123014362, 1810209022387899939, 1073741823);
    lemma_mexp_step(151227346123014362, 1810209022387899939, 1073741823, 2305843009213693951, 281690927124487729, 559096694736811184, 536870911);
    lemma_mexp_step(281690927124487729, 559096694736811184, 536870911, 2305843009213693951, 1341243337946430419, 711094314562858615, 268435455);
    lemma_mexp_step(1341243337946430419, 711094314562858615, 268435455, 2305843009213693951, 1570977453208266869, 1622448854954581329, 134217727);
    lemma_mexp_step(1570977453208266869, 1622448854954581329, 134217727, 2305843009213693951, 1255437616595228619, 841055254665985916, 67108863);
    lemma_mexp_step(1255437616595228619, 841055254665985916, 67108863, 2305843009213693951, 1071741499967791974, 697959595997859570, 33554431);
    lemma_mexp_step(1071741499967791974, 697959595997859570, 33554431, 2305843009213693951, 228705248501882429, 1808678955228361916, 16777215);
    lemma_mexp_step(228705248501882429, 1808678955228361916, 16777215, 2305843009213693951, 2049532545779054094, 1904955967673210270, 8388607);
    lemma_mexp_step(2049532545779054094, 1904955967673210270, 8388607, 2305843009213693951, 260720661589347564, 1826762296907946662, 4194303);
    lemma_mexp_step(260720661589347564, 1826762296907946662, 4194303, 2305843009213693951, 1475759043159771944, 395654014531890260, 2097151);
    lemma_mexp_step(1475759043159771944, 395654014531890260, 2097151, 2305843009213693951, 1245585892804418001, 1189103440328413580, 1048575);
    lemma_mexp_step(1245585892804418001, 1189103440328413580, 1048575, 2305843009213693951, 112549680581412311, 1894874107849652993, 524287);
    lemma_mexp_step(112549680581412311, 1894874107849652993, 524287, 2305843009213693951, 1822662205703971310, 302423639519868408, 262143);
    lemma_mexp_step(1822662205703971310, 302423639519868408, 262143, 2305843009213693951, 273235290159633500, 512544735919841438, 131071);
    lemma_mexp_step(273235290159633500, 512544735919841438, 131071, 2305843009213693951, 2131399742756913710, 994841178892020975, 65535);
    lemma_mexp_step(2131399742756913710, 994841178892020975, 65535, 2305843009213693951, 1535419154706109660, 1365841398988935179, 32767);
    lemma_mexp_step(1535419154706109660, 1365841398988935179, 32767, 2305843009213693951, 1309736547623153985, 1389315537057605538, 16383);
    lemma_mexp_step(1309736547623153985, 1389315537057605538, 16383, 2305843009213693951, 1284640436418541372, 1620384436148347606, 8191);
    lemma_mexp_step(1284640436418541372, 1620384436148347606, 8191, 2305843009213693951, 1720600371330404097, 1236195944141684822, 4095);
    lemma_mexp_step(1720600371330404097, 1236195944141684822, 4095, 2305843009213693951, 151313146109982526, 1927669204547316455, 2047);
    lemma_mexp_step(151313146109982526, 1927669204547316455, 2047, 2305843009213693951, 1884075919588208633, 1367449615347781359, 1023);
    lemma_mexp_step(1884075919588208633, 1367449615347781359, 1023, 2305843009213693951, 1119766008106076412, 1879906979325824564, 511);
    lemma_mexp_step(1119766008106076412, 1879906979325824564, 511, 2305843009213693951, 397979660456682274, 655204990766260670, 255);
    lemma_mexp_step(397979660456682274, 655204990766260670, 255, 2305843009213693951, 1107053542953062238, 617443249345278015, 127);
    lemma_mexp_step(1107053542953062238, 617443249345278015, 127, 2305843009213693951, 1883145229697208690, 93335154568859392, 63);
    lemma_mexp_step(1883145229697208690, 93335154568859392, 63, 2305843009213693951, 2250021936305220258, 1979613501565108617, 31);
    lemma_mexp_step(2250021936305220258, 1979613501565108617, 31, 2305843009213693951, 513456471930930812, 1945635272481320524, 15);
    lemma_mexp_step(513456471930930812, 1945635272481320524, 15, 2305843009213693951, 697553356688720513, 331539492389086583, 7);
    lemma_mexp_step(697553356688720513, 331539492389086583, 7, 2305843009213693951, 2067650758863943121, 1344516579535654772, 3);
    lemma_mexp_step(2067650758863943121, 1344516579535654772, 3, 2305843009213693951, 124640162660199673, 2305843009213693914, 1);
    lemma_mexp_step(124640162660199673, 2305843009213693914, 1, 2305843009213693951, 1, 1369, 0);
    lemma_mexp_done(1, 1369, 2305843009213693951);
}

/// Modular products regroup.
proof fn lemma_mod_mul3(a: int, b: int, c: int, m: int)
    requires
        m > 0,
    ensures
        ((a * b) % m * c) % m == (a * (b * c)) % m,
        ((a % m) * (b % m)) % m == (a * b) % m,
{
    lemma_mul_mod_noop_left(a * b, c, m);
    assert((a * b) * c == a * (b * c)) by (nonlinear_arith);
    lemma_mul_mod_noop(a, b, m);
}

/// The least positive exponent below `d` that takes 37 to one, if `d` does.
proof fn lemma_min_order(d: int) -> (d0: int)
    requires
        0 < d,
        pow(37, d as nat) % modulus() == 1,
    ensures
        0 < d0 <= d,
        pow(37, d0 as nat) % modulus() == 1,
        forall|e: int| 0 < e < d0 ==> #[trigger] pow(37, e as nat) % modulus() != 1,
    decreases d,
{
    if exists|e: int| 0 < e < d && #[trigger] pow(37, e as nat) % modulus() == 1 {
        let e = choose|e: int| 0 < e < d && #[trigger] pow(37, e as nat) % modulus() == 1;
        lemma_min_order(e)
    } else {
        d
    }
}

/// `pow(x, k)` of something one mod the modulus is one mod the modulus.
proof fn lemma_pow_of_one(x: int, k: nat)
    requires
        x % modulus() == 1,
    ensures
        pow(x, k) % modulus() == 1,
{
    lemma_pow_mod_noop(x, k, modulus());
    lemma1_pow(k);
    lemma_small_mod(1, modulus() as nat);
}

/// 37 has order exactly 2^61 - 2: no smaller positive power is one.
proof fn lemma_order(d: int)
    requires
        0 < d < modulus() - 1,
    ensures
        pow(37, d as nat) % modulus() != 1,
{
    let m = modulus();
    let n = m - 1;
    lemma_certificate(0);
    if pow(37, d as nat) % m == 1 {
        let d0 = lemma_min_order(d);
        let k = n / d0;
        let r = n % d0;
        lemma_fundamental_div_mod(n, d0);
        lemma_mod_bound(n, d0);
        assert(n == d0 * k + r);
        assert(d0 * k >= 0) by (nonlinear_arith)
            requires
                d0 > 0,
                n == d0 * k + r,
                0 <= r < d0,
                n > 0,
        ;
        lemma_pow_adds(37, (d0 * k) as nat, r as nat);
        lemma_pow_multiplies(37, d0 as nat, k as nat);
        lemma_pow_of_one(pow(37, d0 as nat), k as nat);
        let big = pow(37, (d0 * k) as nat);
        let small = pow(37, r as nat);
        assert(pow(37, n as nat) == big * small);
        lemma_mul_mod_noop_left(big, small, m);
        assert((big % m) * small == small);
        if r > 0 {
            assert(pow(37, r as nat) % m != 1);
            assert(false);
        }
        assert(n == d0 * k);
        assert(k >= 2) by (nonlinear_arith)
            requires
                n == d0 * k,
                0 < d0 <= d,
                d < n,
        ;
        if forall|i: int| 0 <= i < factors().len() ==> k % #[trigger] factors()[i] != 0 {
            lemma_factors_prime();
            lemma_certificate_product();
            lemma_mod_multiples_basic(d0, k);
            assert(n == d0 * k);
            assert((d0 * k) % k == 0);
            lemma_strip(factors(), k);
            assert(false);
        }
        let i = choose|i: int| 0 <= i < factors().len() && k % #[trigger] factors()[i] == 0;
        let f = factors()[i];
        let k2 = k / f;
        lemma_fundamental_div_mod(k, f);
        assert(k == f * k2);
        assert(n / f == d0 * k2) by (nonlinear_arith)
            requires
                n == d0 * k,
                k == f * k2,
                f >= 2,
        ;
        lemma_pow_multiplies(37, d0 as nat, k2 as nat);
        assert(d0 * k2 >= 0) by (nonlinear_arith)
            requires
                d0 > 0,
                k == f * k2,
                k >= 2,
                f >= 2,
        ;
        lemma_pow_of_one(pow(37, d0 as nat), k2 as nat);
        lemma_certificate(i);
        assert(false);
    }
}

proof fn lemma_certificate_product()
    ensures
        product(factors()) == modulus() - 1,
{
    assert(factors().skip(14) =~= Seq::<int>::empty());
    assert(product(factors().skip(14)) == 1);
    assert(factors().skip(13).drop_first() =~= factors().skip(14));
    assert(factors().skip(13).len() > 0 && factors().skip(13)[0] == 1321);
    assert(product(factors().skip(13)) == 1321);
    assert(factors().skip(12).drop_first() =~= factors().skip(13));
    assert(factors().skip(12).len() > 0 && factors().skip(12)[0] == 331);
    assert(product(factors().skip(12)) == 437251);
    assert(factors().skip(11).drop_first() =~= factors().skip(12));
    assert(factors().skip(11).len() > 0 && factors().skip(11)[0] == 151);
    assert(product(factors().skip(11)) == 66024901);
    assert(factors().skip(10).drop_first() =~= factors().skip(11));
    assert(factors().skip(10).len() > 0 && factors().skip(10)[0] == 61);
    assert(product(factors().skip(10)) == 4027518961);
    assert(factors().skip(9).drop_first() =~= factors().skip(10));
    assert(factors().skip(9).len() > 0 && factors().skip(9)[0] == 41);
    assert(product(factors().skip(9)) == 165128277401);
    assert(factors().skip(8).drop_first() =~= factors().skip(9));
    assert(factors().skip(8).len() > 0 && factors().skip(8)[0] == 31);
    assert(product(factors().skip(8)) == 5118976599431);
    assert(factors().skip(7).drop_first() =~= factors().skip(8));
    assert(factors().skip(7).len() > 0 && factors().skip(7)[0] == 13);
    assert(product(factors().skip(7)) == 66546695792603);
    assert(factors().skip(6).drop_first() =~= factors().skip(7));
    assert(factors().skip(6).len() > 0 && factors().skip(6)[0] == 11);
    assert(product(factors().skip(6)) == 732013653718633);
    assert(factors().skip(5).drop_first() =~= factors().skip(6));
    assert(factors().skip(5).len() > 0 && factors().skip(5)[0] == 7);
    assert(product(factors().skip(5)) == 5124095576030431);
    assert(factors().skip(4).drop_first() =~= factors().skip(5));
    assert(factors().skip(4).len() > 0 && factors().skip(4)[0] == 5);
    assert(product(factors().skip(4)) == 25620477880152155);
    assert(factors().skip(3).drop_first() =~= factors().skip(4));
    assert(factors().skip(3).len() > 0 && factors().skip(3)[0] == 5);
    assert(product(factors().skip(3)) == 128102389400760775);
    assert(factors().skip(2).drop_first() =~= factors().skip(3));
    assert(factors().skip(2).len() > 0 && factors().skip(2)[0] == 3);
    assert(product(factors().skip(2)) == 384307168202282325);
    assert(factors().skip(1).drop_first() =~= factors().skip(2));
    assert(factors().skip(1).len() > 0 && factors().skip(1)[0] == 3);
    assert(product(factors().skip(1)) == 1152921504606846975);
    assert(factors().skip(0).drop_first() =~= factors().skip(1));
    assert(factors().skip(0).len() > 0 && factors().skip(0)[0] == 2);
    assert(product(factors().skip(0)) == 2305843009213693950);
    assert(factors().skip(0) =~= factors());
}

/// The powers of 37 below 2^61 - 2 are nonzero and pairwise distinct mod the modulus.
proof fn lemma_powers(i: int, j: int)
    requires
        0 <= i < modulus() - 1,
        0 <= j < modulus() - 1,
    ensures
        pow(37, i as nat) % modulus() != 0,
        i != j ==> pow(37, i as nat) % modulus() != pow(37, j as nat) % modulus(),
{
    let m = modulus();
    let n = m - 1;
    lemma_certificate(0);
    let u = pow(37, i as nat);
    let v = pow(37, (n - i) as nat);
    lemma_pow_adds(37, i as nat, (n - i) as nat);
    assert(u * v == pow(37, n as nat));
    lemma_mul_mod_noop(u, v, m);
    assert(((u % m) * (v % m)) % m == 1);
    if u % m == 0 {
        assert(((u % m) * (v % m)) % m == 0);
    }
    if i < j {
        lemma_distinct(i, j);
    } else if j < i {
        lemma_distinct(j, i);
    }
}

proof fn lemma_distinct(i: int, j: int)
    requires
        0 <= i < j < modulus() - 1,
    ensures
        pow(37, i as nat) % modulus() != pow(37, j as nat) % modulus(),
{
    let m = modulus();
    let n = m - 1;
    lemma_certificate(0);
    let u = pow(37, i as nat);
    let v = pow(37, (n - i) as nat);
    let w = pow(37, (j - i) as nat);
    lemma_pow_adds(37, i as nat, (n - i) as nat);
    lemma_pow_adds(37, i as nat, (j - i) as nat);
    assert(u * v == pow(37, n as nat));
    assert(u * w == pow(37, j as nat));
    if u % m == (u * w) % m {
        // w = w * (u * v) = (u * w) * v = u * v = 1, all mod m
        lemma_mod_mul3(w, u, v, m);
        lemma_mod_mul3(u, w, v, m);
        lemma_mul_mod_noop_left(u * w, v, m);
        lemma_mul_mod_noop_left(u, v, m);
        lemma_mul_mod_noop_right(w, u * v, m);
        assert(w * (u * v) == (u * w) * v) by (nonlinear_arith);
        lemma_small_mod(1, m as nat);
        assert((w * (u * v)) % m == (w * 1) % m);
        lemma_order(j - i);
        assert(false);
    }
}

/// Every nonzero residue is a power of 37.
proof fn lemma_every_residue_a_power(x: int)
    requires
        0 < x < modulus(),
    ensures
        exists|i: int| 0 <= i < modulus() - 1 && #[trigger] (pow(37, i as nat) % modulus()) == x,
{
    let m = modulus();
    let n = m - 1;
    let range = set_int_range(0, n);
    let f = |i: int| pow(37, i as nat) % m;
    let image = range.map(f);
    lemma_int_range(0, n);
    lemma_int_range(1, m);
    assert(vstd::relations::injective_on(f, range)) by {
        assert forall|a: int, b: int| range.contains(a) && range.contains(b) && #[trigger] f(a) == #[trigger] f(b) implies a == b by {
            lemma_powers(a, b);
        }
    }
    lemma_map_size(range, image, f);
    let target = set_int_range(1, m);
    assert(image.subset_of(target)) by {
        assert forall|v: int| image.contains(v) implies target.contains(v) by {
            let a = choose|a: int| range.contains(a) && f(a) == v;
            lemma_powers(a, a);
            lemma_mod_bound(pow(37, a as nat), m);
        }
    }
    lemma_subset_equality(image, target);
    assert(target.contains(x));
    assert(image.contains(x));
    let a = choose|a: int| range.contains(a) && f(a) == x;
    assert(0 <= a < n && pow(37, a as nat) % m == x);
}

/// Fermat's little theorem for the modulus: every nonzero residue times itself to the power
/// 2^61 - 3 is one, so that power is its inverse.
pub proof fn law_every_nonzero_residue_has_its_inverse(a: int)
    requires
        a % modulus() != 0,
    ensures
        (a * (pow(a, (modulus() - 2) as nat) % modulus())) % modulus() == 1,
{
    let m = modulus();
    let n = m - 1;
    let x = a % m;
    lemma_mod_bound(a, m);
    lemma_every_residue_a_power(x);
    let i = choose|i: int| 0 <= i < n && #[trigger] (pow(37, i as nat) % m) == x;
    lemma_certificate(0);
    // x^n = (37^i)^n = (37^n)^i = 1
    lemma_pow_mod_noop(pow(37, i as nat), n as nat, m);
    lemma_pow_multiplies(37, i as nat, n as nat);
    lemma_pow_multiplies(37, n as nat, i as nat);
    assert(i * n == n * i) by (nonlinear_arith);
    lemma_pow_of_one(pow(37, n as nat), i as nat);
    assert(pow(x, n as nat) % m == 1);
    // a * a^(n-1) = a^n, and a^n = x^n mod m
    lemma_pow_adds(a, 1, (n - 1) as nat);
    lemma_pow1(a);
    lemma_pow_mod_noop(a, n as nat, m);
    lemma_mul_mod_noop_right(a, pow(a, (n - 1) as nat), m);
    assert(a * pow(a, (n - 1) as nat) == pow(a, n as nat));
}

proof fn lemma_cert_2_0()
    ensures
        mexp(1, 37, 1152921504606846975, 2305843009213693951) == mexp(1031382600202606767, 1267668060077347163, 17592186044415, 2305843009213693951),
{
    lemma_mexp_step(1, 37, 1152921504606846975, 2305843009213693951, 37, 1369, 576460752303423487);
    lemma_mexp_step(37, 1369, 576460752303423487, 2305843009213693951, 50653, 1874161, 288230376151711743);
    lemma_mexp_step(50653, 1874161, 288230376151711743, 2305843009213693951, 94931877133, 3512479453921, 144115188075855871);
    lemma_mexp_step(94931877133, 3512479453921, 144115188075855871, 2305843009213693951, 616232432238528334, 2048012909902302799, 72057594037927935);
    lemma_mexp_step(616232432238528334, 2048012909902302799, 72057594037927935, 2305843009213693951, 1067761076559589719, 307828676072022436, 36028797018963967);
    lemma_mexp_step(1067761076559589719, 307828676072022436, 36028797018963967, 2305843009213693951, 2160247207917981979, 1530484379699738889, 18014398509481983);
    lemma_mexp_step(2160247207917981979, 1530484379699738889, 18014398509481983, 2305843009213693951, 855349401310129110, 1671968728696755707, 9007199254740991);
    lemma_mexp_step(855349401310129110, 1671968728696755707, 9007199254740991, 2305843009213693951, 17559955930831155, 649718369440752735, 4503599627370495);
    lemma_mexp_step(17559955930831155, 649718369440752735, 4503599627370495, 2305843009213693951, 1982590151784908642, 1874702330417107273, 2251799813685247);
    lemma_mexp_step(1982590151784908642, 1874702330417107273, 2251799813685247, 2305843009213693951, 1620483921678490712, 5986862548113618, 1125899906842623);
    lemma_mexp_step(1620483921678490712, 5986862548113618, 1125899906842623, 2305843009213693951, 797045535697622152, 1820568710247692212, 562949953421311);
    lemma_mexp_step(797045535697622152, 1820568710247692212, 562949953421311, 2305843009213693951, 1257334999016106904, 404534779322076428, 281474976710655);
    lemma_mexp_step(1257334999016106904, 404534779322076428, 281474976710655, 2305843009213693951, 1326275558510608058, 649492471404925175, 140737488355327);
    lemma_mexp_step(1326275558510608058, 649492471404925175, 140737488355327, 2305843009213693951, 1027037413379420476, 1106896147619454396, 70368744177663);
    lemma_mexp_step(1027037413379420476, 1106896147619454396, 70368744177663, 2305843009213693951, 792969103897778437, 1669740733653474757, 35184372088831);
    lemma_mexp_step(792969103897778437, 1669740733653474757, 35184372088831, 2305843009213693951, 1031382600202606767, 1267668060077347163, 17592186044415);
}

proof fn lemma_cert_2_1()
    ensures
        mexp(1031382600202606767, 1267668060077347163, 17592186044415, 2305843009213693951) == mexp(1199192266751270169, 559096694736811184, 268435455, 2305843009213693951),
{
    lemma_mexp_step(1031382600202606767, 1267668060077347163, 17592186044415, 2305843009213693951, 1347001718399633696, 1416360387298873781, 8796093022207);
    lemma_mexp_step(1347001718399633696, 1416360387298873781, 8796093022207, 2305843009213693951, 1724925218690992514, 1564471842796986341, 4398046511103);
    lemma_mexp_step(1724925218690992514, 1564471842796986341, 4398046511103, 2305843009213693951, 1453233501296778526, 735250336065844589, 2199023255551);
    lemma_mexp_step(1453233501296778526, 735250336065844589, 2199023255551, 2305843009213693951, 1099677923156926765, 1488752000173493138, 1099511627775);
    lemma_mexp_step(1099677923156926765, 1488752000173493138, 1099511627775, 2305843009213693951, 2092245920878342309, 1320279768446765050, 549755813887);
    lemma_mexp_step(2092245920878342309, 1320279768446765050, 549755813887, 2305843009213693951, 1605244839025374608, 1747983813596511721, 274877906943);
    lemma_mexp_step(1605244839025374608, 1747983813596511721, 274877906943, 2305843009213693951, 2183037166537906602, 67869839423255989, 137438953471);
    lemma_mexp_step(2183037166537906602, 67869839423255989, 137438953471, 2305843009213693951, 183149001584008162, 2164827040180914092, 68719476735);
    lemma_mexp_step(183149001584008162, 2164827040180914092, 68719476735, 2305843009213693951, 1418177623632872530, 1744025871715016688, 34359738367);
    lemma_mexp_step(1418177623632872530, 1744025871715016688, 34359738367, 2305843009213693951, 1746942060528806933, 73251981582425893, 17179869183);
    lemma_mexp_step(1746942060528806933, 73251981582425893, 17179869183, 2305843009213693951, 630697426093268917, 277374673314010419, 8589934591);
    lemma_mexp_step(630697426093268917, 277374673314010419, 8589934591, 2305843009213693951, 376432223738409504, 92934223038987942, 4294967295);
    lemma_mexp_step(376432223738409504, 92934223038987942, 4294967295, 2305843009213693951, 390707841013759486, 621132062226937276, 2147483647);
    lemma_mexp_step(390707841013759486, 621132062226937276, 2147483647, 2305843009213693951, 1448294951189675369, 552523982103027780, 1073741823);
    lemma_mexp_step(1448294951189675369, 552523982103027780, 1073741823, 2305843009213693951, 983725788124143492, 1810209022387899939, 536870911);
    lemma_mexp_step(983725788124143492, 1810209022387899939, 536870911, 2305843009213693951, 1199192266751270169, 559096694736811184, 268435455);
}

proof fn lemma_cert_2_2()
    ensures
        mexp(1199192266751270169, 559096694736811184, 268435455, 2305843009213693951) == mexp(1414835963212151744, 1620384436148347606, 4095, 2305843009213693951),
{
    lemma_mexp_step(1199192266751270169, 559096694736811184, 268435455, 2305843009213693951, 1203300310530352532, 711094314562858615, 134217727);
    lemma_mexp_step(1203300310530352532, 711094314562858615, 134217727, 2305843009213693951, 480090538363525378, 1622448854954581329, 67108863);
    lemma_mexp_step(480090538363525378, 1622448854954581329, 67108863, 2305843009213693951, 334331629749579883, 841055254665985916, 33554431);
    lemma_mexp_step(334331629749579883, 841055254665985916, 33554431, 2305843009213693951, 455104342175505871, 697959595997859570, 16777215);
    lemma_mexp_step(455104342175505871, 697959595997859570, 16777215, 2305843009213693951, 1544565166928568020, 1808678955228361916, 8388607);
    lemma_mexp_step(1544565166928568020, 1808678955228361916, 8388607, 2305843009213693951, 2045727898986795046, 1904955967673210270, 4194303);
    lemma_mexp_step(2045727898986795046, 1904955967673210270, 4194303, 2305843009213693951, 423292441951084064, 1826762296907946662, 2097151);
    lemma_mexp_step(423292441951084064, 1826762296907946662, 2097151, 2305843009213693951, 1568695384996601055, 395654014531890260, 1048575);
    lemma_mexp_step(1568695384996601055, 395654014531890260, 1048575, 2305843009213693951, 2275660858703280968, 1189103440328413580, 524287);
    lemma_mexp_step(2275660858703280968, 1189103440328413580, 524287, 2305843009213693951, 1858495172298561556, 1894874107849652993, 262143);
    lemma_mexp_step(1858495172298561556, 1894874107849652993, 262143, 2305843009213693951, 569054343849813891, 302423639519868408, 131071);
    lemma_mexp_step(569054343849813891, 302423639519868408, 131071, 2305843009213693951, 886333699051663696, 512544735919841438, 65535);
    lemma_mexp_step(886333699051663696, 512544735919841438, 65535, 2305843009213693951, 463128168740212936, 994841178892020975, 32767);
    lemma_mexp_step(463128168740212936, 994841178892020975, 32767, 2305843009213693951, 1470276502997402596, 1365841398988935179, 16383);
    lemma_mexp_step(1470276502997402596, 1365841398988935179, 16383, 2305843009213693951, 37549068569124474, 1389315537057605538, 8191);
    lemma_mexp_step(37549068569124474, 1389315537057605538, 8191, 2305843009213693951, 1414835963212151744, 1620384436148347606, 4095);
}

proof fn lemma_cert_2_3()
    ensures
        mexp(1414835963212151744, 1620384436148347606, 4095, 2305843009213693951) == mexp(2305843009213693950, 2305843009213693914, 0, 2305843009213693951),
{
    lemma_mexp_step(1414835963212151744, 1620384436148347606, 4095, 2305843009213693951, 1404452490455214912, 1236195944141684822, 2047);
    lemma_mexp_step(1404452490455214912, 1236195944141684822, 2047, 2305843009213693951, 986900387641965560, 1927669204547316455, 1023);
    lemma_mexp_step(986900387641965560, 1927669204547316455, 1023, 2305843009213693951, 535518748352900891, 1367449615347781359, 511);
    lemma_mexp_step(535518748352900891, 1367449615347781359, 511, 2305843009213693951, 2232011143292030077, 1879906979325824564, 255);
    lemma_mexp_step(2232011143292030077, 1879906979325824564, 255, 2305843009213693951, 890189381615080432, 655204990766260670, 127);
    lemma_mexp_step(890189381615080432, 655204990766260670, 127, 2305843009213693951, 1761649932630505639, 617443249345278015, 63);
    lemma_mexp_step(1761649932630505639, 617443249345278015, 63, 2305843009213693951, 501083222385903000, 93335154568859392, 31);
    lemma_mexp_step(501083222385903000, 93335154568859392, 31, 2305843009213693951, 240463311600167310, 1979613501565108617, 15);
    lemma_mexp_step(240463311600167310, 1979613501565108617, 15, 2305843009213693951, 551145387734888436, 1945635272481320524, 7);
    lemma_mexp_step(551145387734888436, 1945635272481320524, 7, 2305843009213693951, 445201096132025520, 331539492389086583, 3);
    lemma_mexp_step(445201096132025520, 331539492389086583, 3, 2305843009213693951, 410258773913995094, 1344516579535654772, 1);
    lemma_mexp_step(410258773913995094, 1344516579535654772, 1, 2305843009213693951, 2305843009213693950, 2305843009213693914, 0);
}

proof fn lemma_cert_2()
    ensures
        mexp(1, 37, 1152921504606846975, 2305843009213693951) == 2305843009213693950,
{
    lemma_cert_2_0();
    lemma_cert_2_1();
    lemma_cert_2_2();
    lemma_cert_2_3();
    lemma_mexp_done(2305843009213693950, 2305843009213693914, 2305843009213693951);
}

proof fn lemma_cert_3_0()
    ensures
        mexp(1, 37, 768614336404564650, 2305843009213693951) == mexp(1020017986162963204, 1267668060077347163, 11728124029610, 2305843009213693951),
{
    lemma_mexp_step(1, 37, 768614336404564650, 2305843009213693951, 1, 1369, 384307168202282325);
    lemma_mexp_step(1, 1369, 384307168202282325, 2305843009213693951, 1369, 1874161, 192153584101141162);
    lemma_mexp_step(1369, 1874161, 192153584101141162, 2305843009213693951, 1369, 3512479453921, 96076792050570581);
    lemma_mexp_step(1369, 3512479453921, 96076792050570581, 2305843009213693951, 4808584372417849, 2048012909902302799, 48038396025285290);
    lemma_mexp_step(4808584372417849, 2048012909902302799, 48038396025285290, 2305843009213693951, 4808584372417849, 307828676072022436, 24019198012642645);
    lemma_mexp_step(4808584372417849, 307828676072022436, 24019198012642645, 2305843009213693951, 894912350165519413, 1530484379699738889, 12009599006321322);
    lemma_mexp_step(894912350165519413, 1530484379699738889, 12009599006321322, 2305843009213693951, 894912350165519413, 1671968728696755707, 6004799503160661);
    lemma_mexp_step(894912350165519413, 1671968728696755707, 6004799503160661, 2305843009213693951, 701131434997227562, 649718369440752735, 3002399751580330);
    lemma_mexp_step(701131434997227562, 649718369440752735, 3002399751580330, 2305843009213693951, 701131434997227562, 1874702330417107273, 1501199875790165);
    lemma_mexp_step(701131434997227562, 1874702330417107273, 1501199875790165, 2305843009213693951, 2036605303778127185, 5986862548113618, 750599937895082);
    lemma_mexp_step(2036605303778127185, 5986862548113618, 750599937895082, 2305843009213693951, 2036605303778127185, 1820568710247692212, 375299968947541);
    lemma_mexp_step(2036605303778127185, 1820568710247692212, 375299968947541, 2305843009213693951, 321343956040114611, 404534779322076428, 187649984473770);
    lemma_mexp_step(321343956040114611, 404534779322076428, 187649984473770, 2305843009213693951, 321343956040114611, 649492471404925175, 93824992236885);
    lemma_mexp_step(321343956040114611, 649492471404925175, 93824992236885, 2305843009213693951, 812136621146772022, 1106896147619454396, 46912496118442);
    lemma_mexp_step(812136621146772022, 1106896147619454396, 46912496118442, 2305843009213693951, 812136621146772022, 1669740733653474757, 23456248059221);
    lemma_mexp_step(812136621146772022, 1669740733653474757, 23456248059221, 2305843009213693951, 1020017986162963204, 1267668060077347163, 11728124029610);
}

proof fn lemma_cert_3_1()
    ensures
        mexp(1020017986162963204, 1267668060077347163, 11728124029610, 2305843009213693951) == mexp(1489167355912447362, 559096694736811184, 178956970, 2305843009213693951),
{
    lemma_mexp_step(1020017986162963204, 1267668060077347163, 11728124029610, 2305843009213693951, 1020017986162963204, 1416360387298873781, 5864062014805);
    lemma_mexp_step(1020017986162963204, 1416360387298873781, 5864062014805, 2305843009213693951, 1533194195838376616, 1564471842796986341, 2932031007402);
    lemma_mexp_step(1533194195838376616, 1564471842796986341, 2932031007402, 2305843009213693951, 1533194195838376616, 735250336065844589, 1466015503701);
    lemma_mexp_step(1533194195838376616, 735250336065844589, 1466015503701, 2305843009213693951, 155718072700530028, 1488752000173493138, 733007751850);
    lemma_mexp_step(155718072700530028, 1488752000173493138, 733007751850, 2305843009213693951, 155718072700530028, 1320279768446765050, 366503875925);
    lemma_mexp_step(155718072700530028, 1320279768446765050, 366503875925, 2305843009213693951, 1047606006045650792, 1747983813596511721, 183251937962);
    lemma_mexp_step(1047606006045650792, 1747983813596511721, 183251937962, 2305843009213693951, 1047606006045650792, 67869839423255989, 91625968981);
    lemma_mexp_step(1047606006045650792, 67869839423255989, 91625968981, 2305843009213693951, 1571764092410258675, 2164827040180914092, 45812984490);
    lemma_mexp_step(1571764092410258675, 2164827040180914092, 45812984490, 2305843009213693951, 1571764092410258675, 1744025871715016688, 22906492245);
    lemma_mexp_step(1571764092410258675, 1744025871715016688, 22906492245, 2305843009213693951, 442915905711901952, 73251981582425893, 11453246122);
    lemma_mexp_step(442915905711901952, 73251981582425893, 11453246122, 2305843009213693951, 442915905711901952, 277374673314010419, 5726623061);
    lemma_mexp_step(442915905711901952, 277374673314010419, 5726623061, 2305843009213693951, 1870461278028150258, 92934223038987942, 2863311530);
    lemma_mexp_step(1870461278028150258, 92934223038987942, 2863311530, 2305843009213693951, 1870461278028150258, 621132062226937276, 1431655765);
    lemma_mexp_step(1870461278028150258, 621132062226937276, 1431655765, 2305843009213693951, 621721964039512615, 552523982103027780, 715827882);
    lemma_mexp_step(621721964039512615, 552523982103027780, 715827882, 2305843009213693951, 621721964039512615, 1810209022387899939, 357913941);
    lemma_mexp_step(621721964039512615, 1810209022387899939, 357913941, 2305843009213693951, 1489167355912447362, 559096694736811184, 178956970);
}

proof fn lemma_cert_3_2()
    ensures
        mexp(1489167355912447362, 559096694736811184, 178956970, 2305843009213693951) == mexp(1777883566789543120, 1620384436148347606, 2730, 2305843009213693951),
{
    lemma_mexp_step(1489167355912447362, 559096694736811184, 178956970, 2305843009213693951, 1489167355912447362, 711094314562858615, 89478485);
    lemma_mexp_step(1489167355912447362, 711094314562858615, 89478485, 2305843009213693951, 923195156908011831, 1622448854954581329, 44739242);
    lemma_mexp_step(923195156908011831, 1622448854954581329, 44739242, 2305843009213693951, 923195156908011831, 841055254665985916, 22369621);
    lemma_mexp_step(923195156908011831, 841055254665985916, 22369621, 2305843009213693951, 144926145359869064, 697959595997859570, 11184810);
    lemma_mexp_step(144926145359869064, 697959595997859570, 11184810, 2305843009213693951, 144926145359869064, 1808678955228361916, 5592405);
    lemma_mexp_step(144926145359869064, 1808678955228361916, 5592405, 2305843009213693951, 538461566152087671, 1904955967673210270, 2796202);
    lemma_mexp_step(538461566152087671, 1904955967673210270, 2796202, 2305843009213693951, 538461566152087671, 1826762296907946662, 1398101);
    lemma_mexp_step(538461566152087671, 1826762296907946662, 1398101, 2305843009213693951, 443787270311340831, 395654014531890260, 699050);
    lemma_mexp_step(443787270311340831, 395654014531890260, 699050, 2305843009213693951, 443787270311340831, 1189103440328413580, 349525);
    lemma_mexp_step(443787270311340831, 1189103440328413580, 349525, 2305843009213693951, 1872168366718845815, 1894874107849652993, 174762);
    lemma_mexp_step(1872168366718845815, 1894874107849652993, 174762, 2305843009213693951, 1872168366718845815, 302423639519868408, 87381);
    lemma_mexp_step(1872168366718845815, 302423639519868408, 87381, 2305843009213693951, 856854973097751333, 512544735919841438, 43690);
    lemma_mexp_step(856854973097751333, 512544735919841438, 43690, 2305843009213693951, 856854973097751333, 994841178892020975, 21845);
    lemma_mexp_step(856854973097751333, 994841178892020975, 21845, 2305843009213693951, 2139670068156871055, 1365841398988935179, 10922);
    lemma_mexp_step(2139670068156871055, 1365841398988935179, 10922, 2305843009213693951, 2139670068156871055, 1389315537057605538, 5461);
    lemma_mexp_step(2139670068156871055, 1389315537057605538, 5461, 2305843009213693951, 1777883566789543120, 1620384436148347606, 2730);
}

proof fn lemma_cert_3_3()
    ensures
        mexp(1777883566789543120, 1620384436148347606, 2730, 2305843009213693951) == mexp(1669582390241348315, 2305843009213693914, 0, 2305843009213693951),
{
    lemma_mexp_step(1777883566789543120, 1620384436148347606, 2730, 2305843009213693951, 1777883566789543120, 1236195944141684822, 1365);
    lemma_mexp_step(1777883566789543120, 1236195944141684822, 1365, 2305843009213693951, 1764762195221922132, 1927669204547316455, 682);
    lemma_mexp_step(1764762195221922132, 1927669204547316455, 682, 2305843009213693951, 1764762195221922132, 1367449615347781359, 341);
    lemma_mexp_step(1764762195221922132, 1367449615347781359, 341, 2305843009213693951, 1666146269762060579, 1879906979325824564, 170);
    lemma_mexp_step(1666146269762060579, 1879906979325824564, 170, 2305843009213693951, 1666146269762060579, 655204990766260670, 85);
    lemma_mexp_step(1666146269762060579, 655204990766260670, 85, 2305843009213693951, 796481924047603137, 617443249345278015, 42);
    lemma_mexp_step(796481924047603137, 617443249345278015, 42, 2305843009213693951, 796481924047603137, 93335154568859392, 21);
    lemma_mexp_step(796481924047603137, 93335154568859392, 21, 2305843009213693951, 2159224437699580815, 1979613501565108617, 10);
    lemma_mexp_step(2159224437699580815, 1979613501565108617, 10, 2305843009213693951, 2159224437699580815, 1945635272481320524, 5);
    lemma_mexp_step(2159224437699580815, 1945635272481320524, 5, 2305843009213693951, 1600724798789556215, 331539492389086583, 2);
    lemma_mexp_step(1600724798789556215, 331539492389086583, 2, 2305843009213693951, 1600724798789556215, 1344516579535654772, 1);
    lemma_mexp_step(1600724798789556215, 1344516579535654772, 1, 2305843009213693951, 1669582390241348315, 2305843009213693914, 0);
}

proof fn lemma_cert_3()
    ensures
        mexp(1, 37, 768614336404564650, 2305843009213693951) == 1669582390241348315,
{
    lemma_cert_3_0();
    lemma_cert_3_1();
    lemma_cert_3_2();
    lemma_cert_3_3();
    lemma_mexp_done(1669582390241348315, 2305843009213693914, 2305843009213693951);
}

proof fn lemma_cert_5_0()
    ensures
        mexp(1, 37, 461168601842738790, 2305843009213693951) == mexp(2153848202027799961, 1267668060077347163, 7036874417766, 2305843009213693951),
{
    lemma_mexp_step(1, 37, 461168601842738790, 2305843009213693951, 1, 1369, 230584300921369395);
    lemma_mexp_step(1, 1369, 230584300921369395, 2305843009213693951, 1369, 1874161, 115292150460684697);
    lemma_mexp_step(1369, 1874161, 115292150460684697, 2305843009213693951, 2565726409, 3512479453921, 57646075230342348);
    lemma_mexp_step(2565726409, 3512479453921, 57646075230342348, 2305843009213693951, 2565726409, 2048012909902302799, 28823037615171174);
    lemma_mexp_step(2565726409, 2048012909902302799, 28823037615171174, 2305843009213693951, 2565726409, 307828676072022436, 14411518807585587);
    lemma_mexp_step(2565726409, 307828676072022436, 14411518807585587, 2305843009213693951, 57684662309873168, 1530484379699738889, 7205759403792793);
    lemma_mexp_step(57684662309873168, 1530484379699738889, 7205759403792793, 2305843009213693951, 92200521201836915, 1671968728696755707, 3602879701896396);
    lemma_mexp_step(92200521201836915, 1671968728696755707, 3602879701896396, 2305843009213693951, 92200521201836915, 649718369440752735, 1801439850948198);
    lemma_mexp_step(92200521201836915, 649718369440752735, 1801439850948198, 2305843009213693951, 92200521201836915, 1874702330417107273, 900719925474099);
    lemma_mexp_step(92200521201836915, 1874702330417107273, 900719925474099, 2305843009213693951, 1285526102849879748, 5986862548113618, 450359962737049);
    lemma_mexp_step(1285526102849879748, 5986862548113618, 450359962737049, 2305843009213693951, 985893244345592266, 1820568710247692212, 225179981368524);
    lemma_mexp_step(985893244345592266, 1820568710247692212, 225179981368524, 2305843009213693951, 985893244345592266, 404534779322076428, 112589990684262);
    lemma_mexp_step(985893244345592266, 404534779322076428, 112589990684262, 2305843009213693951, 985893244345592266, 649492471404925175, 56294995342131);
    lemma_mexp_step(985893244345592266, 649492471404925175, 56294995342131, 2305843009213693951, 774496163330691388, 1106896147619454396, 28147497671065);
    lemma_mexp_step(774496163330691388, 1106896147619454396, 28147497671065, 2305843009213693951, 2153848202027799961, 1669740733653474757, 14073748835532);
    lemma_mexp_step(2153848202027799961, 1669740733653474757, 14073748835532, 2305843009213693951, 2153848202027799961, 1267668060077347163, 7036874417766);
}

proof fn lemma_cert_5_1()
    ensures
        mexp(2153848202027799961, 1267668060077347163, 7036874417766, 2305843009213693951) == mexp(354488523461011054, 559096694736811184, 107374182, 2305843009213693951),
{
    lemma_mexp_step(2153848202027799961, 1267668060077347163, 7036874417766, 2305843009213693951, 2153848202027799961, 1416360387298873781, 3518437208883);
    lemma_mexp_step(2153848202027799961, 1416360387298873781, 3518437208883, 2305843009213693951, 442900674012648688, 1564471842796986341, 1759218604441);
    lemma_mexp_step(442900674012648688, 1564471842796986341, 1759218604441, 2305843009213693951, 1603459955069609960, 735250336065844589, 879609302220);
    lemma_mexp_step(1603459955069609960, 735250336065844589, 879609302220, 2305843009213693951, 1603459955069609960, 1488752000173493138, 439804651110);
    lemma_mexp_step(1603459955069609960, 1488752000173493138, 439804651110, 2305843009213693951, 1603459955069609960, 1320279768446765050, 219902325555);
    lemma_mexp_step(1603459955069609960, 1320279768446765050, 219902325555, 2305843009213693951, 2046379078714698567, 1747983813596511721, 109951162777);
    lemma_mexp_step(2046379078714698567, 1747983813596511721, 109951162777, 2305843009213693951, 426225928886305857, 67869839423255989, 54975581388);
    lemma_mexp_step(426225928886305857, 67869839423255989, 54975581388, 2305843009213693951, 426225928886305857, 2164827040180914092, 27487790694);
    lemma_mexp_step(426225928886305857, 2164827040180914092, 27487790694, 2305843009213693951, 426225928886305857, 1744025871715016688, 13743895347);
    lemma_mexp_step(426225928886305857, 1744025871715016688, 13743895347, 2305843009213693951, 1976319293068622132, 73251981582425893, 6871947673);
    lemma_mexp_step(1976319293068622132, 73251981582425893, 6871947673, 2305843009213693951, 1067724814112099242, 277374673314010419, 3435973836);
    lemma_mexp_step(1067724814112099242, 277374673314010419, 3435973836, 2305843009213693951, 1067724814112099242, 92934223038987942, 1717986918);
    lemma_mexp_step(1067724814112099242, 92934223038987942, 1717986918, 2305843009213693951, 1067724814112099242, 621132062226937276, 858993459);
    lemma_mexp_step(1067724814112099242, 621132062226937276, 858993459, 2305843009213693951, 495084091208824077, 552523982103027780, 429496729);
    lemma_mexp_step(495084091208824077, 552523982103027780, 429496729, 2305843009213693951, 354488523461011054, 1810209022387899939, 214748364);
    lemma_mexp_step(354488523461011054, 1810209022387899939, 214748364, 2305843009213693951, 354488523461011054, 559096694736811184, 107374182);
}

proof fn lemma_cert_5_2()
    ensures
        mexp(354488523461011054, 559096694736811184, 107374182, 2305843009213693951) == mexp(437123442137237322, 1620384436148347606, 1638, 2305843009213693951),
{
    lemma_mexp_step(354488523461011054, 559096694736811184, 107374182, 2305843009213693951, 354488523461011054, 711094314562858615, 53687091);
    lemma_mexp_step(354488523461011054, 711094314562858615, 53687091, 2305843009213693951, 1106528865201109023, 1622448854954581329, 26843545);
    lemma_mexp_step(1106528865201109023, 1622448854954581329, 26843545, 2305843009213693951, 1592424462823494453, 841055254665985916, 13421772);
    lemma_mexp_step(1592424462823494453, 841055254665985916, 13421772, 2305843009213693951, 1592424462823494453, 697959595997859570, 6710886);
    lemma_mexp_step(1592424462823494453, 697959595997859570, 6710886, 2305843009213693951, 1592424462823494453, 1808678955228361916, 3355443);
    lemma_mexp_step(1592424462823494453, 1808678955228361916, 3355443, 2305843009213693951, 475171547733779859, 1904955967673210270, 1677721);
    lemma_mexp_step(475171547733779859, 1904955967673210270, 1677721, 2305843009213693951, 740722046356123805, 1826762296907946662, 838860);
    lemma_mexp_step(740722046356123805, 1826762296907946662, 838860, 2305843009213693951, 740722046356123805, 395654014531890260, 419430);
    lemma_mexp_step(740722046356123805, 395654014531890260, 419430, 2305843009213693951, 740722046356123805, 1189103440328413580, 209715);
    lemma_mexp_step(740722046356123805, 1189103440328413580, 209715, 2305843009213693951, 879374564642549147, 1894874107849652993, 104857);
    lemma_mexp_step(879374564642549147, 1894874107849652993, 104857, 2305843009213693951, 1324937114391066770, 302423639519868408, 52428);
    lemma_mexp_step(1324937114391066770, 302423639519868408, 52428, 2305843009213693951, 1324937114391066770, 512544735919841438, 26214);
    lemma_mexp_step(1324937114391066770, 512544735919841438, 26214, 2305843009213693951, 1324937114391066770, 994841178892020975, 13107);
    lemma_mexp_step(1324937114391066770, 994841178892020975, 13107, 2305843009213693951, 811762386642912707, 1365841398988935179, 6553);
    lemma_mexp_step(811762386642912707, 1365841398988935179, 6553, 2305843009213693951, 437123442137237322, 1389315537057605538, 3276);
    lemma_mexp_step(437123442137237322, 1389315537057605538, 3276, 2305843009213693951, 437123442137237322, 1620384436148347606, 1638);
}

proof fn lemma_cert_5_3()
    ensures
        mexp(437123442137237322, 1620384436148347606, 1638, 2305843009213693951) == mexp(725554454131936870, 1344516579535654772, 0, 2305843009213693951),
{
    lemma_mexp_step(437123442137237322, 1620384436148347606, 1638, 2305843009213693951, 437123442137237322, 1236195944141684822, 819);
    lemma_mexp_step(437123442137237322, 1236195944141684822, 819, 2305843009213693951, 2079389339542563764, 1927669204547316455, 409);
    lemma_mexp_step(2079389339542563764, 1927669204547316455, 409, 2305843009213693951, 629618497200666380, 1367449615347781359, 204);
    lemma_mexp_step(629618497200666380, 1367449615347781359, 204, 2305843009213693951, 629618497200666380, 1879906979325824564, 102);
    lemma_mexp_step(629618497200666380, 1879906979325824564, 102, 2305843009213693951, 629618497200666380, 655204990766260670, 51);
    lemma_mexp_step(629618497200666380, 655204990766260670, 51, 2305843009213693951, 953474710001145152, 617443249345278015, 25);
    lemma_mexp_step(953474710001145152, 617443249345278015, 25, 2305843009213693951, 223547569593002926, 93335154568859392, 12);
    lemma_mexp_step(223547569593002926, 93335154568859392, 12, 2305843009213693951, 223547569593002926, 1979613501565108617, 6);
    lemma_mexp_step(223547569593002926, 1979613501565108617, 6, 2305843009213693951, 223547569593002926, 1945635272481320524, 3);
    lemma_mexp_step(223547569593002926, 1945635272481320524, 3, 2305843009213693951, 2240318260791946769, 331539492389086583, 1);
    lemma_mexp_step(2240318260791946769, 331539492389086583, 1, 2305843009213693951, 725554454131936870, 1344516579535654772, 0);
}

proof fn lemma_cert_5()
    ensures
        mexp(1, 37, 461168601842738790, 2305843009213693951) == 725554454131936870,
{
    lemma_cert_5_0();
    lemma_cert_5_1();
    lemma_cert_5_2();
    lemma_cert_5_3();
    lemma_mexp_done(725554454131936870, 1344516579535654772, 2305843009213693951);
}

proof fn lemma_cert_7_0()
    ensures
        mexp(1, 37, 329406144173384850, 2305843009213693951) == mexp(2043004164827987706, 1267668060077347163, 5026338869833, 2305843009213693951),
{
    lemma_mexp_step(1, 37, 329406144173384850, 2305843009213693951, 1, 1369, 164703072086692425);
    lemma_mexp_step(1, 1369, 164703072086692425, 2305843009213693951, 1369, 1874161, 82351536043346212);
    lemma_mexp_step(1369, 1874161, 82351536043346212, 2305843009213693951, 1369, 3512479453921, 41175768021673106);
    lemma_mexp_step(1369, 3512479453921, 41175768021673106, 2305843009213693951, 1369, 2048012909902302799, 20587884010836553);
    lemma_mexp_step(1369, 2048012909902302799, 20587884010836553, 2305843009213693951, 2130417461614381366, 307828676072022436, 10293942005418276);
    lemma_mexp_step(2130417461614381366, 307828676072022436, 10293942005418276, 2305843009213693951, 2130417461614381366, 1530484379699738889, 5146971002709138);
    lemma_mexp_step(2130417461614381366, 1530484379699738889, 5146971002709138, 2305843009213693951, 2130417461614381366, 1671968728696755707, 2573485501354569);
    lemma_mexp_step(2130417461614381366, 1671968728696755707, 2573485501354569, 2305843009213693951, 2152298284617609383, 649718369440752735, 1286742750677284);
    lemma_mexp_step(2152298284617609383, 649718369440752735, 1286742750677284, 2305843009213693951, 2152298284617609383, 1874702330417107273, 643371375338642);
    lemma_mexp_step(2152298284617609383, 1874702330417107273, 643371375338642, 2305843009213693951, 2152298284617609383, 5986862548113618, 321685687669321);
    lemma_mexp_step(2152298284617609383, 5986862548113618, 321685687669321, 2305843009213693951, 1017010712830157597, 1820568710247692212, 160842843834660);
    lemma_mexp_step(1017010712830157597, 1820568710247692212, 160842843834660, 2305843009213693951, 1017010712830157597, 404534779322076428, 80421421917330);
    lemma_mexp_step(1017010712830157597, 404534779322076428, 80421421917330, 2305843009213693951, 1017010712830157597, 649492471404925175, 40210710958665);
    lemma_mexp_step(1017010712830157597, 649492471404925175, 40210710958665, 2305843009213693951, 2043004164827987706, 1106896147619454396, 20105355479332);
    lemma_mexp_step(2043004164827987706, 1106896147619454396, 20105355479332, 2305843009213693951, 2043004164827987706, 1669740733653474757, 10052677739666);
    lemma_mexp_step(2043004164827987706, 1669740733653474757, 10052677739666, 2305843009213693951, 2043004164827987706, 1267668060077347163, 5026338869833);
}

proof fn lemma_cert_7_1()
    ensures
        mexp(2043004164827987706, 1267668060077347163, 5026338869833, 2305843009213693951) == mexp(1440434973591732354, 559096694736811184, 76695844, 2305843009213693951),
{
    lemma_mexp_step(2043004164827987706, 1267668060077347163, 5026338869833, 2305843009213693951, 2210526432403221929, 1416360387298873781, 2513169434916);
    lemma_mexp_step(2210526432403221929, 1416360387298873781, 2513169434916, 2305843009213693951, 2210526432403221929, 1564471842796986341, 1256584717458);
    lemma_mexp_step(2210526432403221929, 1564471842796986341, 1256584717458, 2305843009213693951, 2210526432403221929, 735250336065844589, 628292358729);
    lemma_mexp_step(2210526432403221929, 735250336065844589, 628292358729, 2305843009213693951, 1409204877215935722, 1488752000173493138, 314146179364);
    lemma_mexp_step(1409204877215935722, 1488752000173493138, 314146179364, 2305843009213693951, 1409204877215935722, 1320279768446765050, 157073089682);
    lemma_mexp_step(1409204877215935722, 1320279768446765050, 157073089682, 2305843009213693951, 1409204877215935722, 1747983813596511721, 78536544841);
    lemma_mexp_step(1409204877215935722, 1747983813596511721, 78536544841, 2305843009213693951, 1813160678559705135, 67869839423255989, 39268272420);
    lemma_mexp_step(1813160678559705135, 67869839423255989, 39268272420, 2305843009213693951, 1813160678559705135, 2164827040180914092, 19634136210);
    lemma_mexp_step(1813160678559705135, 2164827040180914092, 19634136210, 2305843009213693951, 1813160678559705135, 1744025871715016688, 9817068105);
    lemma_mexp_step(1813160678559705135, 1744025871715016688, 9817068105, 2305843009213693951, 1399030843472832829, 73251981582425893, 4908534052);
    lemma_mexp_step(1399030843472832829, 73251981582425893, 4908534052, 2305843009213693951, 1399030843472832829, 277374673314010419, 2454267026);
    lemma_mexp_step(1399030843472832829, 277374673314010419, 2454267026, 2305843009213693951, 1399030843472832829, 92934223038987942, 1227133513);
    lemma_mexp_step(1399030843472832829, 92934223038987942, 1227133513, 2305843009213693951, 240322821650746190, 621132062226937276, 613566756);
    lemma_mexp_step(240322821650746190, 621132062226937276, 613566756, 2305843009213693951, 240322821650746190, 552523982103027780, 306783378);
    lemma_mexp_step(240322821650746190, 552523982103027780, 306783378, 2305843009213693951, 240322821650746190, 1810209022387899939, 153391689);
    lemma_mexp_step(240322821650746190, 1810209022387899939, 153391689, 2305843009213693951, 1440434973591732354, 559096694736811184, 76695844);
}

proof fn lemma_cert_7_2()
    ensures
        mexp(1440434973591732354, 559096694736811184, 76695844, 2305843009213693951) == mexp(2174886491362978632, 1620384436148347606, 1170, 2305843009213693951),
{
    lemma_mexp_step(1440434973591732354, 559096694736811184, 76695844, 2305843009213693951, 1440434973591732354, 711094314562858615, 38347922);
    lemma_mexp_step(1440434973591732354, 711094314562858615, 38347922, 2305843009213693951, 1440434973591732354, 1622448854954581329, 19173961);
    lemma_mexp_step(1440434973591732354, 1622448854954581329, 19173961, 2305843009213693951, 1025243051829880922, 841055254665985916, 9586980);
    lemma_mexp_step(1025243051829880922, 841055254665985916, 9586980, 2305843009213693951, 1025243051829880922, 697959595997859570, 4793490);
    lemma_mexp_step(1025243051829880922, 697959595997859570, 4793490, 2305843009213693951, 1025243051829880922, 1808678955228361916, 2396745);
    lemma_mexp_step(1025243051829880922, 1808678955228361916, 2396745, 2305843009213693951, 2003652521244069712, 1904955967673210270, 1198372);
    lemma_mexp_step(2003652521244069712, 1904955967673210270, 1198372, 2305843009213693951, 2003652521244069712, 1826762296907946662, 599186);
    lemma_mexp_step(2003652521244069712, 1826762296907946662, 599186, 2305843009213693951, 2003652521244069712, 395654014531890260, 299593);
    lemma_mexp_step(2003652521244069712, 395654014531890260, 299593, 2305843009213693951, 726651492048093752, 1189103440328413580, 149796);
    lemma_mexp_step(726651492048093752, 1189103440328413580, 149796, 2305843009213693951, 726651492048093752, 1894874107849652993, 74898);
    lemma_mexp_step(726651492048093752, 1894874107849652993, 74898, 2305843009213693951, 726651492048093752, 302423639519868408, 37449);
    lemma_mexp_step(726651492048093752, 302423639519868408, 37449, 2305843009213693951, 130218841906050226, 512544735919841438, 18724);
    lemma_mexp_step(130218841906050226, 512544735919841438, 18724, 2305843009213693951, 130218841906050226, 994841178892020975, 9362);
    lemma_mexp_step(130218841906050226, 994841178892020975, 9362, 2305843009213693951, 130218841906050226, 1365841398988935179, 4681);
    lemma_mexp_step(130218841906050226, 1365841398988935179, 4681, 2305843009213693951, 2174886491362978632, 1389315537057605538, 2340);
    lemma_mexp_step(2174886491362978632, 1389315537057605538, 2340, 2305843009213693951, 2174886491362978632, 1620384436148347606, 1170);
}

proof fn lemma_cert_7_3()
    ensures
        mexp(2174886491362978632, 1620384436148347606, 1170, 2305843009213693951) == mexp(1165310750493918737, 1344516579535654772, 0, 2305843009213693951),
{
    lemma_mexp_step(2174886491362978632, 1620384436148347606, 1170, 2305843009213693951, 2174886491362978632, 1236195944141684822, 585);
    lemma_mexp_step(2174886491362978632, 1236195944141684822, 585, 2305843009213693951, 1802518786536779042, 1927669204547316455, 292);
    lemma_mexp_step(1802518786536779042, 1927669204547316455, 292, 2305843009213693951, 1802518786536779042, 1367449615347781359, 146);
    lemma_mexp_step(1802518786536779042, 1367449615347781359, 146, 2305843009213693951, 1802518786536779042, 1879906979325824564, 73);
    lemma_mexp_step(1802518786536779042, 1879906979325824564, 73, 2305843009213693951, 2042291364917644111, 655204990766260670, 36);
    lemma_mexp_step(2042291364917644111, 655204990766260670, 36, 2305843009213693951, 2042291364917644111, 617443249345278015, 18);
    lemma_mexp_step(2042291364917644111, 617443249345278015, 18, 2305843009213693951, 2042291364917644111, 93335154568859392, 9);
    lemma_mexp_step(2042291364917644111, 93335154568859392, 9, 2305843009213693951, 1886223071404137603, 1979613501565108617, 4);
    lemma_mexp_step(1886223071404137603, 1979613501565108617, 4, 2305843009213693951, 1886223071404137603, 1945635272481320524, 2);
    lemma_mexp_step(1886223071404137603, 1945635272481320524, 2, 2305843009213693951, 1886223071404137603, 331539492389086583, 1);
    lemma_mexp_step(1886223071404137603, 331539492389086583, 1, 2305843009213693951, 1165310750493918737, 1344516579535654772, 0);
}

proof fn lemma_cert_7()
    ensures
        mexp(1, 37, 329406144173384850, 2305843009213693951) == 1165310750493918737,
{
    lemma_cert_7_0();
    lemma_cert_7_1();
    lemma_cert_7_2();
    lemma_cert_7_3();
    lemma_mexp_done(1165310750493918737, 1344516579535654772, 2305843009213693951);
}

proof fn lemma_cert_11_0()
    ensures
        mexp(1, 37, 209622091746699450, 2305843009213693951) == mexp(1592943745806128525, 1267668060077347163, 3198579280802, 2305843009213693951),
{
    lemma_mexp_step(1, 37, 209622091746699450, 2305843009213693951, 1, 1369, 104811045873349725);
    lemma_mexp_step(1, 1369, 104811045873349725, 2305843009213693951, 1369, 1874161, 52405522936674862);
    lemma_mexp_step(1369, 1874161, 52405522936674862, 2305843009213693951, 1369, 3512479453921, 26202761468337431);
    lemma_mexp_step(1369, 3512479453921, 26202761468337431, 2305843009213693951, 4808584372417849, 2048012909902302799, 13101380734168715);
    lemma_mexp_step(4808584372417849, 2048012909902302799, 13101380734168715, 2305843009213693951, 1591872098300023439, 307828676072022436, 6550690367084357);
    lemma_mexp_step(1591872098300023439, 307828676072022436, 6550690367084357, 2305843009213693951, 1126684292079557353, 1530484379699738889, 3275345183542178);
    lemma_mexp_step(1126684292079557353, 1530484379699738889, 3275345183542178, 2305843009213693951, 1126684292079557353, 1671968728696755707, 1637672591771089);
    lemma_mexp_step(1126684292079557353, 1671968728696755707, 1637672591771089, 2305843009213693951, 697523968445991094, 649718369440752735, 818836295885544);
    lemma_mexp_step(697523968445991094, 649718369440752735, 818836295885544, 2305843009213693951, 697523968445991094, 1874702330417107273, 409418147942772);
    lemma_mexp_step(697523968445991094, 1874702330417107273, 409418147942772, 2305843009213693951, 697523968445991094, 5986862548113618, 204709073971386);
    lemma_mexp_step(697523968445991094, 5986862548113618, 204709073971386, 2305843009213693951, 697523968445991094, 1820568710247692212, 102354536985693);
    lemma_mexp_step(697523968445991094, 1820568710247692212, 102354536985693, 2305843009213693951, 410032106900261676, 404534779322076428, 51177268492846);
    lemma_mexp_step(410032106900261676, 404534779322076428, 51177268492846, 2305843009213693951, 410032106900261676, 649492471404925175, 25588634246423);
    lemma_mexp_step(410032106900261676, 649492471404925175, 25588634246423, 2305843009213693951, 773470974620759227, 1106896147619454396, 12794317123211);
    lemma_mexp_step(773470974620759227, 1106896147619454396, 12794317123211, 2305843009213693951, 1423422773605394041, 1669740733653474757, 6397158561605);
    lemma_mexp_step(1423422773605394041, 1669740733653474757, 6397158561605, 2305843009213693951, 1592943745806128525, 1267668060077347163, 3198579280802);
}

proof fn lemma_cert_11_1()
    ensures
        mexp(1592943745806128525, 1267668060077347163, 3198579280802, 2305843009213693951) == mexp(2162645768547769327, 559096694736811184, 48806446, 2305843009213693951),
{
    lemma_mexp_step(1592943745806128525, 1267668060077347163, 3198579280802, 2305843009213693951, 1592943745806128525, 1416360387298873781, 1599289640401);
    lemma_mexp_step(1592943745806128525, 1416360387298873781, 1599289640401, 2305843009213693951, 1271571176372171503, 1564471842796986341, 799644820200);
    lemma_mexp_step(1271571176372171503, 1564471842796986341, 799644820200, 2305843009213693951, 1271571176372171503, 735250336065844589, 399822410100);
    lemma_mexp_step(1271571176372171503, 735250336065844589, 399822410100, 2305843009213693951, 1271571176372171503, 1488752000173493138, 199911205050);
    lemma_mexp_step(1271571176372171503, 1488752000173493138, 199911205050, 2305843009213693951, 1271571176372171503, 1320279768446765050, 99955602525);
    lemma_mexp_step(1271571176372171503, 1320279768446765050, 99955602525, 2305843009213693951, 1167237211376605207, 1747983813596511721, 49977801262);
    lemma_mexp_step(1167237211376605207, 1747983813596511721, 49977801262, 2305843009213693951, 1167237211376605207, 67869839423255989, 24988900631);
    lemma_mexp_step(1167237211376605207, 67869839423255989, 24988900631, 2305843009213693951, 372548391179138856, 2164827040180914092, 12494450315);
    lemma_mexp_step(372548391179138856, 2164827040180914092, 12494450315, 2305843009213693951, 324225821181679062, 1744025871715016688, 6247225157);
    lemma_mexp_step(324225821181679062, 1744025871715016688, 6247225157, 2305843009213693951, 1082433403300567906, 73251981582425893, 3123612578);
    lemma_mexp_step(1082433403300567906, 73251981582425893, 3123612578, 2305843009213693951, 1082433403300567906, 277374673314010419, 1561806289);
    lemma_mexp_step(1082433403300567906, 277374673314010419, 1561806289, 2305843009213693951, 1045216788358217664, 92934223038987942, 780903144);
    lemma_mexp_step(1045216788358217664, 92934223038987942, 780903144, 2305843009213693951, 1045216788358217664, 621132062226937276, 390451572);
    lemma_mexp_step(1045216788358217664, 621132062226937276, 390451572, 2305843009213693951, 1045216788358217664, 552523982103027780, 195225786);
    lemma_mexp_step(1045216788358217664, 552523982103027780, 195225786, 2305843009213693951, 1045216788358217664, 1810209022387899939, 97612893);
    lemma_mexp_step(1045216788358217664, 1810209022387899939, 97612893, 2305843009213693951, 2162645768547769327, 559096694736811184, 48806446);
}

proof fn lemma_cert_11_2()
    ensures
        mexp(2162645768547769327, 559096694736811184, 48806446, 2305843009213693951) == mexp(925417023639135397, 1620384436148347606, 744, 2305843009213693951),
{
    lemma_mexp_step(2162645768547769327, 559096694736811184, 48806446, 2305843009213693951, 2162645768547769327, 711094314562858615, 24403223);
    lemma_mexp_step(2162645768547769327, 711094314562858615, 24403223, 2305843009213693951, 113169756483506603, 1622448854954581329, 12201611);
    lemma_mexp_step(113169756483506603, 1622448854954581329, 12201611, 2305843009213693951, 957732192162853281, 841055254665985916, 6100805);
    lemma_mexp_step(957732192162853281, 841055254665985916, 6100805, 2305843009213693951, 347965948477733480, 697959595997859570, 3050402);
    lemma_mexp_step(347965948477733480, 697959595997859570, 3050402, 2305843009213693951, 347965948477733480, 1808678955228361916, 1525201);
    lemma_mexp_step(347965948477733480, 1808678955228361916, 1525201, 2305843009213693951, 681425966999145222, 1904955967673210270, 762600);
    lemma_mexp_step(681425966999145222, 1904955967673210270, 762600, 2305843009213693951, 681425966999145222, 1826762296907946662, 381300);
    lemma_mexp_step(681425966999145222, 1826762296907946662, 381300, 2305843009213693951, 681425966999145222, 395654014531890260, 190650);
    lemma_mexp_step(681425966999145222, 395654014531890260, 190650, 2305843009213693951, 681425966999145222, 1189103440328413580, 95325);
    lemma_mexp_step(681425966999145222, 1189103440328413580, 95325, 2305843009213693951, 1696416689832014144, 1894874107849652993, 47662);
    lemma_mexp_step(1696416689832014144, 1894874107849652993, 47662, 2305843009213693951, 1696416689832014144, 302423639519868408, 23831);
    lemma_mexp_step(1696416689832014144, 302423639519868408, 23831, 2305843009213693951, 1266100733585920584, 512544735919841438, 11915);
    lemma_mexp_step(1266100733585920584, 512544735919841438, 11915, 2305843009213693951, 90041435520672191, 994841178892020975, 5957);
    lemma_mexp_step(90041435520672191, 994841178892020975, 5957, 2305843009213693951, 900407247338950115, 1365841398988935179, 2978);
    lemma_mexp_step(900407247338950115, 1365841398988935179, 2978, 2305843009213693951, 900407247338950115, 1389315537057605538, 1489);
    lemma_mexp_step(900407247338950115, 1389315537057605538, 1489, 2305843009213693951, 925417023639135397, 1620384436148347606, 744);
}

proof fn lemma_cert_11_3()
    ensures
        mexp(925417023639135397, 1620384436148347606, 744, 2305843009213693951) == mexp(2266698407988980144, 331539492389086583, 0, 2305843009213693951),
{
    lemma_mexp_step(925417023639135397, 1620384436148347606, 744, 2305843009213693951, 925417023639135397, 1236195944141684822, 372);
    lemma_mexp_step(925417023639135397, 1236195944141684822, 372, 2305843009213693951, 925417023639135397, 1927669204547316455, 186);
    lemma_mexp_step(925417023639135397, 1927669204547316455, 186, 2305843009213693951, 925417023639135397, 1367449615347781359, 93);
    lemma_mexp_step(925417023639135397, 1367449615347781359, 93, 2305843009213693951, 1218350996502574772, 1879906979325824564, 46);
    lemma_mexp_step(1218350996502574772, 1879906979325824564, 46, 2305843009213693951, 1218350996502574772, 655204990766260670, 23);
    lemma_mexp_step(1218350996502574772, 655204990766260670, 23, 2305843009213693951, 1915706909502347952, 617443249345278015, 11);
    lemma_mexp_step(1915706909502347952, 617443249345278015, 11, 2305843009213693951, 64062610882107409, 93335154568859392, 5);
    lemma_mexp_step(64062610882107409, 93335154568859392, 5, 2305843009213693951, 2243939974895098962, 1979613501565108617, 2);
    lemma_mexp_step(2243939974895098962, 1979613501565108617, 2, 2305843009213693951, 2243939974895098962, 1945635272481320524, 1);
    lemma_mexp_step(2243939974895098962, 1945635272481320524, 1, 2305843009213693951, 2266698407988980144, 331539492389086583, 0);
}

proof fn lemma_cert_11()
    ensures
        mexp(1, 37, 209622091746699450, 2305843009213693951) == 2266698407988980144,
{
    lemma_cert_11_0();
    lemma_cert_11_1();
    lemma_cert_11_2();
    lemma_cert_11_3();
    lemma_mexp_done(2266698407988980144, 331539492389086583, 2305843009213693951);
}

proof fn lemma_cert_13_0()
    ensures
        mexp(1, 37, 177372539170284150, 2305843009213693951) == mexp(843613468672178106, 1267668060077347163, 2706490160679, 2305843009213693951),
{
    lemma_mexp_step(1, 37, 177372539170284150, 2305843009213693951, 1, 1369, 88686269585142075);
    lemma_mexp_step(1, 1369, 88686269585142075, 2305843009213693951, 1369, 1874161, 44343134792571037);
    lemma_mexp_step(1369, 1874161, 44343134792571037, 2305843009213693951, 2565726409, 3512479453921, 22171567396285518);
    lemma_mexp_step(2565726409, 3512479453921, 22171567396285518, 2305843009213693951, 2565726409, 2048012909902302799, 11085783698142759);
    lemma_mexp_step(2565726409, 2048012909902302799, 11085783698142759, 2305843009213693951, 599911450064693199, 307828676072022436, 5542891849071379);
    lemma_mexp_step(599911450064693199, 307828676072022436, 5542891849071379, 2305843009213693951, 1091349452027953358, 1530484379699738889, 2771445924535689);
    lemma_mexp_step(1091349452027953358, 1530484379699738889, 2771445924535689, 2305843009213693951, 1909085567989736374, 1671968728696755707, 1385722962267844);
    lemma_mexp_step(1909085567989736374, 1671968728696755707, 1385722962267844, 2305843009213693951, 1909085567989736374, 649718369440752735, 692861481133922);
    lemma_mexp_step(1909085567989736374, 649718369440752735, 692861481133922, 2305843009213693951, 1909085567989736374, 1874702330417107273, 346430740566961);
    lemma_mexp_step(1909085567989736374, 1874702330417107273, 346430740566961, 2305843009213693951, 2129910550479417964, 5986862548113618, 173215370283480);
    lemma_mexp_step(2129910550479417964, 5986862548113618, 173215370283480, 2305843009213693951, 2129910550479417964, 1820568710247692212, 86607685141740);
    lemma_mexp_step(2129910550479417964, 1820568710247692212, 86607685141740, 2305843009213693951, 2129910550479417964, 404534779322076428, 43303842570870);
    lemma_mexp_step(2129910550479417964, 404534779322076428, 43303842570870, 2305843009213693951, 2129910550479417964, 649492471404925175, 21651921285435);
    lemma_mexp_step(2129910550479417964, 649492471404925175, 21651921285435, 2305843009213693951, 1444726040466223555, 1106896147619454396, 10825960642717);
    lemma_mexp_step(1444726040466223555, 1106896147619454396, 10825960642717, 2305843009213693951, 843613468672178106, 1669740733653474757, 5412980321358);
    lemma_mexp_step(843613468672178106, 1669740733653474757, 5412980321358, 2305843009213693951, 843613468672178106, 1267668060077347163, 2706490160679);
}

proof fn lemma_cert_13_1()
    ensures
        mexp(843613468672178106, 1267668060077347163, 2706490160679, 2305843009213693951) == mexp(2193289638916219336, 559096694736811184, 41297762, 2305843009213693951),
{
    lemma_mexp_step(843613468672178106, 1267668060077347163, 2706490160679, 2305843009213693951, 1335130941253564222, 1416360387298873781, 1353245080339);
    lemma_mexp_step(1335130941253564222, 1416360387298873781, 1353245080339, 2305843009213693951, 1129633711666997358, 1564471842796986341, 676622540169);
    lemma_mexp_step(1129633711666997358, 1564471842796986341, 676622540169, 2305843009213693951, 1587911670474136118, 735250336065844589, 338311270084);
    lemma_mexp_step(1587911670474136118, 735250336065844589, 338311270084, 2305843009213693951, 1587911670474136118, 1488752000173493138, 169155635042);
    lemma_mexp_step(1587911670474136118, 1488752000173493138, 169155635042, 2305843009213693951, 1587911670474136118, 1320279768446765050, 84577817521);
    lemma_mexp_step(1587911670474136118, 1320279768446765050, 84577817521, 2305843009213693951, 1854278429927242186, 1747983813596511721, 42288908760);
    lemma_mexp_step(1854278429927242186, 1747983813596511721, 42288908760, 2305843009213693951, 1854278429927242186, 67869839423255989, 21144454380);
    lemma_mexp_step(1854278429927242186, 67869839423255989, 21144454380, 2305843009213693951, 1854278429927242186, 2164827040180914092, 10572227190);
    lemma_mexp_step(1854278429927242186, 2164827040180914092, 10572227190, 2305843009213693951, 1854278429927242186, 1744025871715016688, 5286113595);
    lemma_mexp_step(1854278429927242186, 1744025871715016688, 5286113595, 2305843009213693951, 359163150792082672, 73251981582425893, 2643056797);
    lemma_mexp_step(359163150792082672, 73251981582425893, 2643056797, 2305843009213693951, 390969595871429897, 277374673314010419, 1321528398);
    lemma_mexp_step(390969595871429897, 277374673314010419, 1321528398, 2305843009213693951, 390969595871429897, 92934223038987942, 660764199);
    lemma_mexp_step(390969595871429897, 92934223038987942, 660764199, 2305843009213693951, 409827656528845504, 621132062226937276, 330382099);
    lemma_mexp_step(409827656528845504, 621132062226937276, 330382099, 2305843009213693951, 1654912878085447542, 552523982103027780, 165191049);
    lemma_mexp_step(1654912878085447542, 552523982103027780, 165191049, 2305843009213693951, 2193289638916219336, 1810209022387899939, 82595524);
    lemma_mexp_step(2193289638916219336, 1810209022387899939, 82595524, 2305843009213693951, 2193289638916219336, 559096694736811184, 41297762);
}

proof fn lemma_cert_13_2()
    ensures
        mexp(2193289638916219336, 559096694736811184, 41297762, 2305843009213693951) == mexp(1563811603622147650, 1620384436148347606, 630, 2305843009213693951),
{
    lemma_mexp_step(2193289638916219336, 559096694736811184, 41297762, 2305843009213693951, 2193289638916219336, 711094314562858615, 20648881);
    lemma_mexp_step(2193289638916219336, 711094314562858615, 20648881, 2305843009213693951, 1313607248510892221, 1622448854954581329, 10324440);
    lemma_mexp_step(1313607248510892221, 1622448854954581329, 10324440, 2305843009213693951, 1313607248510892221, 841055254665985916, 5162220);
    lemma_mexp_step(1313607248510892221, 841055254665985916, 5162220, 2305843009213693951, 1313607248510892221, 697959595997859570, 2581110);
    lemma_mexp_step(1313607248510892221, 697959595997859570, 2581110, 2305843009213693951, 1313607248510892221, 1808678955228361916, 1290555);
    lemma_mexp_step(1313607248510892221, 1808678955228361916, 1290555, 2305843009213693951, 1418285932837743215, 1904955967673210270, 645277);
    lemma_mexp_step(1418285932837743215, 1904955967673210270, 645277, 2305843009213693951, 900730908656331837, 1826762296907946662, 322638);
    lemma_mexp_step(900730908656331837, 1826762296907946662, 322638, 2305843009213693951, 900730908656331837, 395654014531890260, 161319);
    lemma_mexp_step(900730908656331837, 395654014531890260, 161319, 2305843009213693951, 1685273400976458562, 1189103440328413580, 80659);
    lemma_mexp_step(1685273400976458562, 1189103440328413580, 80659, 2305843009213693951, 1581672818200300705, 1894874107849652993, 40329);
    lemma_mexp_step(1581672818200300705, 1894874107849652993, 40329, 2305843009213693951, 1290159393556596545, 302423639519868408, 20164);
    lemma_mexp_step(1290159393556596545, 302423639519868408, 20164, 2305843009213693951, 1290159393556596545, 512544735919841438, 10082);
    lemma_mexp_step(1290159393556596545, 512544735919841438, 10082, 2305843009213693951, 1290159393556596545, 994841178892020975, 5041);
    lemma_mexp_step(1290159393556596545, 994841178892020975, 5041, 2305843009213693951, 1563811603622147650, 1365841398988935179, 2520);
    lemma_mexp_step(1563811603622147650, 1365841398988935179, 2520, 2305843009213693951, 1563811603622147650, 1389315537057605538, 1260);
    lemma_mexp_step(1563811603622147650, 1389315537057605538, 1260, 2305843009213693951, 1563811603622147650, 1620384436148347606, 630);
}

proof fn lemma_cert_13_3()
    ensures
        mexp(1563811603622147650, 1620384436148347606, 630, 2305843009213693951) == mexp(1032504562576723207, 331539492389086583, 0, 2305843009213693951),
{
    lemma_mexp_step(1563811603622147650, 1620384436148347606, 630, 2305843009213693951, 1563811603622147650, 1236195944141684822, 315);
    lemma_mexp_step(1563811603622147650, 1236195944141684822, 315, 2305843009213693951, 2005827445578151804, 1927669204547316455, 157);
    lemma_mexp_step(2005827445578151804, 1927669204547316455, 157, 2305843009213693951, 277151496053719496, 1367449615347781359, 78);
    lemma_mexp_step(277151496053719496, 1367449615347781359, 78, 2305843009213693951, 277151496053719496, 1879906979325824564, 39);
    lemma_mexp_step(277151496053719496, 1879906979325824564, 39, 2305843009213693951, 274130364222445057, 655204990766260670, 19);
    lemma_mexp_step(274130364222445057, 655204990766260670, 19, 2305843009213693951, 59276008971790815, 617443249345278015, 9);
    lemma_mexp_step(59276008971790815, 617443249345278015, 9, 2305843009213693951, 91132838437848092, 93335154568859392, 4);
    lemma_mexp_step(91132838437848092, 93335154568859392, 4, 2305843009213693951, 91132838437848092, 1979613501565108617, 2);
    lemma_mexp_step(91132838437848092, 1979613501565108617, 2, 2305843009213693951, 91132838437848092, 1945635272481320524, 1);
    lemma_mexp_step(91132838437848092, 1945635272481320524, 1, 2305843009213693951, 1032504562576723207, 331539492389086583, 0);
}

proof fn lemma_cert_13()
    ensures
        mexp(1, 37, 177372539170284150, 2305843009213693951) == 1032504562576723207,
{
    lemma_cert_13_0();
    lemma_cert_13_1();
    lemma_cert_13_2();
    lemma_cert_13_3();
    lemma_mexp_done(1032504562576723207, 331539492389086583, 2305843009213693951);
}

proof fn lemma_cert_31_0()
    ensures
        mexp(1, 37, 74382032555280450, 2305843009213693951) == mexp(383777470768767572, 1267668060077347163, 1134979744801, 2305843009213693951),
{
    lemma_mexp_step(1, 37, 74382032555280450, 2305843009213693951, 1, 1369, 37191016277640225);
    lemma_mexp_step(1, 1369, 37191016277640225, 2305843009213693951, 1369, 1874161, 18595508138820112);
    lemma_mexp_step(1369, 1874161, 18595508138820112, 2305843009213693951, 1369, 3512479453921, 9297754069410056);
    lemma_mexp_step(1369, 3512479453921, 9297754069410056, 2305843009213693951, 1369, 2048012909902302799, 4648877034705028);
    lemma_mexp_step(1369, 2048012909902302799, 4648877034705028, 2305843009213693951, 1369, 307828676072022436, 2324438517352514);
    lemma_mexp_step(1369, 307828676072022436, 2324438517352514, 2305843009213693951, 1369, 1530484379699738889, 1162219258676257);
    lemma_mexp_step(1369, 1530484379699738889, 1162219258676257, 2305843009213693951, 1527663442908431533, 1671968728696755707, 581109629338128);
    lemma_mexp_step(1527663442908431533, 1671968728696755707, 581109629338128, 2305843009213693951, 1527663442908431533, 649718369440752735, 290554814669064);
    lemma_mexp_step(1527663442908431533, 649718369440752735, 290554814669064, 2305843009213693951, 1527663442908431533, 1874702330417107273, 145277407334532);
    lemma_mexp_step(1527663442908431533, 1874702330417107273, 145277407334532, 2305843009213693951, 1527663442908431533, 5986862548113618, 72638703667266);
    lemma_mexp_step(1527663442908431533, 5986862548113618, 72638703667266, 2305843009213693951, 1527663442908431533, 1820568710247692212, 36319351833633);
    lemma_mexp_step(1527663442908431533, 1820568710247692212, 36319351833633, 2305843009213693951, 383777470768767572, 404534779322076428, 18159675916816);
    lemma_mexp_step(383777470768767572, 404534779322076428, 18159675916816, 2305843009213693951, 383777470768767572, 649492471404925175, 9079837958408);
    lemma_mexp_step(383777470768767572, 649492471404925175, 9079837958408, 2305843009213693951, 383777470768767572, 1106896147619454396, 4539918979204);
    lemma_mexp_step(383777470768767572, 1106896147619454396, 4539918979204, 2305843009213693951, 383777470768767572, 1669740733653474757, 2269959489602);
    lemma_mexp_step(383777470768767572, 1669740733653474757, 2269959489602, 2305843009213693951, 383777470768767572, 1267668060077347163, 1134979744801);
}

proof fn lemma_cert_31_1()
    ensures
        mexp(383777470768767572, 1267668060077347163, 1134979744801, 2305843009213693951) == mexp(293109258917679546, 559096694736811184, 17318416, 2305843009213693951),
{
    lemma_mexp_step(383777470768767572, 1267668060077347163, 1134979744801, 2305843009213693951, 105149161975553391, 1416360387298873781, 567489872400);
    lemma_mexp_step(105149161975553391, 1416360387298873781, 567489872400, 2305843009213693951, 105149161975553391, 1564471842796986341, 283744936200);
    lemma_mexp_step(105149161975553391, 1564471842796986341, 283744936200, 2305843009213693951, 105149161975553391, 735250336065844589, 141872468100);
    lemma_mexp_step(105149161975553391, 735250336065844589, 141872468100, 2305843009213693951, 105149161975553391, 1488752000173493138, 70936234050);
    lemma_mexp_step(105149161975553391, 1488752000173493138, 70936234050, 2305843009213693951, 105149161975553391, 1320279768446765050, 35468117025);
    lemma_mexp_step(105149161975553391, 1320279768446765050, 35468117025, 2305843009213693951, 207481386931969857, 1747983813596511721, 17734058512);
    lemma_mexp_step(207481386931969857, 1747983813596511721, 17734058512, 2305843009213693951, 207481386931969857, 67869839423255989, 8867029256);
    lemma_mexp_step(207481386931969857, 67869839423255989, 8867029256, 2305843009213693951, 207481386931969857, 2164827040180914092, 4433514628);
    lemma_mexp_step(207481386931969857, 2164827040180914092, 4433514628, 2305843009213693951, 207481386931969857, 1744025871715016688, 2216757314);
    lemma_mexp_step(207481386931969857, 1744025871715016688, 2216757314, 2305843009213693951, 207481386931969857, 73251981582425893, 1108378657);
    lemma_mexp_step(207481386931969857, 73251981582425893, 1108378657, 2305843009213693951, 772502744357113388, 277374673314010419, 554189328);
    lemma_mexp_step(772502744357113388, 277374673314010419, 554189328, 2305843009213693951, 772502744357113388, 92934223038987942, 277094664);
    lemma_mexp_step(772502744357113388, 92934223038987942, 277094664, 2305843009213693951, 772502744357113388, 621132062226937276, 138547332);
    lemma_mexp_step(772502744357113388, 621132062226937276, 138547332, 2305843009213693951, 772502744357113388, 552523982103027780, 69273666);
    lemma_mexp_step(772502744357113388, 552523982103027780, 69273666, 2305843009213693951, 772502744357113388, 1810209022387899939, 34636833);
    lemma_mexp_step(772502744357113388, 1810209022387899939, 34636833, 2305843009213693951, 293109258917679546, 559096694736811184, 17318416);
}

proof fn lemma_cert_31_2()
    ensures
        mexp(293109258917679546, 559096694736811184, 17318416, 2305843009213693951) == mexp(789523400171074996, 1620384436148347606, 264, 2305843009213693951),
{
    lemma_mexp_step(293109258917679546, 559096694736811184, 17318416, 2305843009213693951, 293109258917679546, 711094314562858615, 8659208);
    lemma_mexp_step(293109258917679546, 711094314562858615, 8659208, 2305843009213693951, 293109258917679546, 1622448854954581329, 4329604);
    lemma_mexp_step(293109258917679546, 1622448854954581329, 4329604, 2305843009213693951, 293109258917679546, 841055254665985916, 2164802);
    lemma_mexp_step(293109258917679546, 841055254665985916, 2164802, 2305843009213693951, 293109258917679546, 697959595997859570, 1082401);
    lemma_mexp_step(293109258917679546, 697959595997859570, 1082401, 2305843009213693951, 1202692236257763325, 1808678955228361916, 541200);
    lemma_mexp_step(1202692236257763325, 1808678955228361916, 541200, 2305843009213693951, 1202692236257763325, 1904955967673210270, 270600);
    lemma_mexp_step(1202692236257763325, 1904955967673210270, 270600, 2305843009213693951, 1202692236257763325, 1826762296907946662, 135300);
    lemma_mexp_step(1202692236257763325, 1826762296907946662, 135300, 2305843009213693951, 1202692236257763325, 395654014531890260, 67650);
    lemma_mexp_step(1202692236257763325, 395654014531890260, 67650, 2305843009213693951, 1202692236257763325, 1189103440328413580, 33825);
    lemma_mexp_step(1202692236257763325, 1189103440328413580, 33825, 2305843009213693951, 344447306660207322, 1894874107849652993, 16912);
    lemma_mexp_step(344447306660207322, 1894874107849652993, 16912, 2305843009213693951, 344447306660207322, 302423639519868408, 8456);
    lemma_mexp_step(344447306660207322, 302423639519868408, 8456, 2305843009213693951, 344447306660207322, 512544735919841438, 4228);
    lemma_mexp_step(344447306660207322, 512544735919841438, 4228, 2305843009213693951, 344447306660207322, 994841178892020975, 2114);
    lemma_mexp_step(344447306660207322, 994841178892020975, 2114, 2305843009213693951, 344447306660207322, 1365841398988935179, 1057);
    lemma_mexp_step(344447306660207322, 1365841398988935179, 1057, 2305843009213693951, 789523400171074996, 1389315537057605538, 528);
    lemma_mexp_step(789523400171074996, 1389315537057605538, 528, 2305843009213693951, 789523400171074996, 1620384436148347606, 264);
}

proof fn lemma_cert_31_3()
    ensures
        mexp(789523400171074996, 1620384436148347606, 264, 2305843009213693951) == mexp(484083891529811867, 1945635272481320524, 0, 2305843009213693951),
{
    lemma_mexp_step(789523400171074996, 1620384436148347606, 264, 2305843009213693951, 789523400171074996, 1236195944141684822, 132);
    lemma_mexp_step(789523400171074996, 1236195944141684822, 132, 2305843009213693951, 789523400171074996, 1927669204547316455, 66);
    lemma_mexp_step(789523400171074996, 1927669204547316455, 66, 2305843009213693951, 789523400171074996, 1367449615347781359, 33);
    lemma_mexp_step(789523400171074996, 1367449615347781359, 33, 2305843009213693951, 1874007843370815560, 1879906979325824564, 16);
    lemma_mexp_step(1874007843370815560, 1879906979325824564, 16, 2305843009213693951, 1874007843370815560, 655204990766260670, 8);
    lemma_mexp_step(1874007843370815560, 655204990766260670, 8, 2305843009213693951, 1874007843370815560, 617443249345278015, 4);
    lemma_mexp_step(1874007843370815560, 617443249345278015, 4, 2305843009213693951, 1874007843370815560, 93335154568859392, 2);
    lemma_mexp_step(1874007843370815560, 93335154568859392, 2, 2305843009213693951, 1874007843370815560, 1979613501565108617, 1);
    lemma_mexp_step(1874007843370815560, 1979613501565108617, 1, 2305843009213693951, 484083891529811867, 1945635272481320524, 0);
}

proof fn lemma_cert_31()
    ensures
        mexp(1, 37, 74382032555280450, 2305843009213693951) == 484083891529811867,
{
    lemma_cert_31_0();
    lemma_cert_31_1();
    lemma_cert_31_2();
    lemma_cert_31_3();
    lemma_mexp_done(484083891529811867, 1945635272481320524, 2305843009213693951);
}

proof fn lemma_cert_41_0()
    ensures
        mexp(1, 37, 56240073395455950, 2305843009213693951) == mexp(1694490217473059922, 1267668060077347163, 858155416800, 2305843009213693951),
{
    lemma_mexp_step(1, 37, 56240073395455950, 2305843009213693951, 1, 1369, 28120036697727975);
    lemma_mexp_step(1, 1369, 28120036697727975, 2305843009213693951, 1369, 1874161, 14060018348863987);
    lemma_mexp_step(1369, 1874161, 14060018348863987, 2305843009213693951, 2565726409, 3512479453921, 7030009174431993);
    lemma_mexp_step(2565726409, 3512479453921, 7030009174431993, 2305843009213693951, 826815987892339181, 2048012909902302799, 3515004587215996);
    lemma_mexp_step(826815987892339181, 2048012909902302799, 3515004587215996, 2305843009213693951, 826815987892339181, 307828676072022436, 1757502293607998);
    lemma_mexp_step(826815987892339181, 307828676072022436, 1757502293607998, 2305843009213693951, 826815987892339181, 1530484379699738889, 878751146803999);
    lemma_mexp_step(826815987892339181, 1530484379699738889, 878751146803999, 2305843009213693951, 1833824407774758982, 1671968728696755707, 439375573401999);
    lemma_mexp_step(1833824407774758982, 1671968728696755707, 439375573401999, 2305843009213693951, 556391699408490751, 649718369440752735, 219687786700999);
    lemma_mexp_step(556391699408490751, 649718369440752735, 219687786700999, 2305843009213693951, 2106191789590599397, 1874702330417107273, 109843893350499);
    lemma_mexp_step(2106191789590599397, 1874702330417107273, 109843893350499, 2305843009213693951, 564532745743208807, 5986862548113618, 54921946675249);
    lemma_mexp_step(564532745743208807, 5986862548113618, 54921946675249, 2305843009213693951, 581690973942025986, 1820568710247692212, 27460973337624);
    lemma_mexp_step(581690973942025986, 1820568710247692212, 27460973337624, 2305843009213693951, 581690973942025986, 404534779322076428, 13730486668812);
    lemma_mexp_step(581690973942025986, 404534779322076428, 13730486668812, 2305843009213693951, 581690973942025986, 649492471404925175, 6865243334406);
    lemma_mexp_step(581690973942025986, 649492471404925175, 6865243334406, 2305843009213693951, 581690973942025986, 1106896147619454396, 3432621667203);
    lemma_mexp_step(581690973942025986, 1106896147619454396, 3432621667203, 2305843009213693951, 471737314768529170, 1669740733653474757, 1716310833601);
    lemma_mexp_step(471737314768529170, 1669740733653474757, 1716310833601, 2305843009213693951, 1694490217473059922, 1267668060077347163, 858155416800);
}

proof fn lemma_cert_41_1()
    ensures
        mexp(1694490217473059922, 1267668060077347163, 858155416800, 2305843009213693951) == mexp(473207531058048325, 559096694736811184, 13094412, 2305843009213693951),
{
    lemma_mexp_step(1694490217473059922, 1267668060077347163, 858155416800, 2305843009213693951, 1694490217473059922, 1416360387298873781, 429077708400);
    lemma_mexp_step(1694490217473059922, 1416360387298873781, 429077708400, 2305843009213693951, 1694490217473059922, 1564471842796986341, 214538854200);
    lemma_mexp_step(1694490217473059922, 1564471842796986341, 214538854200, 2305843009213693951, 1694490217473059922, 735250336065844589, 107269427100);
    lemma_mexp_step(1694490217473059922, 735250336065844589, 107269427100, 2305843009213693951, 1694490217473059922, 1488752000173493138, 53634713550);
    lemma_mexp_step(1694490217473059922, 1488752000173493138, 53634713550, 2305843009213693951, 1694490217473059922, 1320279768446765050, 26817356775);
    lemma_mexp_step(1694490217473059922, 1320279768446765050, 26817356775, 2305843009213693951, 2214135039094925244, 1747983813596511721, 13408678387);
    lemma_mexp_step(2214135039094925244, 1747983813596511721, 13408678387, 2305843009213693951, 1010816045767771505, 67869839423255989, 6704339193);
    lemma_mexp_step(1010816045767771505, 67869839423255989, 6704339193, 2305843009213693951, 1228780440254238351, 2164827040180914092, 3352169596);
    lemma_mexp_step(1228780440254238351, 2164827040180914092, 3352169596, 2305843009213693951, 1228780440254238351, 1744025871715016688, 1676084798);
    lemma_mexp_step(1228780440254238351, 1744025871715016688, 1676084798, 2305843009213693951, 1228780440254238351, 73251981582425893, 838042399);
    lemma_mexp_step(1228780440254238351, 73251981582425893, 838042399, 2305843009213693951, 1956763848441898411, 277374673314010419, 419021199);
    lemma_mexp_step(1956763848441898411, 277374673314010419, 419021199, 2305843009213693951, 592303546355957511, 92934223038987942, 209510599);
    lemma_mexp_step(592303546355957511, 92934223038987942, 209510599, 2305843009213693951, 1764450822484313883, 621132062226937276, 104755299);
    lemma_mexp_step(1764450822484313883, 621132062226937276, 104755299, 2305843009213693951, 1533500621362297769, 552523982103027780, 52377649);
    lemma_mexp_step(1533500621362297769, 552523982103027780, 52377649, 2305843009213693951, 473207531058048325, 1810209022387899939, 26188824);
    lemma_mexp_step(473207531058048325, 1810209022387899939, 26188824, 2305843009213693951, 473207531058048325, 559096694736811184, 13094412);
}

proof fn lemma_cert_41_2()
    ensures
        mexp(473207531058048325, 559096694736811184, 13094412, 2305843009213693951) == mexp(152902783504889433, 1620384436148347606, 199, 2305843009213693951),
{
    lemma_mexp_step(473207531058048325, 559096694736811184, 13094412, 2305843009213693951, 473207531058048325, 711094314562858615, 6547206);
    lemma_mexp_step(473207531058048325, 711094314562858615, 6547206, 2305843009213693951, 473207531058048325, 1622448854954581329, 3273603);
    lemma_mexp_step(473207531058048325, 1622448854954581329, 3273603, 2305843009213693951, 791906884578949359, 841055254665985916, 1636801);
    lemma_mexp_step(791906884578949359, 841055254665985916, 1636801, 2305843009213693951, 408742850539445589, 697959595997859570, 818400);
    lemma_mexp_step(408742850539445589, 697959595997859570, 818400, 2305843009213693951, 408742850539445589, 1808678955228361916, 409200);
    lemma_mexp_step(408742850539445589, 1808678955228361916, 409200, 2305843009213693951, 408742850539445589, 1904955967673210270, 204600);
    lemma_mexp_step(408742850539445589, 1904955967673210270, 204600, 2305843009213693951, 408742850539445589, 1826762296907946662, 102300);
    lemma_mexp_step(408742850539445589, 1826762296907946662, 102300, 2305843009213693951, 408742850539445589, 395654014531890260, 51150);
    lemma_mexp_step(408742850539445589, 395654014531890260, 51150, 2305843009213693951, 408742850539445589, 1189103440328413580, 25575);
    lemma_mexp_step(408742850539445589, 1189103440328413580, 25575, 2305843009213693951, 667436088914918161, 1894874107849652993, 12787);
    lemma_mexp_step(667436088914918161, 1894874107849652993, 12787, 2305843009213693951, 1187170938199486684, 302423639519868408, 6393);
    lemma_mexp_step(1187170938199486684, 302423639519868408, 6393, 2305843009213693951, 1927480277036426156, 512544735919841438, 3196);
    lemma_mexp_step(1927480277036426156, 512544735919841438, 3196, 2305843009213693951, 1927480277036426156, 994841178892020975, 1598);
    lemma_mexp_step(1927480277036426156, 994841178892020975, 1598, 2305843009213693951, 1927480277036426156, 1365841398988935179, 799);
    lemma_mexp_step(1927480277036426156, 1365841398988935179, 799, 2305843009213693951, 1972998581165427658, 1389315537057605538, 399);
    lemma_mexp_step(1972998581165427658, 1389315537057605538, 399, 2305843009213693951, 152902783504889433, 1620384436148347606, 199);
}

proof fn lemma_cert_41_3()
    ensures
        mexp(152902783504889433, 1620384436148347606, 199, 2305843009213693951) == mexp(1562651311446036838, 1979613501565108617, 0, 2305843009213693951),
{
    lemma_mexp_step(152902783504889433, 1620384436148347606, 199, 2305843009213693951, 624275792862013411, 1236195944141684822, 99);
    lemma_mexp_step(624275792862013411, 1236195944141684822, 99, 2305843009213693951, 347585654904911785, 1927669204547316455, 49);
    lemma_mexp_step(347585654904911785, 1927669204547316455, 49, 2305843009213693951, 1244747674646477779, 1367449615347781359, 24);
    lemma_mexp_step(1244747674646477779, 1367449615347781359, 24, 2305843009213693951, 1244747674646477779, 1879906979325824564, 12);
    lemma_mexp_step(1244747674646477779, 1879906979325824564, 12, 2305843009213693951, 1244747674646477779, 655204990766260670, 6);
    lemma_mexp_step(1244747674646477779, 655204990766260670, 6, 2305843009213693951, 1244747674646477779, 617443249345278015, 3);
    lemma_mexp_step(1244747674646477779, 617443249345278015, 3, 2305843009213693951, 1234250654270295686, 93335154568859392, 1);
    lemma_mexp_step(1234250654270295686, 93335154568859392, 1, 2305843009213693951, 1562651311446036838, 1979613501565108617, 0);
}

proof fn lemma_cert_41()
    ensures
        mexp(1, 37, 56240073395455950, 2305843009213693951) == 1562651311446036838,
{
    lemma_cert_41_0();
    lemma_cert_41_1();
    lemma_cert_41_2();
    lemma_cert_41_3();
    lemma_mexp_done(1562651311446036838, 1979613501565108617, 2305843009213693951);
}

proof fn lemma_cert_61_0()
    ensures
        mexp(1, 37, 37800705069076950, 2305843009213693951) == mexp(2172775062114915837, 1267668060077347163, 576792985062, 2305843009213693951),
{
    lemma_mexp_step(1, 37, 37800705069076950, 2305843009213693951, 1, 1369, 18900352534538475);
    lemma_mexp_step(1, 1369, 18900352534538475, 2305843009213693951, 1369, 1874161, 9450176267269237);
    lemma_mexp_step(1369, 1874161, 9450176267269237, 2305843009213693951, 2565726409, 3512479453921, 4725088133634618);
    lemma_mexp_step(2565726409, 3512479453921, 4725088133634618, 2305843009213693951, 2565726409, 2048012909902302799, 2362544066817309);
    lemma_mexp_step(2565726409, 2048012909902302799, 2362544066817309, 2305843009213693951, 599911450064693199, 307828676072022436, 1181272033408654);
    lemma_mexp_step(599911450064693199, 307828676072022436, 1181272033408654, 2305843009213693951, 599911450064693199, 1530484379699738889, 590636016704327);
    lemma_mexp_step(599911450064693199, 1530484379699738889, 590636016704327, 2305843009213693951, 667277409524002060, 1671968728696755707, 295318008352163);
    lemma_mexp_step(667277409524002060, 1671968728696755707, 295318008352163, 2305843009213693951, 1959985561367859069, 649718369440752735, 147659004176081);
    lemma_mexp_step(1959985561367859069, 649718369440752735, 147659004176081, 2305843009213693951, 1343515726774378343, 1874702330417107273, 73829502088040);
    lemma_mexp_step(1343515726774378343, 1874702330417107273, 73829502088040, 2305843009213693951, 1343515726774378343, 5986862548113618, 36914751044020);
    lemma_mexp_step(1343515726774378343, 5986862548113618, 36914751044020, 2305843009213693951, 1343515726774378343, 1820568710247692212, 18457375522010);
    lemma_mexp_step(1343515726774378343, 1820568710247692212, 18457375522010, 2305843009213693951, 1343515726774378343, 404534779322076428, 9228687761005);
    lemma_mexp_step(1343515726774378343, 404534779322076428, 9228687761005, 2305843009213693951, 656295223764184147, 649492471404925175, 4614343880502);
    lemma_mexp_step(656295223764184147, 649492471404925175, 4614343880502, 2305843009213693951, 656295223764184147, 1106896147619454396, 2307171940251);
    lemma_mexp_step(656295223764184147, 1106896147619454396, 2307171940251, 2305843009213693951, 2114340238842570760, 1669740733653474757, 1153585970125);
    lemma_mexp_step(2114340238842570760, 1669740733653474757, 1153585970125, 2305843009213693951, 2172775062114915837, 1267668060077347163, 576792985062);
}

proof fn lemma_cert_61_1()
    ensures
        mexp(2172775062114915837, 1267668060077347163, 576792985062, 2305843009213693951) == mexp(996135644783289731, 559096694736811184, 8801162, 2305843009213693951),
{
    lemma_mexp_step(2172775062114915837, 1267668060077347163, 576792985062, 2305843009213693951, 2172775062114915837, 1416360387298873781, 288396492531);
    lemma_mexp_step(2172775062114915837, 1416360387298873781, 288396492531, 2305843009213693951, 740648307853614961, 1564471842796986341, 144198246265);
    lemma_mexp_step(740648307853614961, 1564471842796986341, 144198246265, 2305843009213693951, 2157897293943294161, 735250336065844589, 72099123132);
    lemma_mexp_step(2157897293943294161, 735250336065844589, 72099123132, 2305843009213693951, 2157897293943294161, 1488752000173493138, 36049561566);
    lemma_mexp_step(2157897293943294161, 1488752000173493138, 36049561566, 2305843009213693951, 2157897293943294161, 1320279768446765050, 18024780783);
    lemma_mexp_step(2157897293943294161, 1320279768446765050, 18024780783, 2305843009213693951, 873036954547835571, 1747983813596511721, 9012390391);
    lemma_mexp_step(873036954547835571, 1747983813596511721, 9012390391, 2305843009213693951, 1006152432302678382, 67869839423255989, 4506195195);
    lemma_mexp_step(1006152432302678382, 67869839423255989, 4506195195, 2305843009213693951, 1379814070211514848, 2164827040180914092, 2253097597);
    lemma_mexp_step(1379814070211514848, 2164827040180914092, 2253097597, 2305843009213693951, 1512981960342215391, 1744025871715016688, 1126548798);
    lemma_mexp_step(1512981960342215391, 1744025871715016688, 1126548798, 2305843009213693951, 1512981960342215391, 73251981582425893, 563274399);
    lemma_mexp_step(1512981960342215391, 73251981582425893, 563274399, 2305843009213693951, 1032967407543499584, 277374673314010419, 281637199);
    lemma_mexp_step(1032967407543499584, 277374673314010419, 281637199, 2305843009213693951, 870714888578255038, 92934223038987942, 140818599);
    lemma_mexp_step(870714888578255038, 92934223038987942, 140818599, 2305843009213693951, 2130731089583411519, 621132062226937276, 70409299);
    lemma_mexp_step(2130731089583411519, 621132062226937276, 70409299, 2305843009213693951, 2057762452460281693, 552523982103027780, 35204649);
    lemma_mexp_step(2057762452460281693, 552523982103027780, 35204649, 2305843009213693951, 996135644783289731, 1810209022387899939, 17602324);
    lemma_mexp_step(996135644783289731, 1810209022387899939, 17602324, 2305843009213693951, 996135644783289731, 559096694736811184, 8801162);
}

proof fn lemma_cert_61_2()
    ensures
        mexp(996135644783289731, 559096694736811184, 8801162, 2305843009213693951) == mexp(1900575679240290306, 1620384436148347606, 134, 2305843009213693951),
{
    lemma_mexp_step(996135644783289731, 559096694736811184, 8801162, 2305843009213693951, 996135644783289731, 711094314562858615, 4400581);
    lemma_mexp_step(996135644783289731, 711094314562858615, 4400581, 2305843009213693951, 2067765759301859896, 1622448854954581329, 2200290);
    lemma_mexp_step(2067765759301859896, 1622448854954581329, 2200290, 2305843009213693951, 2067765759301859896, 841055254665985916, 1100145);
    lemma_mexp_step(2067765759301859896, 841055254665985916, 1100145, 2305843009213693951, 1306177297803207315, 697959595997859570, 550072);
    lemma_mexp_step(1306177297803207315, 697959595997859570, 550072, 2305843009213693951, 1306177297803207315, 1808678955228361916, 275036);
    lemma_mexp_step(1306177297803207315, 1808678955228361916, 275036, 2305843009213693951, 1306177297803207315, 1904955967673210270, 137518);
    lemma_mexp_step(1306177297803207315, 1904955967673210270, 137518, 2305843009213693951, 1306177297803207315, 1826762296907946662, 68759);
    lemma_mexp_step(1306177297803207315, 1826762296907946662, 68759, 2305843009213693951, 1520601798470125097, 395654014531890260, 34379);
    lemma_mexp_step(1520601798470125097, 395654014531890260, 34379, 2305843009213693951, 689785477898067838, 1189103440328413580, 17189);
    lemma_mexp_step(689785477898067838, 1189103440328413580, 17189, 2305843009213693951, 76275593014220084, 1894874107849652993, 8594);
    lemma_mexp_step(76275593014220084, 1894874107849652993, 8594, 2305843009213693951, 76275593014220084, 302423639519868408, 4297);
    lemma_mexp_step(76275593014220084, 302423639519868408, 4297, 2305843009213693951, 367332631827724662, 512544735919841438, 2148);
    lemma_mexp_step(367332631827724662, 512544735919841438, 2148, 2305843009213693951, 367332631827724662, 994841178892020975, 1074);
    lemma_mexp_step(367332631827724662, 994841178892020975, 1074, 2305843009213693951, 367332631827724662, 1365841398988935179, 537);
    lemma_mexp_step(367332631827724662, 1365841398988935179, 537, 2305843009213693951, 1900575679240290306, 1389315537057605538, 268);
    lemma_mexp_step(1900575679240290306, 1389315537057605538, 268, 2305843009213693951, 1900575679240290306, 1620384436148347606, 134);
}

proof fn lemma_cert_61_3()
    ensures
        mexp(1900575679240290306, 1620384436148347606, 134, 2305843009213693951) == mexp(35184372088832, 1979613501565108617, 0, 2305843009213693951),
{
    lemma_mexp_step(1900575679240290306, 1620384436148347606, 134, 2305843009213693951, 1900575679240290306, 1236195944141684822, 67);
    lemma_mexp_step(1900575679240290306, 1236195944141684822, 67, 2305843009213693951, 1344429002430297912, 1927669204547316455, 33);
    lemma_mexp_step(1344429002430297912, 1927669204547316455, 33, 2305843009213693951, 634958472030472838, 1367449615347781359, 16);
    lemma_mexp_step(634958472030472838, 1367449615347781359, 16, 2305843009213693951, 634958472030472838, 1879906979325824564, 8);
    lemma_mexp_step(634958472030472838, 1879906979325824564, 8, 2305843009213693951, 634958472030472838, 655204990766260670, 4);
    lemma_mexp_step(634958472030472838, 655204990766260670, 4, 2305843009213693951, 634958472030472838, 617443249345278015, 2);
    lemma_mexp_step(634958472030472838, 617443249345278015, 2, 2305843009213693951, 634958472030472838, 93335154568859392, 1);
    lemma_mexp_step(634958472030472838, 93335154568859392, 1, 2305843009213693951, 35184372088832, 1979613501565108617, 0);
}

proof fn lemma_cert_61()
    ensures
        mexp(1, 37, 37800705069076950, 2305843009213693951) == 35184372088832,
{
    lemma_cert_61_0();
    lemma_cert_61_1();
    lemma_cert_61_2();
    lemma_cert_61_3();
    lemma_mexp_done(35184372088832, 1979613501565108617, 2305843009213693951);
}

proof fn lemma_cert_151_0()
    ensures
        mexp(1, 37, 15270483504726450, 2305843009213693951) == mexp(385245501143562693, 1267668060077347163, 233009086681, 2305843009213693951),
{
    lemma_mexp_step(1, 37, 15270483504726450, 2305843009213693951, 1, 1369, 7635241752363225);
    lemma_mexp_step(1, 1369, 7635241752363225, 2305843009213693951, 1369, 1874161, 3817620876181612);
    lemma_mexp_step(1369, 1874161, 3817620876181612, 2305843009213693951, 1369, 3512479453921, 1908810438090806);
    lemma_mexp_step(1369, 3512479453921, 1908810438090806, 2305843009213693951, 1369, 2048012909902302799, 954405219045403);
    lemma_mexp_step(1369, 2048012909902302799, 954405219045403, 2305843009213693951, 2130417461614381366, 307828676072022436, 477202609522701);
    lemma_mexp_step(2130417461614381366, 307828676072022436, 477202609522701, 2305843009213693951, 249845630697408639, 1530484379699738889, 238601304761350);
    lemma_mexp_step(249845630697408639, 1530484379699738889, 238601304761350, 2305843009213693951, 249845630697408639, 1671968728696755707, 119300652380675);
    lemma_mexp_step(249845630697408639, 1671968728696755707, 119300652380675, 2305843009213693951, 392527508777590087, 649718369440752735, 59650326190337);
    lemma_mexp_step(392527508777590087, 649718369440752735, 59650326190337, 2305843009213693951, 385245501143562693, 1874702330417107273, 29825163095168);
    lemma_mexp_step(385245501143562693, 1874702330417107273, 29825163095168, 2305843009213693951, 385245501143562693, 5986862548113618, 14912581547584);
    lemma_mexp_step(385245501143562693, 5986862548113618, 14912581547584, 2305843009213693951, 385245501143562693, 1820568710247692212, 7456290773792);
    lemma_mexp_step(385245501143562693, 1820568710247692212, 7456290773792, 2305843009213693951, 385245501143562693, 404534779322076428, 3728145386896);
    lemma_mexp_step(385245501143562693, 404534779322076428, 3728145386896, 2305843009213693951, 385245501143562693, 649492471404925175, 1864072693448);
    lemma_mexp_step(385245501143562693, 649492471404925175, 1864072693448, 2305843009213693951, 385245501143562693, 1106896147619454396, 932036346724);
    lemma_mexp_step(385245501143562693, 1106896147619454396, 932036346724, 2305843009213693951, 385245501143562693, 1669740733653474757, 466018173362);
    lemma_mexp_step(385245501143562693, 1669740733653474757, 466018173362, 2305843009213693951, 385245501143562693, 1267668060077347163, 233009086681);
}

proof fn lemma_cert_151_1()
    ensures
        mexp(385245501143562693, 1267668060077347163, 233009086681, 2305843009213693951) == mexp(2295546662943157962, 559096694736811184, 3555436, 2305843009213693951),
{
    lemma_mexp_step(385245501143562693, 1267668060077347163, 233009086681, 2305843009213693951, 307219658801009643, 1416360387298873781, 116504543340);
    lemma_mexp_step(307219658801009643, 1416360387298873781, 116504543340, 2305843009213693951, 307219658801009643, 1564471842796986341, 58252271670);
    lemma_mexp_step(307219658801009643, 1564471842796986341, 58252271670, 2305843009213693951, 307219658801009643, 735250336065844589, 29126135835);
    lemma_mexp_step(307219658801009643, 735250336065844589, 29126135835, 2305843009213693951, 1161788481898587841, 1488752000173493138, 14563067917);
    lemma_mexp_step(1161788481898587841, 1488752000173493138, 14563067917, 2305843009213693951, 648866077819329632, 1320279768446765050, 7281533958);
    lemma_mexp_step(648866077819329632, 1320279768446765050, 7281533958, 2305843009213693951, 648866077819329632, 1747983813596511721, 3640766979);
    lemma_mexp_step(648866077819329632, 1747983813596511721, 3640766979, 2305843009213693951, 1314989024157789811, 67869839423255989, 1820383489);
    lemma_mexp_step(1314989024157789811, 67869839423255989, 1820383489, 2305843009213693951, 1720169769625558843, 2164827040180914092, 910191744);
    lemma_mexp_step(1720169769625558843, 2164827040180914092, 910191744, 2305843009213693951, 1720169769625558843, 1744025871715016688, 455095872);
    lemma_mexp_step(1720169769625558843, 1744025871715016688, 455095872, 2305843009213693951, 1720169769625558843, 73251981582425893, 227547936);
    lemma_mexp_step(1720169769625558843, 73251981582425893, 227547936, 2305843009213693951, 1720169769625558843, 277374673314010419, 113773968);
    lemma_mexp_step(1720169769625558843, 277374673314010419, 113773968, 2305843009213693951, 1720169769625558843, 92934223038987942, 56886984);
    lemma_mexp_step(1720169769625558843, 92934223038987942, 56886984, 2305843009213693951, 1720169769625558843, 621132062226937276, 28443492);
    lemma_mexp_step(1720169769625558843, 621132062226937276, 28443492, 2305843009213693951, 1720169769625558843, 552523982103027780, 14221746);
    lemma_mexp_step(1720169769625558843, 552523982103027780, 14221746, 2305843009213693951, 1720169769625558843, 1810209022387899939, 7110873);
    lemma_mexp_step(1720169769625558843, 1810209022387899939, 7110873, 2305843009213693951, 2295546662943157962, 559096694736811184, 3555436);
}

proof fn lemma_cert_151_2()
    ensures
        mexp(2295546662943157962, 559096694736811184, 3555436, 2305843009213693951) == mexp(465128821528713895, 1620384436148347606, 54, 2305843009213693951),
{
    lemma_mexp_step(2295546662943157962, 559096694736811184, 3555436, 2305843009213693951, 2295546662943157962, 711094314562858615, 1777718);
    lemma_mexp_step(2295546662943157962, 711094314562858615, 1777718, 2305843009213693951, 2295546662943157962, 1622448854954581329, 888859);
    lemma_mexp_step(2295546662943157962, 1622448854954581329, 888859, 2305843009213693951, 814358361345343254, 841055254665985916, 444429);
    lemma_mexp_step(814358361345343254, 841055254665985916, 444429, 2305843009213693951, 2048789863113882943, 697959595997859570, 222214);
    lemma_mexp_step(2048789863113882943, 697959595997859570, 222214, 2305843009213693951, 2048789863113882943, 1808678955228361916, 111107);
    lemma_mexp_step(2048789863113882943, 1808678955228361916, 111107, 2305843009213693951, 1416427980868004806, 1904955967673210270, 55553);
    lemma_mexp_step(1416427980868004806, 1904955967673210270, 55553, 2305843009213693951, 1105655107239133538, 1826762296907946662, 27776);
    lemma_mexp_step(1105655107239133538, 1826762296907946662, 27776, 2305843009213693951, 1105655107239133538, 395654014531890260, 13888);
    lemma_mexp_step(1105655107239133538, 395654014531890260, 13888, 2305843009213693951, 1105655107239133538, 1189103440328413580, 6944);
    lemma_mexp_step(1105655107239133538, 1189103440328413580, 6944, 2305843009213693951, 1105655107239133538, 1894874107849652993, 3472);
    lemma_mexp_step(1105655107239133538, 1894874107849652993, 3472, 2305843009213693951, 1105655107239133538, 302423639519868408, 1736);
    lemma_mexp_step(1105655107239133538, 302423639519868408, 1736, 2305843009213693951, 1105655107239133538, 512544735919841438, 868);
    lemma_mexp_step(1105655107239133538, 512544735919841438, 868, 2305843009213693951, 1105655107239133538, 994841178892020975, 434);
    lemma_mexp_step(1105655107239133538, 994841178892020975, 434, 2305843009213693951, 1105655107239133538, 1365841398988935179, 217);
    lemma_mexp_step(1105655107239133538, 1365841398988935179, 217, 2305843009213693951, 465128821528713895, 1389315537057605538, 108);
    lemma_mexp_step(465128821528713895, 1389315537057605538, 108, 2305843009213693951, 465128821528713895, 1620384436148347606, 54);
}

proof fn lemma_cert_151_3()
    ensures
        mexp(465128821528713895, 1620384436148347606, 54, 2305843009213693951) == mexp(1433721343585656393, 617443249345278015, 0, 2305843009213693951),
{
    lemma_mexp_step(465128821528713895, 1620384436148347606, 54, 2305843009213693951, 465128821528713895, 1236195944141684822, 27);
    lemma_mexp_step(465128821528713895, 1236195944141684822, 27, 2305843009213693951, 1958118171836596154, 1927669204547316455, 13);
    lemma_mexp_step(1958118171836596154, 1927669204547316455, 13, 2305843009213693951, 2209437298017904873, 1367449615347781359, 6);
    lemma_mexp_step(2209437298017904873, 1367449615347781359, 6, 2305843009213693951, 2209437298017904873, 1879906979325824564, 3);
    lemma_mexp_step(2209437298017904873, 1879906979325824564, 3, 2305843009213693951, 284650970355528153, 655204990766260670, 1);
    lemma_mexp_step(284650970355528153, 655204990766260670, 1, 2305843009213693951, 1433721343585656393, 617443249345278015, 0);
}

proof fn lemma_cert_151()
    ensures
        mexp(1, 37, 15270483504726450, 2305843009213693951) == 1433721343585656393,
{
    lemma_cert_151_0();
    lemma_cert_151_1();
    lemma_cert_151_2();
    lemma_cert_151_3();
    lemma_mexp_done(1433721343585656393, 617443249345278015, 2305843009213693951);
}

proof fn lemma_cert_331_0()
    ensures
        mexp(1, 37, 6966293079195450, 2305843009213693951) == mexp(1973984550836539065, 1267668060077347163, 106297196642, 2305843009213693951),
{
    lemma_mexp_step(1, 37, 6966293079195450, 2305843009213693951, 1, 1369, 3483146539597725);
    lemma_mexp_step(1, 1369, 3483146539597725, 2305843009213693951, 1369, 1874161, 1741573269798862);
    lemma_mexp_step(1369, 1874161, 1741573269798862, 2305843009213693951, 1369, 3512479453921, 870786634899431);
    lemma_mexp_step(1369, 3512479453921, 870786634899431, 2305843009213693951, 4808584372417849, 2048012909902302799, 435393317449715);
    lemma_mexp_step(4808584372417849, 2048012909902302799, 435393317449715, 2305843009213693951, 1591872098300023439, 307828676072022436, 217696658724857);
    lemma_mexp_step(1591872098300023439, 307828676072022436, 217696658724857, 2305843009213693951, 1126684292079557353, 1530484379699738889, 108848329362428);
    lemma_mexp_step(1126684292079557353, 1530484379699738889, 108848329362428, 2305843009213693951, 1126684292079557353, 1671968728696755707, 54424164681214);
    lemma_mexp_step(1126684292079557353, 1671968728696755707, 54424164681214, 2305843009213693951, 1126684292079557353, 649718369440752735, 27212082340607);
    lemma_mexp_step(1126684292079557353, 649718369440752735, 27212082340607, 2305843009213693951, 224577215945232048, 1874702330417107273, 13606041170303);
    lemma_mexp_step(224577215945232048, 1874702330417107273, 13606041170303, 2305843009213693951, 887359373644920795, 5986862548113618, 6803020585151);
    lemma_mexp_step(887359373644920795, 5986862548113618, 6803020585151, 2305843009213693951, 1544616741309869210, 1820568710247692212, 3401510292575);
    lemma_mexp_step(1544616741309869210, 1820568710247692212, 3401510292575, 2305843009213693951, 1580623574009323743, 404534779322076428, 1700755146287);
    lemma_mexp_step(1580623574009323743, 404534779322076428, 1700755146287, 2305843009213693951, 2176375481315125233, 649492471404925175, 850377573143);
    lemma_mexp_step(2176375481315125233, 649492471404925175, 850377573143, 2305843009213693951, 553669058761854853, 1106896147619454396, 425188786571);
    lemma_mexp_step(553669058761854853, 1106896147619454396, 425188786571, 2305843009213693951, 727568339485828514, 1669740733653474757, 212594393285);
    lemma_mexp_step(727568339485828514, 1669740733653474757, 212594393285, 2305843009213693951, 1973984550836539065, 1267668060077347163, 106297196642);
}

proof fn lemma_cert_331_1()
    ensures
        mexp(1973984550836539065, 1267668060077347163, 106297196642, 2305843009213693951) == mexp(537294230984100568, 559096694736811184, 1621966, 2305843009213693951),
{
    lemma_mexp_step(1973984550836539065, 1267668060077347163, 106297196642, 2305843009213693951, 1973984550836539065, 1416360387298873781, 53148598321);
    lemma_mexp_step(1973984550836539065, 1416360387298873781, 53148598321, 2305843009213693951, 1720615665876457081, 1564471842796986341, 26574299160);
    lemma_mexp_step(1720615665876457081, 1564471842796986341, 26574299160, 2305843009213693951, 1720615665876457081, 735250336065844589, 13287149580);
    lemma_mexp_step(1720615665876457081, 735250336065844589, 13287149580, 2305843009213693951, 1720615665876457081, 1488752000173493138, 6643574790);
    lemma_mexp_step(1720615665876457081, 1488752000173493138, 6643574790, 2305843009213693951, 1720615665876457081, 1320279768446765050, 3321787395);
    lemma_mexp_step(1720615665876457081, 1320279768446765050, 3321787395, 2305843009213693951, 1388294078793050986, 1747983813596511721, 1660893697);
    lemma_mexp_step(1388294078793050986, 1747983813596511721, 1660893697, 2305843009213693951, 887286010314584401, 67869839423255989, 830446848);
    lemma_mexp_step(887286010314584401, 67869839423255989, 830446848, 2305843009213693951, 887286010314584401, 2164827040180914092, 415223424);
    lemma_mexp_step(887286010314584401, 2164827040180914092, 415223424, 2305843009213693951, 887286010314584401, 1744025871715016688, 207611712);
    lemma_mexp_step(887286010314584401, 1744025871715016688, 207611712, 2305843009213693951, 887286010314584401, 73251981582425893, 103805856);
    lemma_mexp_step(887286010314584401, 73251981582425893, 103805856, 2305843009213693951, 887286010314584401, 277374673314010419, 51902928);
    lemma_mexp_step(887286010314584401, 277374673314010419, 51902928, 2305843009213693951, 887286010314584401, 92934223038987942, 25951464);
    lemma_mexp_step(887286010314584401, 92934223038987942, 25951464, 2305843009213693951, 887286010314584401, 621132062226937276, 12975732);
    lemma_mexp_step(887286010314584401, 621132062226937276, 12975732, 2305843009213693951, 887286010314584401, 552523982103027780, 6487866);
    lemma_mexp_step(887286010314584401, 552523982103027780, 6487866, 2305843009213693951, 887286010314584401, 1810209022387899939, 3243933);
    lemma_mexp_step(887286010314584401, 1810209022387899939, 3243933, 2305843009213693951, 537294230984100568, 559096694736811184, 1621966);
}

proof fn lemma_cert_331_2()
    ensures
        mexp(537294230984100568, 559096694736811184, 1621966, 2305843009213693951) == mexp(932172981568384550, 1620384436148347606, 24, 2305843009213693951),
{
    lemma_mexp_step(537294230984100568, 559096694736811184, 1621966, 2305843009213693951, 537294230984100568, 711094314562858615, 810983);
    lemma_mexp_step(537294230984100568, 711094314562858615, 810983, 2305843009213693951, 632480171105578174, 1622448854954581329, 405491);
    lemma_mexp_step(632480171105578174, 1622448854954581329, 405491, 2305843009213693951, 367049661777096828, 841055254665985916, 202745);
    lemma_mexp_step(367049661777096828, 841055254665985916, 202745, 2305843009213693951, 1921384202472941375, 697959595997859570, 101372);
    lemma_mexp_step(1921384202472941375, 697959595997859570, 101372, 2305843009213693951, 1921384202472941375, 1808678955228361916, 50686);
    lemma_mexp_step(1921384202472941375, 1808678955228361916, 50686, 2305843009213693951, 1921384202472941375, 1904955967673210270, 25343);
    lemma_mexp_step(1921384202472941375, 1904955967673210270, 25343, 2305843009213693951, 1242692106502625986, 1826762296907946662, 12671);
    lemma_mexp_step(1242692106502625986, 1826762296907946662, 12671, 2305843009213693951, 829435589309402680, 395654014531890260, 6335);
    lemma_mexp_step(829435589309402680, 395654014531890260, 6335, 2305843009213693951, 189165604016759706, 1189103440328413580, 3167);
    lemma_mexp_step(189165604016759706, 1189103440328413580, 3167, 2305843009213693951, 2221296080367380232, 1894874107849652993, 1583);
    lemma_mexp_step(2221296080367380232, 1894874107849652993, 1583, 2305843009213693951, 852650807516129592, 302423639519868408, 791);
    lemma_mexp_step(852650807516129592, 302423639519868408, 791, 2305843009213693951, 1820399089302464761, 512544735919841438, 395);
    lemma_mexp_step(1820399089302464761, 512544735919841438, 395, 2305843009213693951, 261176380092552325, 994841178892020975, 197);
    lemma_mexp_step(261176380092552325, 994841178892020975, 197, 2305843009213693951, 1105878798751416266, 1365841398988935179, 98);
    lemma_mexp_step(1105878798751416266, 1365841398988935179, 98, 2305843009213693951, 1105878798751416266, 1389315537057605538, 49);
    lemma_mexp_step(1105878798751416266, 1389315537057605538, 49, 2305843009213693951, 932172981568384550, 1620384436148347606, 24);
}

proof fn lemma_cert_331_3()
    ensures
        mexp(932172981568384550, 1620384436148347606, 24, 2305843009213693951) == mexp(185945230422323302, 655204990766260670, 0, 2305843009213693951),
{
    lemma_mexp_step(932172981568384550, 1620384436148347606, 24, 2305843009213693951, 932172981568384550, 1236195944141684822, 12);
    lemma_mexp_step(932172981568384550, 1236195944141684822, 12, 2305843009213693951, 932172981568384550, 1927669204547316455, 6);
    lemma_mexp_step(932172981568384550, 1927669204547316455, 6, 2305843009213693951, 932172981568384550, 1367449615347781359, 3);
    lemma_mexp_step(932172981568384550, 1367449615347781359, 3, 2305843009213693951, 1344828471283344800, 1879906979325824564, 1);
    lemma_mexp_step(1344828471283344800, 1879906979325824564, 1, 2305843009213693951, 185945230422323302, 655204990766260670, 0);
}

proof fn lemma_cert_331()
    ensures
        mexp(1, 37, 6966293079195450, 2305843009213693951) == 185945230422323302,
{
    lemma_cert_331_0();
    lemma_cert_331_1();
    lemma_cert_331_2();
    lemma_cert_331_3();
    lemma_mexp_done(185945230422323302, 655204990766260670, 2305843009213693951);
}

proof fn lemma_cert_1321_0()
    ensures
        mexp(1, 37, 1745528394559950, 2305843009213693951) == mexp(221226452411025323, 1267668060077347163, 26634649575, 2305843009213693951),
{
    lemma_mexp_step(1, 37, 1745528394559950, 2305843009213693951, 1, 1369, 872764197279975);
    lemma_mexp_step(1, 1369, 872764197279975, 2305843009213693951, 1369, 1874161, 436382098639987);
    lemma_mexp_step(1369, 1874161, 436382098639987, 2305843009213693951, 2565726409, 3512479453921, 218191049319993);
    lemma_mexp_step(2565726409, 3512479453921, 218191049319993, 2305843009213693951, 826815987892339181, 2048012909902302799, 109095524659996);
    lemma_mexp_step(826815987892339181, 2048012909902302799, 109095524659996, 2305843009213693951, 826815987892339181, 307828676072022436, 54547762329998);
    lemma_mexp_step(826815987892339181, 307828676072022436, 54547762329998, 2305843009213693951, 826815987892339181, 1530484379699738889, 27273881164999);
    lemma_mexp_step(826815987892339181, 1530484379699738889, 27273881164999, 2305843009213693951, 1833824407774758982, 1671968728696755707, 13636940582499);
    lemma_mexp_step(1833824407774758982, 1671968728696755707, 13636940582499, 2305843009213693951, 556391699408490751, 649718369440752735, 6818470291249);
    lemma_mexp_step(556391699408490751, 649718369440752735, 6818470291249, 2305843009213693951, 2106191789590599397, 1874702330417107273, 3409235145624);
    lemma_mexp_step(2106191789590599397, 1874702330417107273, 3409235145624, 2305843009213693951, 2106191789590599397, 5986862548113618, 1704617572812);
    lemma_mexp_step(2106191789590599397, 5986862548113618, 1704617572812, 2305843009213693951, 2106191789590599397, 1820568710247692212, 852308786406);
    lemma_mexp_step(2106191789590599397, 1820568710247692212, 852308786406, 2305843009213693951, 2106191789590599397, 404534779322076428, 426154393203);
    lemma_mexp_step(2106191789590599397, 404534779322076428, 426154393203, 2305843009213693951, 464600954618157359, 649492471404925175, 213077196601);
    lemma_mexp_step(464600954618157359, 649492471404925175, 213077196601, 2305843009213693951, 221226452411025323, 1106896147619454396, 106538598300);
    lemma_mexp_step(221226452411025323, 1106896147619454396, 106538598300, 2305843009213693951, 221226452411025323, 1669740733653474757, 53269299150);
    lemma_mexp_step(221226452411025323, 1669740733653474757, 53269299150, 2305843009213693951, 221226452411025323, 1267668060077347163, 26634649575);
}

proof fn lemma_cert_1321_1()
    ensures
        mexp(221226452411025323, 1267668060077347163, 26634649575, 2305843009213693951) == mexp(1895803512223422501, 559096694736811184, 406412, 2305843009213693951),
{
    lemma_mexp_step(221226452411025323, 1267668060077347163, 26634649575, 2305843009213693951, 2211114583176025017, 1416360387298873781, 13317324787);
    lemma_mexp_step(2211114583176025017, 1416360387298873781, 13317324787, 2305843009213693951, 2009660494449564144, 1564471842796986341, 6658662393);
    lemma_mexp_step(2009660494449564144, 1564471842796986341, 6658662393, 2305843009213693951, 142217442796769785, 735250336065844589, 3329331196);
    lemma_mexp_step(142217442796769785, 735250336065844589, 3329331196, 2305843009213693951, 142217442796769785, 1488752000173493138, 1664665598);
    lemma_mexp_step(142217442796769785, 1488752000173493138, 1664665598, 2305843009213693951, 142217442796769785, 1320279768446765050, 832332799);
    lemma_mexp_step(142217442796769785, 1320279768446765050, 832332799, 2305843009213693951, 398221275092004434, 1747983813596511721, 416166399);
    lemma_mexp_step(398221275092004434, 1747983813596511721, 416166399, 2305843009213693951, 1968330314576340589, 67869839423255989, 208083199);
    lemma_mexp_step(1968330314576340589, 67869839423255989, 208083199, 2305843009213693951, 1330759880958988198, 2164827040180914092, 104041599);
    lemma_mexp_step(1330759880958988198, 2164827040180914092, 104041599, 2305843009213693951, 1736964179067542995, 1744025871715016688, 52020799);
    lemma_mexp_step(1736964179067542995, 1744025871715016688, 52020799, 2305843009213693951, 36873678529172721, 73251981582425893, 26010399);
    lemma_mexp_step(36873678529172721, 73251981582425893, 26010399, 2305843009213693951, 1901933387518592636, 277374673314010419, 13005199);
    lemma_mexp_step(1901933387518592636, 277374673314010419, 13005199, 2305843009213693951, 1709811750032571364, 92934223038987942, 6502599);
    lemma_mexp_step(1709811750032571364, 92934223038987942, 6502599, 2305843009213693951, 539579304985060697, 621132062226937276, 3251299);
    lemma_mexp_step(539579304985060697, 621132062226937276, 3251299, 2305843009213693951, 1083692339479703106, 552523982103027780, 1625649);
    lemma_mexp_step(1083692339479703106, 552523982103027780, 1625649, 2305843009213693951, 1895803512223422501, 1810209022387899939, 812824);
    lemma_mexp_step(1895803512223422501, 1810209022387899939, 812824, 2305843009213693951, 1895803512223422501, 559096694736811184, 406412);
}

proof fn lemma_cert_1321_2()
    ensures
        mexp(1895803512223422501, 559096694736811184, 406412, 2305843009213693951) == mexp(1490569835919709067, 1620384436148347606, 6, 2305843009213693951),
{
    lemma_mexp_step(1895803512223422501, 559096694736811184, 406412, 2305843009213693951, 1895803512223422501, 711094314562858615, 203206);
    lemma_mexp_step(1895803512223422501, 711094314562858615, 203206, 2305843009213693951, 1895803512223422501, 1622448854954581329, 101603);
    lemma_mexp_step(1895803512223422501, 1622448854954581329, 101603, 2305843009213693951, 2181874929684966907, 841055254665985916, 50801);
    lemma_mexp_step(2181874929684966907, 841055254665985916, 50801, 2305843009213693951, 2026845827230432054, 697959595997859570, 25400);
    lemma_mexp_step(2026845827230432054, 697959595997859570, 25400, 2305843009213693951, 2026845827230432054, 1808678955228361916, 12700);
    lemma_mexp_step(2026845827230432054, 1808678955228361916, 12700, 2305843009213693951, 2026845827230432054, 1904955967673210270, 6350);
    lemma_mexp_step(2026845827230432054, 1904955967673210270, 6350, 2305843009213693951, 2026845827230432054, 1826762296907946662, 3175);
    lemma_mexp_step(2026845827230432054, 1826762296907946662, 3175, 2305843009213693951, 69868381773907631, 395654014531890260, 1587);
    lemma_mexp_step(69868381773907631, 395654014531890260, 1587, 2305843009213693951, 1668670844700376926, 1189103440328413580, 793);
    lemma_mexp_step(1668670844700376926, 1189103440328413580, 793, 2305843009213693951, 1903516142379155329, 1894874107849652993, 396);
    lemma_mexp_step(1903516142379155329, 1894874107849652993, 396, 2305843009213693951, 1903516142379155329, 302423639519868408, 198);
    lemma_mexp_step(1903516142379155329, 302423639519868408, 198, 2305843009213693951, 1903516142379155329, 512544735919841438, 99);
    lemma_mexp_step(1903516142379155329, 512544735919841438, 99, 2305843009213693951, 23715402992083512, 994841178892020975, 49);
    lemma_mexp_step(23715402992083512, 994841178892020975, 49, 2305843009213693951, 1490569835919709067, 1365841398988935179, 24);
    lemma_mexp_step(1490569835919709067, 1365841398988935179, 24, 2305843009213693951, 1490569835919709067, 1389315537057605538, 12);
    lemma_mexp_step(1490569835919709067, 1389315537057605538, 12, 2305843009213693951, 1490569835919709067, 1620384436148347606, 6);
}

proof fn lemma_cert_1321_3()
    ensures
        mexp(1490569835919709067, 1620384436148347606, 6, 2305843009213693951) == mexp(30210013857155493, 1367449615347781359, 0, 2305843009213693951),
{
    lemma_mexp_step(1490569835919709067, 1620384436148347606, 6, 2305843009213693951, 1490569835919709067, 1236195944141684822, 3);
    lemma_mexp_step(1490569835919709067, 1236195944141684822, 3, 2305843009213693951, 107019941880098686, 1927669204547316455, 1);
    lemma_mexp_step(107019941880098686, 1927669204547316455, 1, 2305843009213693951, 30210013857155493, 1367449615347781359, 0);
}

proof fn lemma_cert_1321()
    ensures
        mexp(1, 37, 1745528394559950, 2305843009213693951) == 30210013857155493,
{
    lemma_cert_1321_0();
    lemma_cert_1321_1();
    lemma_cert_1321_2();
    lemma_cert_1321_3();
    lemma_mexp_done(30210013857155493, 1367449615347781359, 2305843009213693951);
}

} // verus!
