//! Integers modulo a number.
use vstd::arithmetic::div_mod::*;
use vstd::arithmetic::mul::*;
use vstd::prelude::*;

verus! {

/// Two integers leave the same remainder by `m`.
pub open spec fn congruent(a: int, b: int, m: int) -> bool {
    a % m == b % m
}

/// The fifth power.
pub open spec fn pow5(x: int) -> int {
    x * x * (x * x) * x
}

/// A number above one with no divisor but one and itself.
pub open spec fn is_prime(p: int) -> bool {
    p > 1 && forall|d: int| 1 < d < p ==> #[trigger] (p % d) != 0
}

/// A product with `x` is zero only where `x` or the other factor is.
pub open spec fn cancels(x: int, m: int) -> bool {
    forall|y: int| #[trigger]
        congruent(x * y, 0, m) ==> congruent(x, 0, m) || congruent(y, 0, m)
}

/// Sums of congruent numbers are congruent.
pub(crate) proof fn lemma_sum(a: int, b: int, c: int, d: int, m: int)
    requires
        m > 0,
        congruent(a, b, m),
        congruent(c, d, m),
    ensures
        congruent(a + c, b + d, m),
{
    lemma_add_mod_noop(a, c, m);
    lemma_add_mod_noop(b, d, m);
}

/// Differences of congruent numbers are congruent.
pub(crate) proof fn lemma_difference(a: int, b: int, c: int, d: int, m: int)
    requires
        m > 0,
        congruent(a, b, m),
        congruent(c, d, m),
    ensures
        congruent(a - c, b - d, m),
{
    lemma_sub_mod_noop(a, c, m);
    lemma_sub_mod_noop(b, d, m);
}

/// Products of congruent numbers are congruent.
pub(crate) proof fn lemma_product(a: int, b: int, c: int, d: int, m: int)
    requires
        m > 0,
        congruent(a, b, m),
        congruent(c, d, m),
    ensures
        congruent(a * c, b * d, m),
{
    lemma_mul_mod_noop(a, c, m);
    lemma_mul_mod_noop(b, d, m);
}

/// Fifth powers of congruent numbers are congruent.
pub(crate) proof fn lemma_pow5(a: int, b: int, m: int)
    requires
        m > 0,
        congruent(a, b, m),
    ensures
        congruent(pow5(a), pow5(b), m),
{
    lemma_product(a, b, a, b, m);
    lemma_product(a * a, b * b, a * a, b * b, m);
    lemma_product(a * a * (a * a), b * b * (b * b), a, b, m);
}

/// A difference is congruent to zero exactly when its terms are congruent.
pub(crate) proof fn lemma_equal(a: int, b: int, m: int)
    requires
        m > 0,
    ensures
        congruent(a - b, 0, m) <==> congruent(a, b, m),
{
    lemma_small_mod(0, m as nat);
    if congruent(a - b, 0, m) {
        lemma_sum(a - b, 0, b, b, m);
    }
    if congruent(a, b, m) {
        lemma_difference(a, b, b, b, m);
    }
}

/// A remainder is congruent to the number.
pub(crate) proof fn lemma_remainder(a: int, m: int)
    requires
        m > 0,
    ensures
        congruent(a % m, a, m),
{
    lemma_mod_twice(a, m);
}

/// A multiple is congruent to zero.
pub(crate) proof fn lemma_multiple(k: int, a: int, m: int)
    requires
        m > 0,
        congruent(a, 0, m),
    ensures
        congruent(k * a, 0, m),
{
    lemma_product(k, k, a, 0, m);
}

/// Euclid's lemma: a prime that divides a product divides a factor.
pub(crate) proof fn lemma_prime_divides(p: int, a: int, b: int)
    requires
        is_prime(p),
        congruent(a * b, 0, p),
    ensures
        congruent(a, 0, p) || congruent(b, 0, p),
{
    lemma_small_mod(0, p as nat);
    let r = a % p;
    lemma_remainder(a, p);
    lemma_product(r, a, b, b, p);
    if r != 0 {
        lemma_mod_bound(a, p);
        lemma_prime_divides_small(p, r, b);
    }
}

proof fn lemma_prime_divides_small(p: int, a: int, b: int)
    requires
        is_prime(p),
        0 < a < p,
        congruent(a * b, 0, p),
    ensures
        congruent(b, 0, p),
    decreases a,
{
    if a == 1 {
        lemma_mul_basics(b);
    } else {
        let q = p / a;
        let r = p % a;
        lemma_fundamental_div_mod(p, a);
        lemma_mod_bound(p, a);
        assert(r != 0);
        assert(r * b == b * p - q * (a * b)) by (nonlinear_arith)
            requires
                p == a * q + r,
        ;
        lemma_multiple(q, a * b, p);
        lemma_mod_multiples_basic(b, p);
        lemma_small_mod(0, p as nat);
        lemma_difference(b * p, 0, q * (a * b), 0, p);
        lemma_prime_divides_small(p, r, b);
    }
}

/// Modulo a prime, a product is zero only where a factor is.
pub proof fn law_prime_cancels(p: int, x: int)
    requires
        is_prime(p),
    ensures
        cancels(x, p),
{
    assert forall|y: int| #[trigger] congruent(x * y, 0, p) implies congruent(x, 0, p)
        || congruent(y, 0, p) by {
        lemma_prime_divides(p, x, y);
    }
}

/// A product with a number that has an inverse is zero only where the other factor is.
pub(crate) proof fn lemma_unit_cancels(x: int, inverse: int, m: int)
    requires
        m > 0,
        congruent(x * inverse, 1, m),
    ensures
        cancels(x, m),
{
    assert forall|y: int| #[trigger] congruent(x * y, 0, m) implies congruent(x, 0, m)
        || congruent(y, 0, m) by {
        lemma_multiple(inverse, x * y, m);
        lemma_product(x * inverse, 1, y, y, m);
        assert(inverse * (x * y) == x * inverse * y) by (nonlinear_arith);
    }
}

/// What cancels a number cancels every congruent one.
pub(crate) proof fn lemma_cancels_congruent(x: int, z: int, m: int)
    requires
        m > 0,
        congruent(x, z, m),
        cancels(x, m),
    ensures
        cancels(z, m),
{
    assert forall|y: int| #[trigger] congruent(z * y, 0, m) implies congruent(z, 0, m)
        || congruent(y, 0, m) by {
        lemma_product(x, z, y, y, m);
        assert(congruent(x * y, 0, m));
    }
}

} // verus!
