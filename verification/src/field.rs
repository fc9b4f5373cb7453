//! Prime fields as the tree and the circuits use them.
//!
//! A field element stands for a residue: [`PrimeField::value`] is its least
//! representative and [`PrimeField::of_int`] the element of an integer. Every
//! operation is stated over these two.
use vstd::arithmetic::div_mod::*;
use vstd::prelude::*;

use crate::residue;

verus! {

/// The integer that a little-endian byte string writes down.
pub open spec fn le_value(bytes: Seq<u8>) -> nat
    decreases bytes.len(),
{
    if bytes.len() == 0 {
        0
    } else {
        bytes[0] as nat + 256 * le_value(bytes.drop_first())
    }
}

/// The integers modulo `modulus()`.
///
/// The interface asks for a ring of residues in which every element other than zero that
/// `invert` is given has an inverse; results that need the modulus to be prime say so.
pub trait PrimeField: Copy + Send + Sync {
    /// The number of elements of the field.
    spec fn modulus() -> int;

    /// The least non-negative integer that the element stands for.
    spec fn value(self) -> int;

    /// The element that stands for the integer `n`.
    spec fn of_int(n: int) -> Self;

    /// There are at least two elements.
    proof fn lemma_modulus()
        ensures
            Self::modulus() > 1,
    ;

    /// `of_int` reduces modulo `modulus()`.
    proof fn lemma_of_int(n: int)
        ensures
            Self::of_int(n).value() == n % Self::modulus(),
    ;

    /// An element is determined by its value.
    proof fn lemma_value_injective(a: Self, b: Self)
        requires
            a.value() == b.value(),
        ensures
            a == b,
    ;

    /// The additive identity.
    fn zero() -> (r: Self)
        ensures
            r == Self::of_int(0),
            r.value() == 0,
    ;

    /// The multiplicative identity.
    fn one() -> (r: Self)
        ensures
            r == Self::of_int(1),
            r.value() == 1,
    ;

    /// The element of a machine integer.
    fn from_u64(n: u64) -> (r: Self)
        ensures
            r == Self::of_int(n as int),
            r.value() == (n as int) % Self::modulus(),
    ;

    /// The element of a 512-bit little-endian integer.
    fn from_uniform_bytes(bytes: &[u8; 64]) -> (r: Self)
        ensures
            r == Self::of_int(le_value(bytes@) as int),
            r.value() == (le_value(bytes@) as int) % Self::modulus(),
    ;

    /// The sum of two elements.
    fn plus(self, other: Self) -> (r: Self)
        ensures
            r == Self::of_int(self.value() + other.value()),
            r.value() == (self.value() + other.value()) % Self::modulus(),
    ;

    /// The difference of two elements.
    fn minus(self, other: Self) -> (r: Self)
        ensures
            r == Self::of_int(self.value() - other.value()),
            r.value() == (self.value() - other.value()) % Self::modulus(),
    ;

    /// The product of two elements.
    fn times(self, other: Self) -> (r: Self)
        ensures
            r == Self::of_int(self.value() * other.value()),
            r.value() == (self.value() * other.value()) % Self::modulus(),
    ;

    /// The multiplicative inverse; zero has none.
    fn invert(self) -> (r: Option<Self>)
        ensures
            r is None <==> self == Self::of_int(0),
            r matches Some(inverse) ==> Self::of_int(self.value() * inverse.value())
                == Self::of_int(1),
    ;

    /// Whether two elements are the same. The values of elements are least representatives.
    fn equals(&self, other: &Self) -> (r: bool)
        ensures
            r == (*self == *other),
            0 <= self.value() < Self::modulus(),
            0 <= other.value() < Self::modulus(),
    ;
}

/// Congruent integers stand for one element.
pub(crate) proof fn lemma_congruent<F: PrimeField>(a: int, b: int)
    requires
        a % F::modulus() == b % F::modulus(),
    ensures
        F::of_int(a) == F::of_int(b),
{
    F::lemma_of_int(a);
    F::lemma_of_int(b);
    F::lemma_value_injective(F::of_int(a), F::of_int(b));
}

/// A factor may be reduced before it is multiplied.
pub(crate) proof fn lemma_times_absorbs<F: PrimeField>(a: int, b: int)
    ensures
        F::of_int(F::of_int(a).value() * b) == F::of_int(a * b),
{
    F::lemma_modulus();
    F::lemma_of_int(a);
    lemma_mul_mod_noop_left(a, b, F::modulus());
    lemma_congruent::<F>((a % F::modulus()) * b, a * b);
}

/// A summand may be reduced before it is added.
pub(crate) proof fn lemma_plus_absorbs<F: PrimeField>(a: int, b: int)
    ensures
        F::of_int(F::of_int(a).value() + b) == F::of_int(a + b),
{
    F::lemma_modulus();
    F::lemma_of_int(a);
    lemma_add_mod_noop(a, b, F::modulus());
    lemma_add_mod_noop(a % F::modulus(), b, F::modulus());
    lemma_mod_twice(a, F::modulus());
    lemma_congruent::<F>(a % F::modulus() + b, a + b);
}

/// The sum of two elements is the element of the sum.
pub(crate) proof fn lemma_plus_of_int<F: PrimeField>(a: int, b: int)
    ensures
        F::of_int(F::of_int(a).value() + F::of_int(b).value()) == F::of_int(a + b),
{
    lemma_plus_absorbs::<F>(a, F::of_int(b).value());
    lemma_plus_absorbs::<F>(b, a);
}

/// The product of two elements is the element of the product.
pub(crate) proof fn lemma_times_of_int<F: PrimeField>(a: int, b: int)
    ensures
        F::of_int(F::of_int(a).value() * F::of_int(b).value()) == F::of_int(a * b),
{
    lemma_times_absorbs::<F>(a, F::of_int(b).value());
    lemma_times_absorbs::<F>(b, a);
    assert(a * F::of_int(b).value() == F::of_int(b).value() * a) by (nonlinear_arith);
    assert(a * b == b * a) by (nonlinear_arith);
}

/// Elements whose values are least representatives are equal when these are congruent.
pub(crate) proof fn lemma_same<F: PrimeField>(a: F, b: F)
    requires
        0 <= a.value() < F::modulus(),
        0 <= b.value() < F::modulus(),
    ensures
        residue::congruent(a.value(), b.value(), F::modulus()) <==> a == b,
{
    lemma_small_mod(a.value() as nat, F::modulus() as nat);
    lemma_small_mod(b.value() as nat, F::modulus() as nat);
    if a.value() == b.value() {
        F::lemma_value_injective(a, b);
    }
}

/// Whether an element has an inverse. Every element either is zero or has one, so a product
/// with it is zero only where it or the other factor is.
pub fn has_inverse<F: PrimeField>(x: F) -> (r: bool)
    ensures
        r == (x != F::of_int(0)),
        residue::cancels(x.value(), F::modulus()),
{
    proof {
        F::lemma_modulus();
        F::lemma_of_int(0);
        F::lemma_of_int(1);
        lemma_small_mod(0, F::modulus() as nat);
        lemma_small_mod(1, F::modulus() as nat);
    }
    match x.invert() {
        Some(inverse) => {
            proof {
                F::lemma_of_int(x.value() * inverse.value());
                residue::lemma_unit_cancels(x.value(), inverse.value(), F::modulus());
            }
            true
        },
        None => {
            assert(residue::congruent(x.value(), 0, F::modulus()));
            false
        },
    }
}

} // verus!
