//! The base field of the Pallas curve.
//!
//! An [`Fp`] holds its least representative as four 64-bit words. The
//! arithmetic itself is done by the `pasta_curves` crate.
use ff::{Field, FromUniformBytes, PrimeFieldBits};
use pasta_curves::pallas;
use vstd::prelude::*;

use crate::field;
use crate::field::PrimeField;

verus! {

/// The number of elements of the Pallas base field.
pub open spec fn pallas_modulus() -> int {
    0x40000000000000000000000000000000224698fc094cf91b992d30ed00000001int
}

/// The integer that four 64-bit words write down, least significant word first.
pub open spec fn words_value(words: Seq<u64>) -> int {
    words[0] + words[1] * 0x1_0000_0000_0000_0000int + words[2]
        * 0x1_0000_0000_0000_0000_0000_0000_0000_0000int + words[3]
        * 0x1_0000_0000_0000_0000_0000_0000_0000_0000_0000_0000_0000_0000int
}

/// The four words of an integer below `2^256`.
pub open spec fn value_words(n: int) -> [u64; 4] {
    [
        (n % 0x1_0000_0000_0000_0000int) as u64,
        ((n / 0x1_0000_0000_0000_0000int) % 0x1_0000_0000_0000_0000int) as u64,
        ((n / 0x1_0000_0000_0000_0000_0000_0000_0000_0000int) % 0x1_0000_0000_0000_0000int) as u64,
        (n / 0x1_0000_0000_0000_0000_0000_0000_0000_0000_0000_0000_0000_0000int) as u64,
    ]
}

/// An element of the Pallas base field.
#[derive(Clone, Copy, Debug, PartialEq, Eq)]
pub struct Fp {
    words: [u64; 4],
}

/// The sum that `pasta_curves::pallas::Base` computes with `+`: the sum of the two
/// integers, reduced by the modulus.
#[verifier::external_body]
fn pallas_sum(a: [u64; 4], b: [u64; 4]) -> (r: [u64; 4])
    requires
        words_value(a@) < pallas_modulus(),
        words_value(b@) < pallas_modulus(),
    ensures
        words_value(r@) == (words_value(a@) + words_value(b@)) % pallas_modulus(),
{
    (pallas::Base::from_raw(a) + pallas::Base::from_raw(b)).to_le_bits().into_inner()
}

/// The difference that `pasta_curves::pallas::Base` computes with `-`: the difference of
/// the two integers, reduced by the modulus.
#[verifier::external_body]
fn pallas_difference(a: [u64; 4], b: [u64; 4]) -> (r: [u64; 4])
    requires
        words_value(a@) < pallas_modulus(),
        words_value(b@) < pallas_modulus(),
    ensures
        words_value(r@) == (words_value(a@) - words_value(b@)) % pallas_modulus(),
{
    (pallas::Base::from_raw(a) - pallas::Base::from_raw(b)).to_le_bits().into_inner()
}

/// The product that `pasta_curves::pallas::Base` computes with `*`: the product of the two
/// integers, reduced by the modulus.
#[verifier::external_body]
fn pallas_product(a: [u64; 4], b: [u64; 4]) -> (r: [u64; 4])
    requires
        words_value(a@) < pallas_modulus(),
        words_value(b@) < pallas_modulus(),
    ensures
        words_value(r@) == (words_value(a@) * words_value(b@)) % pallas_modulus(),
{
    (pallas::Base::from_raw(a) * pallas::Base::from_raw(b)).to_le_bits().into_inner()
}

/// `ff::Field::invert` of `pasta_curves::pallas::Base`: the multiplicative inverse, and
/// nothing for zero.
#[verifier::external_body]
fn pallas_inverse(a: [u64; 4]) -> (r: Option<[u64; 4]>)
    requires
        words_value(a@) < pallas_modulus(),
    ensures
        r is None <==> words_value(a@) == 0,
        r matches Some(inverse) ==> words_value(inverse@) < pallas_modulus() && (words_value(a@)
            * words_value(inverse@)) % pallas_modulus() == 1,
{
    let inverse: Option<pallas::Base> = pallas::Base::from_raw(a).invert().into();
    inverse.map(|base| base.to_le_bits().into_inner())
}

/// `ff::FromUniformBytes::from_uniform_bytes` of `pasta_curves::pallas::Base`: the 512-bit
/// little-endian integer, reduced by the modulus.
#[verifier::external_body]
fn pallas_from_uniform_bytes(bytes: &[u8; 64]) -> (r: [u64; 4])
    ensures
        words_value(r@) == (field::le_value(bytes@) as int) % pallas_modulus(),
{
    pallas::Base::from_uniform_bytes(bytes).to_le_bits().into_inner()
}

impl Fp {
    /// The words always write down a least representative.
    #[verifier::type_invariant]
    spec fn reduced(self) -> bool {
        words_value(self.words@) < pallas_modulus()
    }

    /// The words of the element, least significant first.
    pub fn to_words(&self) -> (r: [u64; 4])
        ensures
            words_value(r@) == self.value(),
            words_value(r@) < pallas_modulus(),
    {
        proof {
            use_type_invariant(self);
        }
        self.words
    }

    /// The element with the given words, if they write down an integer below the modulus.
    pub fn from_words(words: [u64; 4]) -> (r: Option<Fp>)
        ensures
            r is Some <==> words_value(words@) < pallas_modulus(),
            r matches Some(f) ==> f.value() == words_value(words@),
    {
        let below: bool = if words[3] != 0x4000000000000000 {
            words[3] < 0x4000000000000000
        } else if words[2] != 0 {
            false
        } else if words[1] != 0x224698fc094cf91b {
            words[1] < 0x224698fc094cf91b
        } else {
            words[0] < 0x992d30ed00000001
        };
        if below {
            Some(Fp { words })
        } else {
            None
        }
    }

    /// The element whose least representative has the given words.
    pub(crate) fn from_reduced(words: [u64; 4]) -> (r: Fp)
        requires
            words_value(words@) < pallas_modulus(),
        ensures
            r.value() == words_value(words@),
            r == Fp::of_int(words_value(words@)),
    {
        let r = Fp { words };
        proof {
            assert(0 <= words_value(words@));
            Self::lemma_of_int(words_value(words@));
            Self::lemma_value_injective(r, Self::of_int(words_value(words@)));
        }
        r
    }
}

/// The words that write down an integer are its words.
proof fn lemma_value_words(n: int)
    requires
        0 <= n < pallas_modulus(),
    ensures
        words_value(value_words(n)@) == n,
{
    let words = value_words(n);
    let high = n / 0x1_0000_0000_0000_0000int;
    let higher = high / 0x1_0000_0000_0000_0000int;
    assert(n / 0x1_0000_0000_0000_0000_0000_0000_0000_0000int == higher);
    assert(n / 0x1_0000_0000_0000_0000_0000_0000_0000_0000_0000_0000_0000_0000int == higher
        / 0x1_0000_0000_0000_0000int);
    assert(words@[0] == n % 0x1_0000_0000_0000_0000int);
    assert(words@[1] == high % 0x1_0000_0000_0000_0000int);
    assert(words@[2] == higher % 0x1_0000_0000_0000_0000int);
    assert(0 <= n / 0x1_0000_0000_0000_0000_0000_0000_0000_0000_0000_0000_0000_0000int
        < 0x1_0000_0000_0000_0000int);
    assert(words@[3] == higher / 0x1_0000_0000_0000_0000int);
}

impl PrimeField for Fp {
    open spec fn modulus() -> int {
        pallas_modulus()
    }

    closed spec fn value(self) -> int {
        words_value(self.words@)
    }

    closed spec fn of_int(n: int) -> Self {
        Fp { words: value_words(n % pallas_modulus()) }
    }

    proof fn lemma_modulus() {
    }

    proof fn lemma_of_int(n: int) {
        lemma_value_words(n % pallas_modulus());
    }

    proof fn lemma_value_injective(a: Self, b: Self) {
        assert(a.words@ =~= b.words@);
        assert(a.words =~= b.words);
    }

    fn zero() -> (r: Self) {
        let r = Fp { words: [0, 0, 0, 0] };
        proof {
            Self::lemma_of_int(0);
            Self::lemma_value_injective(r, Self::of_int(0));
        }
        r
    }

    fn one() -> (r: Self) {
        let r = Fp { words: [1, 0, 0, 0] };
        proof {
            Self::lemma_of_int(1);
            Self::lemma_value_injective(r, Self::of_int(1));
        }
        r
    }

    fn from_u64(n: u64) -> (r: Self) {
        let r = Fp { words: [n, 0, 0, 0] };
        proof {
            Self::lemma_of_int(n as int);
            Self::lemma_value_injective(r, Self::of_int(n as int));
        }
        r
    }

    fn from_uniform_bytes(bytes: &[u8; 64]) -> (r: Self) {
        let r = Fp { words: pallas_from_uniform_bytes(bytes) };
        proof {
            Self::lemma_of_int(field::le_value(bytes@) as int);
            Self::lemma_value_injective(r, Self::of_int(field::le_value(bytes@) as int));
        }
        r
    }

    fn plus(self, other: Self) -> (r: Self) {
        proof {
            use_type_invariant(&self);
            use_type_invariant(&other);
        }
        let r = Fp { words: pallas_sum(self.words, other.words) };
        proof {
            Self::lemma_of_int(self.value() + other.value());
            Self::lemma_value_injective(r, Self::of_int(self.value() + other.value()));
        }
        r
    }

    fn minus(self, other: Self) -> (r: Self) {
        proof {
            use_type_invariant(&self);
            use_type_invariant(&other);
        }
        let r = Fp { words: pallas_difference(self.words, other.words) };
        proof {
            Self::lemma_of_int(self.value() - other.value());
            Self::lemma_value_injective(r, Self::of_int(self.value() - other.value()));
        }
        r
    }

    fn times(self, other: Self) -> (r: Self) {
        proof {
            use_type_invariant(&self);
            use_type_invariant(&other);
        }
        let r = Fp { words: pallas_product(self.words, other.words) };
        proof {
            Self::lemma_of_int(self.value() * other.value());
            Self::lemma_value_injective(r, Self::of_int(self.value() * other.value()));
        }
        r
    }

    fn invert(self) -> (r: Option<Self>) {
        proof {
            use_type_invariant(&self);
            Self::lemma_of_int(0);
            Self::lemma_of_int(1);
            if self.value() == 0 {
                Self::lemma_value_injective(self, Self::of_int(0));
            }
        }
        match pallas_inverse(self.words) {
            None => None,
            Some(words) => {
                let inverse = Fp { words };
                proof {
                    let n = self.value() * inverse.value();
                    Self::lemma_of_int(n);
                    Self::lemma_value_injective(Self::of_int(n), Self::of_int(1));
                }
                Some(inverse)
            },
        }
    }

    fn equals(&self, other: &Self) -> (r: bool) {
        proof {
            use_type_invariant(self);
            use_type_invariant(other);
            if self.words@ =~= other.words@ {
                assert(self.words =~= other.words);
            }
        }
        self.words[0] == other.words[0] && self.words[1] == other.words[1] && self.words[2]
            == other.words[2] && self.words[3] == other.words[3]
    }
}

} // verus!
