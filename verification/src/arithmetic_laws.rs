//! Laws of the numbers that bytes, words and node indices write down, in terms of division
//! and powers.
use vstd::arithmetic::div_mod::*;
use vstd::arithmetic::power::*;
use vstd::arithmetic::power2::*;
use vstd::prelude::*;

use crate::field;
use crate::field::PrimeField;
use crate::fp;
use crate::fp::Fp;
use crate::index;
use crate::residue;
use crate::smt;

verus! {

/// Byte `i` of a byte string is digit `i` of its value to the base 256, and the value has no
/// further digits.
pub proof fn law_bytes_are_digits(bytes: Seq<u8>)
    ensures
        field::le_value(bytes) < pow(256, bytes.len()),
        forall|i: int|
            0 <= i < bytes.len() ==> (field::le_value(bytes) as int / pow(256, i as nat)) % 256
                == #[trigger] bytes[i],
    decreases bytes.len(),
{
    let value = field::le_value(bytes) as int;
    lemma_pow0(256);
    if bytes.len() > 0 {
        let tail = bytes.drop_first();
        let rest = field::le_value(tail) as int;
        law_bytes_are_digits(tail);
        assert(pow(256, bytes.len()) == 256 * pow(256, tail.len())) by {
            reveal(pow);
        }
        assert(value == bytes[0] + 256 * rest);
        assert(value / 256 == rest);
        assert forall|i: int| 0 <= i < bytes.len() implies (value / pow(256, i as nat)) % 256
            == #[trigger] bytes[i] by {
            if i > 0 {
                let below = (i - 1) as nat;
                assert(bytes[i] == tail[i - 1]);
                lemma_pow_positive(256, below);
                assert(pow(256, i as nat) == 256 * pow(256, below)) by {
                    reveal(pow);
                }
                lemma_div_denominator(value, 256, pow(256, below));
            } else {
                assert(value / 1 == value);
            }
        }
    }
}

/// Two byte strings of one length with the same value are the same.
pub proof fn law_bytes_injective(a: Seq<u8>, b: Seq<u8>)
    requires
        a.len() == b.len(),
        field::le_value(a) == field::le_value(b),
    ensures
        a == b,
{
    law_bytes_are_digits(a);
    law_bytes_are_digits(b);
    assert forall|i: int| 0 <= i < a.len() implies a[i] == b[i] by {
        assert((field::le_value(a) as int / pow(256, i as nat)) % 256 == a[i]);
        assert((field::le_value(b) as int / pow(256, i as nat)) % 256 == b[i]);
    }
    assert(a =~= b);
}

/// Word `i` of four words is digit `i` of their value to the base `2^64`, and the value has
/// no further digits.
pub proof fn law_words_are_digits(words: Seq<u64>)
    requires
        words.len() == 4,
    ensures
        0 <= fp::words_value(words) < pow2(64) * pow2(64) * pow2(64) * pow2(64),
        fp::words_value(words) % (pow2(64) as int) == words[0],
        (fp::words_value(words) / (pow2(64) as int)) % (pow2(64) as int) == words[1],
        (fp::words_value(words) / ((pow2(64) * pow2(64)) as int)) % (pow2(64) as int) == words[2],
        fp::words_value(words) / ((pow2(64) * pow2(64) * pow2(64)) as int) == words[3],
{
    lemma2_to64();
    assert(pow2(64) == 0x1_0000_0000_0000_0000);
    assert(pow2(64) * pow2(64) == 0x1_0000_0000_0000_0000_0000_0000_0000_0000) by (nonlinear_arith)
        requires
            pow2(64) == 0x1_0000_0000_0000_0000,
    ;
    assert(pow2(64) * pow2(64) * pow2(64)
        == 0x1_0000_0000_0000_0000_0000_0000_0000_0000_0000_0000_0000_0000) by (nonlinear_arith)
        requires
            pow2(64) == 0x1_0000_0000_0000_0000,
    ;
    assert(pow2(64) * pow2(64) * pow2(64) * pow2(64)
        == 0x1_0000_0000_0000_0000_0000_0000_0000_0000_0000_0000_0000_0000_0000_0000_0000_0000)
        by (nonlinear_arith)
        requires
            pow2(64) == 0x1_0000_0000_0000_0000,
    ;
}

/// The Pallas base field has `2^254` elements and a few more, and its elements are the
/// residues.
pub proof fn law_pallas_field(n: int)
    ensures
        Fp::modulus() == pow2(63) * pow2(63) * pow2(64) * pow2(64)
            + 45560315531419706090280762371685220353,
        Fp::of_int(n).value() == n % Fp::modulus(),
{
    lemma2_to64();
    lemma2_to64_rest();
    Fp::lemma_of_int(n);
    assert(pow2(63) * pow2(63) * pow2(64) * pow2(64)
        == 0x4000000000000000000000000000000000000000000000000000000000000000) by (nonlinear_arith)
        requires
            pow2(63) == 0x8000_0000_0000_0000,
            pow2(64) == 0x1_0000_0000_0000_0000,
    ;
}

/// The nodes of a level follow one another, each level follows the one above it, the root is
/// the first node, and the children of a node are two next to each other.
pub proof fn law_node_indices(height: nat, level: nat, pos: int)
    requires
        level <= height,
    ensures
        index::node_at(height, height, 0) == 0,
        index::node_at(height, level, pos + 1) == index::node_at(height, level, pos) + 1,
        level > 0 ==> index::node_at(height, (level - 1) as nat, 0) == index::node_at(
            height,
            level,
            pow2((height - level) as nat) as int,
        ),
        level > 0 ==> index::node_at(height, (level - 1) as nat, 2 * pos) == 2 * index::node_at(
            height,
            level,
            pos,
        ) + 1,
        level > 0 ==> index::node_at(height, (level - 1) as nat, 2 * pos + 1)
            == 2 * index::node_at(height, level, pos) + 2,
{
    lemma2_to64();
    if level > 0 {
        lemma_pow2_unfold((height - level + 1) as nat);
    }
}

/// The position above a leaf: the leaf itself on its own level, and half of it, rounded down,
/// for each level more.
pub proof fn law_position_above(leaf: int, level: nat)
    requires
        leaf >= 0,
    ensures
        index::above(leaf, 0) == leaf,
        index::above(leaf, level + 1) == index::above(leaf, level) / 2,
        index::above(leaf, level) * pow2(level) <= leaf < (index::above(leaf, level) + 1) * pow2(
            level,
        ),
{
    index::lemma_above_base(leaf);
    index::lemma_above_step(leaf, level);
    lemma_pow2_pos(level);
    lemma_fundamental_div_mod(leaf, pow2(level) as int);
    let q = index::above(leaf, level);
    let p = pow2(level) as int;
    assert(q * p == p * q) by (nonlinear_arith);
    assert((q + 1) * p == p * q + p) by (nonlinear_arith);
}

/// The rounded logarithm is the least exponent of a power of two that is not below the
/// number.
pub proof fn law_log2(n: int, r: int)
    requires
        index::is_ceil_log2(n, r),
    ensures
        r >= 0,
        n <= pow2(r as nat),
        forall|s: nat| n <= #[trigger] pow2(s) ==> r <= s,
{
    lemma2_to64();
    assert forall|s: nat| n <= #[trigger] pow2(s) implies r <= s by {
        if s < r {
            index::lemma_pow2_monotone(s, (r - 1) as nat);
        }
    }
}

/// Congruent integers differ by a multiple of the modulus.
pub proof fn law_congruent(a: int, b: int, m: int)
    requires
        m > 0,
    ensures
        residue::congruent(a, b, m) <==> exists|k: int| a - b == #[trigger] (k * m),
{
    if residue::congruent(a, b, m) {
        lemma_fundamental_div_mod(a, m);
        lemma_fundamental_div_mod(b, m);
        let k = a / m - b / m;
        assert(a - b == k * m) by (nonlinear_arith)
            requires
                a == m * (a / m) + a % m,
                b == m * (b / m) + b % m,
                a % m == b % m,
                k == a / m - b / m,
        ;
    }
    if exists|k: int| a - b == #[trigger] (k * m) {
        let k = choose|k: int| a - b == #[trigger] (k * m);
        lemma_mod_multiples_vanish(k, b, m);
        assert(k * m == m * k) by (nonlinear_arith);
    }
}

/// The fifth power is the number times itself four times.
pub proof fn law_pow5(x: int)
    ensures
        residue::pow5(x) == pow(x, 5),
{
    reveal_with_fuel(pow, 6);
    assert(x * (x * (x * (x * x))) == x * x * (x * x) * x) by (nonlinear_arith);
    assert(pow(x, 5) == x * (x * (x * (x * (x * 1)))));
}

/// The next power of two is a power of two, not below the number, and no smaller one is.
pub proof fn law_next_power(n: int, power: int)
    requires
        smt::is_next_power(n, power),
    ensures
        n <= power,
        exists|e: nat| power == #[trigger] pow2(e),
        forall|e: nat| n <= #[trigger] pow2(e) ==> power <= pow2(e),
{
    let e = choose|e: nat|
        power == #[trigger] pow2(e) && n <= pow2(e) && (e > 0 ==> pow2((e - 1) as nat) < n);
    assert forall|f: nat| n <= #[trigger] pow2(f) implies power <= pow2(f) by {
        if f < e {
            index::lemma_pow2_monotone(f, (e - 1) as nat);
        } else {
            index::lemma_pow2_monotone(e, f);
        }
    }
}

/// A tree is made for one leaf at most at any height, and else for at most half of its leaf
/// level.
pub proof fn law_fits(leaf_count: int, height: int)
    requires
        leaf_count > 1,
        height >= 0,
    ensures
        smt::fits(0, height),
        smt::fits(1, height),
        smt::fits(leaf_count, height) <==> 2 * leaf_count <= pow2(height as nat),
{
    if height >= 1 {
        lemma_pow2_unfold(height as nat);
    } else {
        lemma2_to64();
    }
}

} // verus!
