use smt::field::PrimeField;
use smt::fp::Fp;

const MODULUS: [u64; 4] = [0x992d30ed00000001, 0x224698fc094cf91b, 0, 0x4000000000000000];
const MINUS_ONE: [u64; 4] = [0x992d30ed00000000, 0x224698fc094cf91b, 0, 0x4000000000000000];

fn minus_one() -> Fp {
    Fp::from_words(MINUS_ONE).unwrap()
}

#[test]
fn words_are_those_of_the_least_representative() {
    assert_eq!(Fp::from_u64(7).to_words(), [7, 0, 0, 0]);
    assert_eq!(Fp::zero().to_words(), [0; 4]);
    assert_eq!(Fp::one().to_words(), [1, 0, 0, 0]);
    assert_eq!(minus_one().to_words(), MINUS_ONE);
    assert!(Fp::from_words(MODULUS).is_none());
    assert!(Fp::from_words([u64::MAX; 4]).is_none());
    assert!(Fp::from_words([0, 0x224698fc094cf91c, 0, 0x4000000000000000]).is_none());
    assert!(Fp::from_words([u64::MAX, 0x224698fc094cf91a, 0, 0x4000000000000000]).is_some());
    assert!(Fp::from_words([0, 0, 1, 0x4000000000000000]).is_none());
    assert!(Fp::from_words([u64::MAX, u64::MAX, u64::MAX, 0x3fffffffffffffff]).is_some());
}

#[test]
fn sums_wrap_at_the_modulus() {
    assert_eq!(Fp::from_u64(5).plus(Fp::from_u64(9)), Fp::from_u64(14));
    assert_eq!(minus_one().plus(Fp::one()), Fp::zero());
    assert_eq!(
        Fp::from_u64(u64::MAX).plus(Fp::one()),
        Fp::from_words([0, 1, 0, 0]).unwrap()
    );
}

#[test]
fn differences_wrap_at_zero() {
    assert_eq!(Fp::from_u64(9).minus(Fp::from_u64(5)), Fp::from_u64(4));
    assert_eq!(Fp::zero().minus(Fp::one()), minus_one());
}

#[test]
fn products_are_reduced() {
    assert_eq!(Fp::from_u64(6).times(Fp::from_u64(7)), Fp::from_u64(42));
    assert_eq!(minus_one().times(minus_one()), Fp::one());
    let power = Fp::from_words([0, 1, 0, 0]).unwrap();
    assert_eq!(power.times(power), Fp::from_words([0, 0, 1, 0]).unwrap());
}

#[test]
fn only_zero_has_no_inverse() {
    assert!(Fp::zero().invert().is_none());
    let x = Fp::from_u64(12345);
    assert_eq!(x.times(x.invert().unwrap()), Fp::one());
    assert_eq!(minus_one().invert().unwrap(), minus_one());
}

#[test]
fn uniform_bytes_are_little_endian_and_reduced() {
    let mut bytes = [0u8; 64];
    assert_eq!(Fp::from_uniform_bytes(&bytes), Fp::zero());
    bytes[0] = 2;
    bytes[8] = 3;
    assert_eq!(Fp::from_uniform_bytes(&bytes), Fp::from_words([2, 3, 0, 0]).unwrap());

    let mut bytes = [0u8; 64];
    for i in 0..4 {
        bytes[8 * i..8 * i + 8].copy_from_slice(&MODULUS[i].to_le_bytes());
    }
    assert_eq!(Fp::from_uniform_bytes(&bytes), Fp::zero());

    // 2^256, which is 4 times 2^254 and so 4 times (2^254 - p).
    let mut bytes = [0u8; 64];
    bytes[32] = 1;
    let quarter = Fp::from_words([0, 0, 0, 0x4000000000000000]).unwrap();
    assert_eq!(Fp::from_uniform_bytes(&bytes), quarter.times(Fp::from_u64(4)));
}

#[test]
fn equality() {
    assert!(Fp::from_u64(3).equals(&Fp::from_u64(3)));
    assert!(!Fp::from_u64(3).equals(&Fp::from_u64(4)));
    assert!(!Fp::from_words([0, 0, 1, 0]).unwrap().equals(&Fp::zero()));
}
