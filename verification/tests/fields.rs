use snarkvm_core::bytes::ByteError;
use snarkvm_core::fields::field::{Field, PrimeField};
use snarkvm_core::fields::fermat::{mul_mod_u64, pow_mod_exec};
use snarkvm_core::fields::fp::Fp;
use snarkvm_core::fields::pow::{pow, pow_u64};

type F = Fp<10007>;
type F1 = Fp<10009>;

fn f(v: u64) -> F {
    F::from_u64(v)
}

#[test]
fn field_laws_on_samples() {
    let samples = [0u64, 1, 2, 3, 17, 5003, 5004, 10005, 10006];
    for &x in samples.iter() {
        for &y in samples.iter() {
            let (a, b) = (f(x), f(y));
            assert_eq!(a.add(&b), b.add(&a));
            assert_eq!(a.mul(&b), b.mul(&a));
            assert_eq!(a.sub(&b).add(&b), a);
            for &z in samples.iter() {
                let c = f(z);
                assert_eq!(a.add(&b).add(&c), a.add(&b.add(&c)));
                assert_eq!(a.mul(&b).mul(&c), a.mul(&b.mul(&c)));
                assert_eq!(a.mul(&b.add(&c)), a.mul(&b).add(&a.mul(&c)));
            }
        }
    }
}

#[test]
fn field_exact_values() {
    assert_eq!(f(10006).add(&f(5)).value(), 4);
    assert_eq!(f(3).sub(&f(5)).value(), 10005);
    assert_eq!(f(5000).mul(&f(3)).value(), 4993);
    assert_eq!(f(7).neg().value(), 10000);
    assert_eq!(f(0).neg().value(), 0);
    assert_eq!(f(1234).double().value(), 2468);
    assert_eq!(f(100).square().value(), 10000);
    assert_eq!(F::zero().value(), 0);
    assert_eq!(F::one().value(), 1);
    assert_eq!(F::modulus(), 10007);
    assert_eq!(f(20014 + 3).value(), 3);
}

#[test]
fn field_inverse() {
    assert_eq!(f(0).inverse(), None);
    for x in 1..10007u64 {
        let a = f(x);
        let inv = a.inverse().unwrap();
        assert_eq!(a.mul(&inv), F::one());
    }
    assert_eq!(f(2).inverse().unwrap().value(), 5004);
}

#[test]
fn field_sqrt_shortcut_modulus() {
    // 10007 = 3 mod 4
    let mut squares = 0;
    for x in 0..10007u64 {
        let a = f(x);
        match a.sqrt() {
            Some(r) => {
                squares += 1;
                assert_eq!(r.square(), a);
                assert!(r.value() <= r.neg().value());
            }
            None => {}
        }
    }
    assert_eq!(squares, (10007 + 1) / 2);
    assert_eq!(f(4).sqrt().unwrap().value(), 2);
}

#[test]
fn field_sqrt_tonelli_shanks_modulus() {
    // 10009 = 1 mod 4
    let mut squares = 0;
    for x in 0..10009u64 {
        let a = F1::from_u64(x);
        match a.sqrt() {
            Some(r) => {
                squares += 1;
                assert_eq!(r.square(), a);
                assert!(r.value() <= r.neg().value());
            }
            None => {}
        }
    }
    assert_eq!(squares, (10009 + 1) / 2);
    assert_eq!(F1::from_u64(9).sqrt().unwrap().value(), 3);
}

#[test]
fn field_sqrt_of_non_residue_is_none() {
    // 5 is not a square modulo 10007
    let mut found = false;
    for y in 0..10007u64 {
        if y * y % 10007 == 5 {
            found = true;
        }
    }
    assert!(!found);
    assert_eq!(f(5).sqrt(), None);
}

#[test]
fn field_bytes_round_trip() {
    let a = f(3);
    let mut out = Vec::new();
    a.write(&mut out);
    assert_eq!(out, vec![3u8, 0, 0, 0, 0, 0, 0, 0]);
    assert_eq!(F::read(&out, 0), Ok((a, 8)));
    for x in [0u64, 1, 255, 256, 10006] {
        let a = f(x);
        let mut out = vec![9u8];
        a.write(&mut out);
        assert_eq!(out.len(), 9);
        assert_eq!(F::read(&out, 1), Ok((a, 9)));
    }
}

#[test]
fn field_read_rejects_value_at_or_above_modulus() {
    let bytes = 10007u64.to_le_bytes().to_vec();
    assert_eq!(F::read(&bytes, 0), Err(ByteError::InvalidData));
    let bytes = u64::MAX.to_le_bytes().to_vec();
    assert_eq!(F::read(&bytes, 0), Err(ByteError::InvalidData));
    let bytes = 10006u64.to_le_bytes().to_vec();
    assert_eq!(F::read(&bytes, 0).unwrap().0.value(), 10006);
}

#[test]
fn field_read_rejects_short_input() {
    let bytes = vec![1u8, 2, 3];
    assert_eq!(F::read(&bytes, 0), Err(ByteError::UnexpectedEof));
    let bytes = vec![0u8; 8];
    assert_eq!(F::read(&bytes, 1), Err(ByteError::UnexpectedEof));
    assert_eq!(F::read(&bytes, 9), Err(ByteError::UnexpectedEof));
}

#[test]
fn field_order_and_limbs() {
    assert!(f(3).is_less_than(&f(4)));
    assert!(!f(4).is_less_than(&f(4)));
    assert!(!f(5).is_less_than(&f(4)));
    assert!(f(5).is_equal(&f(10012)));
    assert_eq!(f(77).into_repr(), vec![77u64]);
    assert_eq!(F::characteristic(), vec![10007u64]);
    assert!(f(0).is_zero());
    assert!(f(1).is_one());
    assert!(!f(1).is_zero());
}

#[test]
fn powers_by_squaring() {
    assert_eq!(pow_u64(&f(3), 0).value(), 1);
    assert_eq!(pow_u64(&f(3), 1).value(), 3);
    assert_eq!(pow_u64(&f(3), 8).value(), 6561);
    assert_eq!(pow_u64(&f(3), 9).value(), 19683 % 10007);
    assert_eq!(pow_u64(&f(0), 0).value(), 1);
    assert_eq!(pow_u64(&f(0), 5).value(), 0);
    assert_eq!(pow(&f(3), &vec![9]).value(), 19683 % 10007);
    assert_eq!(pow(&f(3), &vec![]).value(), 1);
    // 2^64 = 2^32 * 2^32
    let big = pow(&f(2), &vec![0, 1]);
    let half = pow_u64(&f(2), 1 << 32);
    assert_eq!(big, pow_u64(&half, 1 << 32));
    assert_eq!(pow_mod_exec(3, 9, 10007), 19683 % 10007);
    assert_eq!(pow_mod_exec(5, 0, 1), 0);
    assert_eq!(mul_mod_u64(u64::MAX, u64::MAX, u64::MAX - 1), 1);
}

#[test]
fn fermat_and_frobenius_in_the_prime_field() {
    for x in [1u64, 2, 3, 5003, 10006] {
        assert_eq!(pow_u64(&f(x), 10006), F::one());
        assert_eq!(pow_u64(&f(x), 10007), f(x));
        assert_eq!(f(x).frobenius_map(1), f(x));
        assert_eq!(f(x).frobenius_map(13), f(x));
    }
    assert_eq!(pow_u64(&f(0), 10007), f(0));
}

#[test]
fn roots_of_all_squares_with_a_modulus_that_is_one_modulo_four() {
    // 10009 is 1 modulo 4, and 1009 is 1 modulo 16
    let mut found = 0;
    for x in 0u64..10009 {
        let a = Fp::<10009>::from_u64(x);
        let sq = a.square();
        let root = sq.sqrt().unwrap();
        assert_eq!(root.square(), sq);
        assert!(root == a || root == a.neg());
        if a.sqrt().is_some() {
            found += 1;
        }
    }
    assert_eq!(found, 5005);
    for x in 0u64..1009 {
        let sq = Fp::<1009>::from_u64(x).square();
        assert_eq!(sq.sqrt().unwrap().square(), sq);
    }
}
