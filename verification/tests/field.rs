use ntt_algebra::{PrimeField, Raisable, Zero};
use std::iter;

fn fp11(n: u64) -> PrimeField<11> {
    PrimeField::new(n)
}

#[test]
fn ff_test_prime_field() {
    let a = fp11(3);
    let b = fp11(5);
    assert_eq!(a.clone() + b.clone(), fp11(8));
    assert_eq!(a.clone() * b, fp11(4));
    for i in 1..11 {
        assert_eq!(fp11(i) / fp11(i), fp11(1), "Identity for {i} unsatisfied");
    }
    // Test power
    assert_eq!(a.pow(5), fp11(1));
    for i in 0..11 {
        for j in 0..11 {
            assert_eq!(
                fp11(i).pow(j),
                iter::repeat(fp11(i)).take(j).fold(fp11(1), |a, b| a * b)
            )
        }
    }
}

#[test]
fn test_tolerance() {
    let tolerance = 2;
    for i in 0..11 {
        assert_eq!(fp11(i).check_tolerance(tolerance), [0, 1, 2].contains(&i))
    }
}

#[test]
fn main_test_prime_field() {
    let a = fp11(3);
    let b = fp11(5);
    assert_eq!(a.clone() + b.clone(), fp11(8));
    assert_eq!(a * b, fp11(4));
}

#[test]
fn test_construction_reduces() {
    assert_eq!(fp11(11), fp11(0));
    assert_eq!(fp11(25), fp11(3));
    assert_eq!(PrimeField::<2>::new(7), PrimeField::<2>::new(1));
}

#[test]
fn test_add_commutes() {
    for i in 0..11 {
        for j in 0..11 {
            assert_eq!(fp11(i) + fp11(j), fp11(j) + fp11(i));
        }
    }
}

#[test]
fn test_neg_and_sub() {
    // Negation of zero is zero; otherwise P - n.
    assert_eq!(fp11(0).neg(), fp11(0));
    assert_eq!(fp11(4).neg(), fp11(7));
    assert_eq!(fp11(3) - fp11(5), fp11(9));
    assert_eq!(fp11(5) - fp11(5), fp11(0));
    assert_eq!(fp11(5) - fp11(0), fp11(5));
}

#[test]
fn test_invert() {
    // Inverse by Fermat's little theorem: x^(P-2) mod P.
    assert_eq!(fp11(1).invert(), fp11(1));
    assert_eq!(fp11(2).invert(), fp11(6));
    for i in 1..11 {
        assert_eq!(fp11(i) * fp11(i).invert(), fp11(1));
        assert_eq!(fp11(i).invert().invert(), fp11(i));
    }
}

#[test]
fn test_mul_div_inverse_cancel() {
    for a in 0..11 {
        for b in 1..11 {
            let b_inv = fp11(b).invert();
            assert_eq!(fp11(a) * b_inv / b_inv, fp11(a));
        }
    }
}

#[test]
fn test_zero_and_is_zero() {
    let z: PrimeField<11> = PrimeField::zero();
    assert_eq!(z, fp11(0));
    assert!(z.is_zero());
    assert!(!fp11(7).is_zero());
}

#[test]
fn test_cast() {
    let x: PrimeField<11> = fp11(9);
    let y: PrimeField<2> = x.cast();
    assert_eq!(y, PrimeField::<2>::new(1));
    let z: PrimeField<5> = x.cast();
    assert_eq!(z, PrimeField::<5>::new(4));
}

#[test]
fn test_large_modulus() {
    // The largest prime below 2^64: intermediate sums and products are
    // widened before reduction, so nothing wraps.
    const BIG: u64 = 18446744073709551557;
    let a: PrimeField<BIG> = PrimeField::new(BIG - 1);
    assert_eq!(a + a, PrimeField::new(BIG - 2));
    // BIG - 1 is -1 modulo BIG, so its square is 1.
    assert_eq!(a * a, PrimeField::new(1));
    assert_eq!(a.clone() / a, PrimeField::new(1));
}

#[test]
fn test_round_2int() {
    // 9 / 2 rounds half up to 5; 8 / 2 is exactly 4.
    assert_eq!(fp11(9).round_2int(2), 5);
    assert_eq!(fp11(8).round_2int(2), 4);
}
