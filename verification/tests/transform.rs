use ntt_algebra::ntt::{bit_reversal, fft_recursive, naive_evaluate, simple_fft};

#[test]
fn test_fft_recursive() {
    let poly = vec![3u64, 1, 4, 1, 5, 9, 2, 6];
    let omega = 85;
    let evaluation = vec![31u64, 70, 109, 74, 334, 181, 232, 4];
    assert_eq!(naive_evaluate::<337>(&poly, omega), evaluation);
    assert_eq!(fft_recursive::<337>(&poly, omega.clone()), evaluation);
    let mut poly = poly.clone();
    simple_fft::<337>(&mut poly, omega);
    assert_eq!(bit_reversal(&poly), evaluation)
}

#[test]
fn test_ntt() {
    let mut poly = vec![1u64, 2, 3, 4, 5, 6, 7, 8];
    // domain: 1, 2, 4, 8, 16, 15, 13, 9
    // f(2) = [1 2  3  4  5  6  7 8] *
    //        [1 2  4  8 16 15 13 9]
    //  = sum([1 4 12 -2 -5  5  6 4]) = 8
    let omega = 2;
    let evaluation = fft_recursive::<17>(&poly, omega.clone());
    assert_eq!(naive_evaluate::<17>(&poly, omega), evaluation);
    simple_fft::<17>(&mut poly, omega);
    assert_eq!(bit_reversal(&poly), evaluation)
}

#[test]
fn test_bit_reversal_involution() {
    let xs = vec![10u64, 20, 30, 40, 50, 60, 70, 80];
    assert_eq!(bit_reversal(&bit_reversal(&xs)), xs);
    let pair = vec![1u64, 2];
    assert_eq!(bit_reversal(&bit_reversal(&pair)), pair);
    let one = vec![9u64];
    assert_eq!(bit_reversal(&one), one);
}

#[test]
fn test_bit_reversal_order() {
    let xs = vec![0u64, 1, 2, 3, 4, 5, 6, 7];
    // Reversing three bits sends index 1 (001) to 4 (100), 3 (011) to
    // 6 (110), and so on.
    assert_eq!(bit_reversal(&xs), vec![0, 4, 2, 6, 1, 5, 3, 7]);
}

#[test]
fn test_naive_any_length() {
    // The naive evaluator accepts lengths that are not powers of two.
    let poly = vec![1u64, 2, 3];
    let omega = 2;
    // Points 1, 2, 4: values 6, 17 mod 7 = 3, and 57 mod 7 = 1.
    assert_eq!(naive_evaluate::<7>(&poly, omega), vec![6, 3, 1]);
    let empty: Vec<u64> = vec![];
    assert_eq!(naive_evaluate::<7>(&empty, omega), empty);
}

#[test]
fn test_single_coefficient() {
    let poly = vec![5u64];
    assert_eq!(naive_evaluate::<7>(&poly, 3), vec![5]);
    assert_eq!(fft_recursive::<7>(&poly, 3), vec![5]);
    let mut buf = poly.clone();
    simple_fft::<7>(&mut buf, 3);
    assert_eq!(buf, vec![5]);
}

#[test]
fn test_length_two_transform() {
    // At length 2 the root must satisfy omega^1 = -1: take omega = 16 mod 17.
    let poly = vec![3u64, 5];
    let evaluation = vec![8u64, (3 + 17 - 5) % 17];
    assert_eq!(naive_evaluate::<17>(&poly, 16), evaluation);
    assert_eq!(fft_recursive::<17>(&poly, 16), evaluation);
    let mut buf = poly.clone();
    simple_fft::<17>(&mut buf, 16);
    assert_eq!(bit_reversal(&buf), evaluation);
}
