use ntt_algebra::round_frac2int;
use ntt_algebra::utils::pow_mod;

#[test]
fn test_round2int() {
    assert_eq!(round_frac2int(424999, 10000), 42);
    assert_eq!(round_frac2int(425, 10), 43);
}

#[test]
fn test_round2int_small_cases() {
    // Exactly half rounds up; below half rounds down.
    assert_eq!(round_frac2int(1, 2), 1);
    assert_eq!(round_frac2int(0, 2), 0);
    assert_eq!(round_frac2int(3, 2), 2);
    assert_eq!(round_frac2int(7, 1), 7);
}

#[test]
fn test_pow_mod() {
    assert_eq!(pow_mod(2, 10, 1000), 24);
    assert_eq!(pow_mod(85, 4, 337), 85u64.pow(4) % 337);
    assert_eq!(pow_mod(5, 0, 7), 1);
    assert_eq!(pow_mod(5, 0, 1), 0);
    // Exponents far beyond what a plain u64 power could hold.
    assert_eq!(pow_mod(3, 1_000_000_007, 2), 1);
}
