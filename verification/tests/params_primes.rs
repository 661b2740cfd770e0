use ckks_ntt::modarith::pow_mod;
use ckks_ntt::params::RingParams;

#[test]
fn finds_small_ntt_prime_and_roots() {
    let p = RingParams::new(16, 24).unwrap();
    assert_eq!(p.modulus % (2 * p.n as u64), 1);
    assert_eq!(pow_mod(p.primitive_2n_root, (2 * p.n) as u64, p.modulus), 1);
    assert_ne!(pow_mod(p.primitive_2n_root, p.n as u64, p.modulus), 1);
}

#[test]
fn near_64_bit_prime_generation_is_fast_enough_for_tests() {
    let p = RingParams::new(16, 62).unwrap();
    assert!(p.modulus >= (1u64 << 61));
    assert_eq!(p.modulus % (2 * p.n as u64), 1);
    assert_eq!(pow_mod(p.primitive_2n_root, (2 * p.n) as u64, p.modulus), 1);
    assert_ne!(pow_mod(p.primitive_2n_root, p.n as u64, p.modulus), 1);
}
