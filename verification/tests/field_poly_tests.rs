use mpc_exploration::field::{mod_add, mod_mul, mod_neg, mod_sub, modulo, modulo_inv};
use mpc_exploration::poly::Polynomial;
use mpc_exploration::sharing::{recover_secret, split_secret, Share};

#[test]
fn test_polynomial_evaluation() {
    let poly = Polynomial::new(vec![3, 2, 1]); // 3 + 2x + 1x^2
    assert_eq!(poly.evaluate(0, 100), 3);
    assert_eq!(poly.evaluate(1, 100), 6);
    assert_eq!(poly.evaluate(2, 100), 11);
    assert_eq!(poly.evaluate(3, 100), 18);
}

#[test]
fn test_polynomial_evaluation_with_modulo() {
    let poly = Polynomial::new(vec![100, 200, 300]); // 100 + 200x + 300x^2
    assert_eq!(poly.evaluate(1, 256), (100 + 200 + 300) % 256);
    assert_eq!(poly.evaluate(2, 256), (100 + 400 + 1200) % 256);
}

#[test]
fn test_interpolate_from_roots() {
    let roots = (1..2000).collect::<Vec<u64>>();
    let poly = Polynomial::interpolate_from_roots(&roots, 1_000_000_007);
    for root in roots {
        assert_eq!(poly.evaluate(root, 1_000_000_007), 0);
    }
}

#[test]
fn test_modulo_inv() {
    assert_eq!(modulo_inv(3, 11).unwrap(), 4); // 3 * 4 % 11 == 1
    assert_eq!(modulo_inv(10, 17).unwrap(), 12); // 10 * 12 % 17 == 1
    assert!(modulo_inv(2, 4).is_err()); // gcd(2, 4) != 1
}

#[test]
fn test_modulo_inv_basic() {
    // 3 * 7 = 21 = 1 mod 10, so inv(3, 10) = 7
    assert_eq!(modulo_inv(3, 10).unwrap(), 7);
    // 2 has no inverse mod 4
    assert!(modulo_inv(2, 4).is_err());
    // 1 is always its own inverse
    assert_eq!(modulo_inv(1, 13).unwrap(), 1);
    // 0 has no inverse
    assert!(modulo_inv(0, 13).is_err());
}

#[test]
fn test_modulo_inv_large_prime() {
    let n = 1_000_000_007;
    let a = rand::random();
    let inv = modulo_inv(a, n).unwrap();
    assert_eq!(a as u128 * inv as u128 % n as u128, 1);
}

#[test]
fn test_division() {
    let n: u64 = 1_000_000_007;
    let p1 = Polynomial::new(vec![0, 0, 0, 1, 0, 0, 1]); // x^6 + x^3
    let p2 = Polynomial::new(vec![1, 0, 0, 1]); // x^3 + 1
    let (quotient, remainder) = p1.div(&p2, n).unwrap();
    assert_eq!(quotient, Polynomial::new(vec![0, 0, 0, 1])); // x^3
    assert_eq!(remainder, Polynomial::new(vec![])); // 0

    let p1 = Polynomial::new(vec![1, 2, 0, 0, 0, 0, 1]); // x^6 + 2x + 1
    let p2 = Polynomial::new(vec![1, 0, 0, 1]); // x^3 + 1
    // x^6 + 2x + 1 = x^3 * (x^3 + 1) -x^3 + 2x + 1 = (x^3 - 1) * (x^3 + 1) + 2x + 2
    let (quotient, remainder) = p1.div(&p2, n).unwrap();
    assert_eq!(quotient, Polynomial::new(vec![n - 1, 0, 0, 1])); // x^3 - 1
    assert_eq!(remainder, Polynomial::new(vec![2, 2])); // 2x + 2
}

#[test]
fn test_interpolation_from_coordinates() {
    let n: u64 = 1_000_000_007;
    let number_of_points: u64 = rand::random_range(2..=100);
    let points: Vec<u64> = (0..number_of_points).collect();
    let values: Vec<u64> = (0..number_of_points)
        .map(|_| {
            let y: u64 = rand::random();
            y % n
        })
        .collect();
    let p = Polynomial::interpolate(&points, &values, n).unwrap();
    for (x, y) in points.into_iter().zip(values) {
        assert_eq!(p.evaluate(x, n), y);
    }
}

#[test]
fn test_secret_sharing() {
    let n = 1_000_000_007;
    let secret = rand::random::<u64>() % n;
    let points_len = rand::random::<u8>() % 100 + 3; // at least 3 points
    let points = (1..=points_len).collect::<Vec<u8>>();
    let shares = split_secret(secret, &points, n);
    let mut share_vec: Vec<Share> = Vec::new();
    for i in 0..shares.len() {
        let (point, value) = shares.entry_at(i);
        share_vec.push(Share { point, value });
    }
    let recovered_secret = recover_secret(&share_vec, n).unwrap();
    assert_eq!(secret, recovered_secret);
}

#[test]
fn test_modulo_reduction() {
    assert_eq!(modulo(0, 7), 0);
    assert_eq!(modulo(13, 7), 6);
    assert_eq!(modulo(-1, 7), 6);
    assert_eq!(modulo(-14, 7), 0);
    assert_eq!(modulo(-15, 7), 6);
}

#[test]
fn test_field_operations() {
    let p = 1_000_000_007;
    assert_eq!(mod_add(p - 1, 5, p), 4);
    assert_eq!(mod_sub(3, 5, p), p - 2);
    assert_eq!(mod_mul(p - 1, p - 1, p), 1);
    assert_eq!(mod_neg(3, p), p - 3);
    assert_eq!(mod_add(2, 3, 10), 5);
    assert_eq!(mod_mul(4, 5, 7), 6);
}

#[test]
fn test_division_by_zero_polynomial() {
    let n: u64 = 1_000_000_007;
    let p1 = Polynomial::new(vec![1, 2, 3]);
    let p2 = Polynomial::new(vec![]);
    assert!(p1.div(&p2, n).is_err());
}

#[test]
fn test_interpolation_length_mismatch() {
    let n: u64 = 1_000_000_007;
    let points: Vec<u64> = vec![1, 2, 3];
    let values: Vec<u64> = vec![5, 6];
    assert!(Polynomial::interpolate(&points, &values, n).is_err());
}

#[test]
fn test_interpolation_duplicate_points() {
    let n: u64 = 1_000_000_007;
    let points: Vec<u64> = vec![1, 2, 2];
    let values: Vec<u64> = vec![5, 6, 7];
    assert!(Polynomial::interpolate(&points, &values, n).is_err());
    let shares = vec![
        Share { point: 3, value: 10 },
        Share { point: 3, value: 11 },
    ];
    assert!(recover_secret(&shares, n).is_err());
}

#[test]
fn test_evaluate_at_zero() {
    let poly = Polynomial::new(vec![42, 7, 9]);
    assert_eq!(poly.evaluate_at_zero(), 42);
    let zero = Polynomial::new(vec![]);
    assert_eq!(zero.evaluate_at_zero(), 0);
}

#[test]
fn test_sharing_round_trip_small() {
    // a fixed secret over a small prime with all points present
    let p = 257;
    let secret = 123;
    let points = vec![1u8, 2, 3, 4];
    let shares = split_secret(secret, &points, p);
    let mut share_vec: Vec<Share> = Vec::new();
    for i in 0..shares.len() {
        let (point, value) = shares.entry_at(i);
        share_vec.push(Share { point, value });
    }
    assert_eq!(recover_secret(&share_vec, p).unwrap(), secret);
}
