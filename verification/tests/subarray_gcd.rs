use solution::subarray_gcd::{gcd, max_gcd_length_product};

fn brute_force(values: &[u64]) -> u64 {
    let mut best = 0;
    for l in 0..values.len() {
        let mut g = 0;
        for r in l..values.len() {
            g = gcd(g, values[r]);
            best = best.max((r - l + 1) as u64 * g);
        }
    }
    best
}

#[test]
fn gcd_of_small_numbers() {
    assert_eq!(gcd(12, 18), 6);
    assert_eq!(gcd(18, 12), 6);
    assert_eq!(gcd(0, 7), 7);
    assert_eq!(gcd(7, 0), 7);
    assert_eq!(gcd(0, 0), 0);
    assert_eq!(gcd(17, 5), 1);
    assert_eq!(gcd(1 << 40, 1 << 20), 1 << 20);
}

#[test]
fn gcd_length_product_examples() {
    assert_eq!(max_gcd_length_product(&[]), 0);
    assert_eq!(max_gcd_length_product(&[5]), 5);
    assert_eq!(max_gcd_length_product(&[30, 60, 20, 20, 20]), 80);
    assert_eq!(max_gcd_length_product(&[2, 4, 6, 3]), 6);
    assert_eq!(max_gcd_length_product(&[7, 1, 1, 1]), 7);
}

#[test]
fn gcd_length_product_matches_brute_force() {
    let mut seed: u64 = 12345;
    for len in 1..40 {
        let values: Vec<u64> = (0..len)
            .map(|i| {
                seed = seed.wrapping_mul(6364136223846793005).wrapping_add(1442695040888963407);
                let base = [2u64, 3, 4, 6, 12, 8, 9, 18][(seed >> 33) as usize % 8];
                if i == 0 { base } else { base * (1 + (seed >> 60)) * if (seed >> 20) % 5 == 0 { 0 } else { 1 } }
            })
            .collect();
        assert_eq!(max_gcd_length_product(&values), brute_force(&values), "{:?}", values);
    }
}
