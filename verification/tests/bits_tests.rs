use wordlebot::bits::{entropy_weighted, lg_fixed, FIXED_ONE};

#[test]
fn lg_fixed_exact_on_powers_of_two() {
    assert_eq!(lg_fixed(1), 0);
    assert_eq!(lg_fixed(2), FIXED_ONE);
    assert_eq!(lg_fixed(4), 2 * FIXED_ONE);
    assert_eq!(lg_fixed(1024), 10 * FIXED_ONE);
    assert_eq!(lg_fixed(1 << 40), 40 * FIXED_ONE);
}

#[test]
fn lg_fixed_of_three() {
    // log2(3) = 1.58496...; in 16-bit fixed point the algorithm lands on
    // exactly 103872 (= 1.584960938 * 65536)
    assert_eq!(lg_fixed(3), 103872);
}

#[test]
fn lg_fixed_is_monotone_and_doubles_cleanly() {
    let mut prev = lg_fixed(1);
    for x in 2u64..200 {
        let cur = lg_fixed(x);
        assert!(cur >= prev);
        prev = cur;
    }
    for x in [1u64, 3, 7, 100, 12345] {
        assert_eq!(lg_fixed(2 * x), lg_fixed(x) + FIXED_ONE);
    }
}

#[test]
fn entropy_of_single_bucket_is_zero() {
    assert_eq!(entropy_weighted(&vec![5]), 0);
    assert_eq!(entropy_weighted(&vec![0, 0, 17, 0]), 0);
    assert_eq!(entropy_weighted(&vec![]), 0);
    assert_eq!(entropy_weighted(&vec![0, 0]), 0);
}

#[test]
fn entropy_of_split_distributions_is_positive() {
    assert!(entropy_weighted(&vec![1, 1]) > 0);
    assert!(entropy_weighted(&vec![1000, 1]) > 0);
    // two equal halves carry exactly one bit per unit of mass
    assert_eq!(entropy_weighted(&vec![2, 2]), 4 * FIXED_ONE);
}

#[test]
fn entropy_of_weighted_distribution() {
    // masses 1, 2, 3 over total 6:
    // 1*(lg 6 - lg 1) + 2*(lg 6 - lg 2) + 3*(lg 6 - lg 3)
    let expected = (lg_fixed(6) - lg_fixed(1))
        + 2 * (lg_fixed(6) - lg_fixed(2))
        + 3 * (lg_fixed(6) - lg_fixed(3));
    assert_eq!(entropy_weighted(&vec![1, 2, 3]), expected);
    assert_eq!(expected, 573760);
}

#[test]
fn uniform_three_way_split_is_log2_of_three() {
    // three singleton buckets: weighted entropy 3 * lg(3); divided by the
    // mass (3) this is log2(3) = 1.585 bits per unit
    assert_eq!(entropy_weighted(&vec![1, 1, 1]), 3 * lg_fixed(3));
}
