use rustfl::error::FlError;
use rustfl::interpolation::combine;
use rustfl::secure_dp_utils::{
    reconstruct_weights, secret_share_weights, shares_of_polynomials, valid_share_counts,
};
use rustfl::share_text::{decode_share_set, encode_share_set, share_set_bytes};
use rustfl::sharing::{COEFFICIENT_BOUND, WEIGHT_SCALE};

fn fixed(value: f64) -> i64 {
    (value * WEIGHT_SCALE as f64).round() as i64
}

#[test]
fn test_secret_share_weights() {
    let weights = vec![fixed(10.0), fixed(20.0), fixed(30.0)];
    let num_shares = 1;
    let threshold = 1;

    let shares = secret_share_weights(weights.clone(), num_shares, threshold).unwrap();

    assert_eq!(shares.len(), num_shares);
    assert_eq!(shares[0].len(), weights.len());
}

#[test]
fn threshold_one_makes_every_share_the_secret() {
    let weights = vec![7, -3, 0, i64::MAX, i64::MIN];
    let shares = secret_share_weights(weights.clone(), 4, 1).unwrap();
    assert_eq!(shares.len(), 4);
    for set in &shares {
        let expected: Vec<i128> = weights.iter().map(|w| *w as i128).collect();
        assert_eq!(set, &expected);
    }
}

#[test]
fn no_shares_to_make_gives_no_share_sets() {
    assert_eq!(secret_share_weights(vec![1, 2, 3], 0, 1), Ok(vec![]));
    assert_eq!(secret_share_weights(vec![1, 2, 3], 0, 0), Ok(vec![]));
}

#[test]
fn empty_weights_give_empty_share_sets() {
    let shares = secret_share_weights(vec![], 3, 2).unwrap();
    assert_eq!(shares, vec![Vec::<i128>::new(), vec![], vec![]]);
}

#[test]
fn invalid_counts_are_a_share_count_error() {
    assert_eq!(secret_share_weights(vec![1], 3, 0), Err(FlError::ShareCountError));
    assert_eq!(secret_share_weights(vec![1], 3, 4), Err(FlError::ShareCountError));
    assert_eq!(secret_share_weights(vec![], 1, 2), Err(FlError::ShareCountError));
}

#[test]
fn counts_whose_shares_leave_128_bits_are_a_share_count_error() {
    // 99_999_999 * 1000 * (1 + 1000 + ... + 1000^9) exceeds 2^126.
    assert_eq!(secret_share_weights(vec![1], 1000, 11), Err(FlError::ShareCountError));
    // 99_999_999 * 1000 * (1 + ... + 1000^8) is about 10^35 and fits.
    assert!(secret_share_weights(vec![1], 1000, 10).is_ok());
}

#[test]
fn shares_lie_on_a_polynomial_with_coefficients_in_range() {
    let weights = vec![fixed(0.25), fixed(-1.5)];
    let shares = secret_share_weights(weights.clone(), 5, 2).unwrap();
    for (c, weight) in weights.iter().enumerate() {
        let slope = shares[1][c] - shares[0][c];
        assert!(0 <= slope && slope < COEFFICIENT_BOUND as i128);
        for i in 0..5 {
            assert_eq!(shares[i][c], *weight as i128 + slope * (i as i128 + 1));
        }
    }
}

#[test]
fn any_quorum_recovers_every_weight() {
    let weights = vec![fixed(10.0), fixed(-20.5), 0, i64::MAX, i64::MIN, 1];
    let num_shares = 5;
    let threshold = 3;
    let shares = secret_share_weights(weights.clone(), num_shares, threshold).unwrap();
    for mask in 0u32..(1 << num_shares) {
        let picks: Vec<usize> = (0..num_shares).filter(|i| mask & (1 << i) != 0).collect();
        if picks.len() < threshold {
            continue;
        }
        for (c, weight) in weights.iter().enumerate() {
            let points: Vec<(u64, i128)> =
                picks.iter().map(|i| (*i as u64 + 1, shares[*i][c])).collect();
            assert_eq!(combine(&points), Ok(*weight as i128));
            let mut reversed = points.clone();
            reversed.reverse();
            assert_eq!(combine(&reversed), Ok(*weight as i128));
        }
    }
}

#[test]
fn reconstruction_undoes_the_split() {
    let weights = vec![fixed(1.0), fixed(2.0), fixed(-3.75)];
    let shares = secret_share_weights(weights.clone(), 3, 2).unwrap();
    assert_eq!(reconstruct_weights(&shares), Ok(weights));
}

#[test]
fn combine_interpolates_at_zero() {
    // y = 5 + 2x
    assert_eq!(combine(&vec![(1, 7), (2, 9)]), Ok(5));
    // y = 4 - 3x + x^2
    assert_eq!(combine(&vec![(1, 2), (2, 2), (3, 4)]), Ok(4));
    // the same points, more than needed and out of order
    assert_eq!(combine(&vec![(4, 8), (1, 2), (3, 4), (2, 2)]), Ok(4));
    // a single share is the secret
    assert_eq!(combine(&vec![(9, -12)]), Ok(-12));
}

#[test]
fn combine_rejects_what_is_not_a_set_of_shares() {
    assert_eq!(combine(&vec![]), Err(FlError::MalformedUpdate));
    // the same position twice
    assert_eq!(combine(&vec![(1, 7), (1, 7)]), Err(FlError::MalformedUpdate));
    // a slope that is not a whole number
    assert_eq!(combine(&vec![(1, 0), (3, 1)]), Err(FlError::MalformedUpdate));
    // a difference that leaves 128 bits
    assert_eq!(combine(&vec![(1, i128::MIN), (2, i128::MAX)]), Err(FlError::MalformedUpdate));
}

#[test]
fn reconstruction_rejects_malformed_share_sets() {
    assert_eq!(reconstruct_weights(&vec![]), Err(FlError::MalformedUpdate));
    assert_eq!(reconstruct_weights(&vec![vec![1, 2], vec![3]]), Err(FlError::MalformedUpdate));
    // a weight that leaves 64 bits
    assert_eq!(
        reconstruct_weights(&vec![vec![i64::MAX as i128 + 1]]),
        Err(FlError::MalformedUpdate)
    );
    assert_eq!(reconstruct_weights(&vec![vec![5, 6], vec![7, 9]]), Ok(vec![3, 3]));
}

#[test]
fn share_text_is_one_hexadecimal_word_for_each_share() {
    assert_eq!(encode_share_set(&vec![]), "");
    assert_eq!(encode_share_set(&vec![0]), "80000000000000000000000000000000");
    assert_eq!(
        encode_share_set(&vec![1, -1]),
        "800000000000000000000000000000017fffffffffffffffffffffffffffffff"
    );
    assert_eq!(
        encode_share_set(&vec![i128::MIN, i128::MAX, 0xabcdef]),
        "00000000000000000000000000000000ffffffffffffffffffffffffffffffff80000000000000000000000000abcdef"
    );
    assert_eq!(share_set_bytes(&vec![255]), b"800000000000000000000000000000ff".to_vec());
}

#[test]
fn share_text_reads_back() {
    let shares = vec![0, 1, -1, i128::MAX, i128::MIN, 123_456_789_012_345_678_901_234_567_890];
    let text = encode_share_set(&shares);
    assert_eq!(decode_share_set(text.as_bytes()), Some(shares));
    assert_eq!(decode_share_set(b""), Some(vec![]));
}

#[test]
fn malformed_share_text_does_not_read() {
    // not a whole number of words
    assert_eq!(decode_share_set(b"8000"), None);
    // upper-case digits are not written, so they are not read
    assert_eq!(decode_share_set(b"800000000000000000000000000000FF"), None);
    assert_eq!(decode_share_set(b"8000000000000000000000000000000g"), None);
    assert_eq!(decode_share_set(b"8000000000000000000000000000000 "), None);
}

#[test]
fn shares_are_the_values_of_the_polynomials() {
    // 5 + 2x and -4 + x at 1, 2, 3
    let polys = vec![vec![5, 2], vec![-4, 1]];
    assert_eq!(
        shares_of_polynomials(&polys, 3, 2),
        Some(vec![vec![7, -3], vec![9, -2], vec![11, -1]])
    );
    // 1 + 2x + 3x^2 at 1..4
    assert_eq!(
        shares_of_polynomials(&vec![vec![1, 2, 3]], 4, 3),
        Some(vec![vec![6], vec![17], vec![34], vec![57]])
    );
    assert_eq!(shares_of_polynomials(&vec![], 2, 1), Some(vec![vec![], vec![]]));
    let largest = COEFFICIENT_BOUND - 1;
    assert_eq!(
        shares_of_polynomials(&vec![vec![i64::MIN, largest]], 2, 2),
        Some(vec![
            vec![i64::MIN as i128 + largest as i128],
            vec![i64::MIN as i128 + 2 * largest as i128]
        ])
    );
}

#[test]
fn what_is_no_masking_polynomial_gives_no_shares() {
    // a coefficient out of range
    assert_eq!(shares_of_polynomials(&vec![vec![5, -1]], 3, 2), None);
    assert_eq!(shares_of_polynomials(&vec![vec![5, COEFFICIENT_BOUND]], 3, 2), None);
    // not as many coefficients as the threshold
    assert_eq!(shares_of_polynomials(&vec![vec![5, 2, 1]], 3, 2), None);
    assert_eq!(shares_of_polynomials(&vec![vec![5, 2], vec![]], 3, 2), None);
    // counts that are not valid
    assert_eq!(shares_of_polynomials(&vec![vec![5, 2]], 1, 2), None);
    assert_eq!(shares_of_polynomials(&vec![], 0, 0), None);
}

#[test]
fn share_counts_are_valid_within_their_bounds() {
    assert!(valid_share_counts(1, 1));
    assert!(valid_share_counts(3, 2));
    assert!(valid_share_counts(usize::MAX, 1));
    assert!(valid_share_counts(1000, 10));
    assert!(!valid_share_counts(1000, 11));
    assert!(!valid_share_counts(0, 0));
    assert!(!valid_share_counts(3, 0));
    assert!(!valid_share_counts(3, 4));
    assert!(!valid_share_counts(usize::MAX, usize::MAX));
}
