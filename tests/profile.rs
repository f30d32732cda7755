use matrix_profile::distance::{squared_distance, squared_distance_vectorized};
use matrix_profile::motif::{min_offset, rank_offsets};
use matrix_profile::naive::{
    best_match, distance_profile, distance_profile_normalized, distance_profile_padded,
    index_of_motif_iterator, segment_starts, ProfileError,
};
use matrix_profile::scaling::{normalize, scale, Fraction, ScaledDistance};

fn frac(num: i64, den: i64) -> Fraction {
    Fraction { num, den }
}

#[test]
fn test_distance_profile_raw() {
    let history = Vec::<i32>::from_iter(0..10);
    let window = &history[8..];
    let history = &history[0..8];
    println!("history: {history:?}");
    println!("window: {window:?}");

    let profile = distance_profile(history, window, 1).unwrap();
    println!("profile: {profile:?}");
    assert_eq!(&profile, &[128, 98, 72, 50, 32, 18, 8]);
}

#[test]
fn test_scale() {
    assert!(scale(0, 1, 0).same_value(&frac(0, 1)));
    assert!(scale(0, 1, 1).same_value(&frac(1, 1)));
    assert!(scale(0, 2, 1).same_value(&frac(1, 2)));
    assert!(scale(1, 2, 1).same_value(&frac(0, 1)));
    assert!(scale(1, 2, 2).same_value(&frac(1, 1)));
}

#[test]
fn test_normalize() {
    let vals = Vec::<i32>::from_iter(0..10);
    assert_eq!(normalize(&vals), Vec::from_iter((0..10).map(|v| frac(v, 9))));
}

#[test]
fn test_distance_profile_2d() {
    let xs = Vec::<i32>::from_iter(0..10);
    let ys = Vec::<i32>::from_iter(0..10);
    let history = Vec::from_iter(xs.into_iter().zip(ys).map(|(x, y)| vec![x, y]).flatten());
    println!("2D history: {history:?}");

    let window = &history[16..];
    let history = &history[..16];
    println!("history: {history:?}");
    println!("window: {window:?}");

    let profile = distance_profile(history, window, 2).unwrap();
    println!("profile: {profile:?}");
    assert_eq!(&profile, &[256, 196, 144, 100, 64, 36, 16]);
}

#[test]
fn test_index_of_motif_iterator() {
    let history = Vec::<i32>::from_iter(0..10);
    let window = Vec::<i32>::from_iter(10..13);
    assert_eq!(
        index_of_motif_iterator(&history, &window, 1, false).unwrap(),
        vec![7, 6, 5, 4, 3, 2, 1, 0]
    );
}

#[test]
fn best_match_picks_latest_rising_window() {
    let history = Vec::<i32>::from_iter(0..10);
    let window = Vec::<i32>::from_iter(10..13);
    assert_eq!(best_match(&history, &window, 1, false), Ok(Some(7)));
}

#[test]
fn best_match_absent_when_window_too_long() {
    let history = vec![1, 2];
    let window = vec![1, 2, 3];
    assert_eq!(best_match(&history, &window, 1, false), Ok(None));
    assert_eq!(best_match(&history, &window, 0, true), Err(ProfileError::InvalidDimension));
}

#[test]
fn distance_is_symmetric_and_zero_on_itself() {
    let a = vec![3, -7, 12, 0, 5];
    let b = vec![-1, 4, 9, 9, -20];
    assert_eq!(squared_distance(&a, &b), squared_distance(&b, &a));
    assert_eq!(squared_distance(&a, &b), 16 + 121 + 9 + 81 + 625);
    assert_eq!(squared_distance(&a, &a), 0);
    assert_eq!(squared_distance(&[], &[]), 0);
}

#[test]
fn distance_of_extreme_samples_is_exact() {
    let a = vec![i32::MIN; 40];
    let b = vec![i32::MAX; 40];
    let one = (u32::MAX as u128) * (u32::MAX as u128);
    assert_eq!(squared_distance(&a, &b), 40 * one);
    assert_eq!(squared_distance_vectorized(&a, &b), 40 * one);
}

#[test]
fn vectorized_agrees_with_scalar() {
    let mut state: u64 = 0x2545_f491_4f6c_dd1d;
    let mut next = || {
        state = state.wrapping_mul(6364136223846793005).wrapping_add(1442695040888963407);
        (state >> 33) as i32
    };
    for len in 0..70 {
        let a: Vec<i32> = (0..len).map(|_| next()).collect();
        let b: Vec<i32> = (0..len).map(|_| next()).collect();
        assert_eq!(squared_distance(&a, &b), squared_distance_vectorized(&a, &b));
    }
}

#[test]
fn vectorized_counts_the_tail_past_whole_blocks() {
    let a = vec![0; 17];
    let mut b = vec![0; 17];
    b[16] = 3;
    b[0] = 1;
    assert_eq!(squared_distance_vectorized(&a, &b), 10);
}

#[test]
fn single_dimension_profile_length() {
    let history = Vec::<i32>::from_iter(0..25);
    for w in 1..=25 {
        let window = vec![0; w];
        let profile = distance_profile(&history, &window, 1).unwrap();
        assert_eq!(profile.len(), 25 - w + 1);
    }
}

#[test]
fn profile_is_idempotent() {
    let history = vec![4, -2, 7, 7, 1, 0, 3, 9];
    let window = vec![1, 2];
    assert_eq!(
        distance_profile(&history, &window, 2),
        distance_profile(&history, &window, 2)
    );
}

#[test]
fn profile_rejects_bad_shapes() {
    let history = vec![1, 2, 3, 4];
    assert_eq!(distance_profile(&history, &[1, 2], 0), Err(ProfileError::InvalidDimension));
    assert_eq!(distance_profile(&history, &[], 1), Err(ProfileError::InvalidDimension));
    assert_eq!(distance_profile(&history, &[1, 2, 3], 2), Err(ProfileError::InvalidDimension));
    assert_eq!(
        distance_profile(&history, &[1, 2, 3, 4, 5, 6], 2),
        Err(ProfileError::WindowTooLarge)
    );
    assert_eq!(distance_profile(&history, &[1, 2, 3, 4], 2), Ok(vec![0]));
}

#[test]
fn padded_profile_ends_at_segment_end() {
    let history = Vec::<i32>::from_iter(0..8);
    let window = vec![8, 9];
    assert_eq!(
        distance_profile_padded(&history, &window),
        Ok(vec![0, 128, 98, 72, 50, 32, 18, 8])
    );
    assert_eq!(distance_profile_padded(&history, &[]), Err(ProfileError::InvalidDimension));
}

#[test]
fn normalized_profile_exact_fractions() {
    let history = vec![0, 2, 4, 1, 1];
    let window = vec![0, 1, 2];
    assert_eq!(
        distance_profile_normalized(&history, &window, 1),
        Ok(vec![
            ScaledDistance { num: 0, den: 64 },
            ScaledDistance { num: 49, den: 36 },
            ScaledDistance { num: 81, den: 36 },
        ])
    );
}

#[test]
fn normalized_constant_window_is_undefined() {
    let history = vec![1, 2, 3];
    let window = vec![5, 5];
    assert_eq!(
        distance_profile_normalized(&history, &window, 1),
        Ok(vec![ScaledDistance { num: 0, den: 0 }, ScaledDistance { num: 0, den: 0 }])
    );
    assert_eq!(normalize(&[7, 7]), vec![frac(0, 0), frac(0, 0)]);
}

#[test]
fn normalized_overflow_is_reported() {
    let history = vec![i32::MAX, i32::MIN];
    let window = vec![i32::MIN, i32::MAX];
    assert_eq!(
        distance_profile_normalized(&history, &window, 1),
        Err(ProfileError::Overflow)
    );
    assert_eq!(
        distance_profile_normalized(&history, &[1, 2, 3], 1),
        Err(ProfileError::WindowTooLarge)
    );
}

#[test]
fn ranking_breaks_ties_by_offset() {
    let profile: Vec<u128> = vec![5, 1, 5, 0, 1];
    assert_eq!(rank_offsets(&profile), vec![3, 1, 4, 0, 2]);
    assert_eq!(min_offset(&profile), Some(3));
    assert_eq!(min_offset(&vec![2, 1, 1]), Some(1));
    assert_eq!(min_offset::<u128>(&vec![]), None);
    assert_eq!(rank_offsets::<u128>(&vec![]), Vec::<usize>::new());
}

#[test]
fn scale_maps_bounds_to_zero_and_one() {
    assert!(scale(-5, 11, -5).same_value(&frac(0, 1)));
    assert!(scale(-5, 11, 11).same_value(&frac(1, 1)));
    assert!(!scale(3, 3, 3).same_value(&frac(0, 1)));
}

#[test]
fn normalized_motif_search_ranks_undefined_last() {
    let history = vec![3, 3, 3, 0, 5];
    let window = vec![0, 1];
    assert_eq!(
        distance_profile_normalized(&history, &window, 1),
        Ok(vec![
            ScaledDistance { num: 0, den: 0 },
            ScaledDistance { num: 0, den: 0 },
            ScaledDistance { num: 18, den: 9 },
            ScaledDistance { num: 0, den: 25 },
        ])
    );
    assert_eq!(index_of_motif_iterator(&history, &window, 1, true), Ok(vec![3, 2, 0, 1]));
    assert_eq!(best_match(&history, &window, 1, true), Ok(Some(3)));
    assert_eq!(index_of_motif_iterator(&history, &window, 1, false), Ok(vec![2, 0, 1, 3]));
}

#[test]
fn normalized_motif_search_on_rising_series() {
    let history = vec![0, 2, 4, 1, 1];
    let window = vec![0, 1, 2];
    assert_eq!(index_of_motif_iterator(&history, &window, 1, true), Ok(vec![0, 1, 2]));
    assert_eq!(best_match(&history, &window, 1, true), Ok(Some(0)));
    let wide_history = vec![i32::MAX, i32::MIN];
    let wide_window = vec![i32::MIN, i32::MAX];
    assert_eq!(
        best_match(&wide_history, &wide_window, 1, true),
        Err(ProfileError::Overflow)
    );
    assert_eq!(
        index_of_motif_iterator(&wide_history, &wide_window, 1, true),
        Err(ProfileError::Overflow)
    );
}

#[test]
fn scaled_distances_compare_exactly_near_the_top() {
    let m = u128::MAX;
    let smaller = ScaledDistance { num: m, den: m - 1 };
    let larger = ScaledDistance { num: m - 1, den: m - 2 };
    assert_eq!(rank_offsets(&vec![larger, smaller]), vec![1, 0]);
    assert_eq!(min_offset(&vec![larger, smaller, smaller]), Some(1));
    let half = ScaledDistance { num: 1, den: 2 };
    let also_half = ScaledDistance { num: 2, den: 4 };
    assert_eq!(rank_offsets(&vec![also_half, half]), vec![0, 1]);
}

#[test]
fn segment_starts_step_by_dimension() {
    assert_eq!(segment_starts(10, 4, 2), Ok(vec![0, 2, 4, 6]));
    assert_eq!(segment_starts(10, 3, 1), Ok(vec![0, 1, 2, 3, 4, 5, 6, 7]));
    assert_eq!(segment_starts(3, 4, 2), Err(ProfileError::WindowTooLarge));
    assert_eq!(segment_starts(10, 3, 2), Err(ProfileError::InvalidDimension));
}
