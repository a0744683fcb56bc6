use grid_judge::buffer::Buffer;
use grid_judge::score::{score, Score};

#[test]
fn end_to_end_on_two_by_two() {
    let mut b = Buffer::new();
    b.set_first_state(vec![1, 2, 3, 4], 2);
    b.set_b_state(vec![1, 2, 3, 5]);
    b.set_op(vec![1, 1, 4, 5]);
    b.update_applications(vec![0, 1, 1]);
    assert_eq!(b.now_state_ptr(), &[1u32, 2, 3, 5][..]);
    assert_eq!(b.change_log().len(), 1);
    assert_eq!(b.score(), Some(Score { raw_error: 5, normalized: 800_000_000 }));
}

#[test]
fn score_follows_the_current_step() {
    let mut b = Buffer::new();
    b.set_first_state(vec![1, 2, 3, 4], 2);
    b.set_b_state(vec![1, 2, 3, 5]);
    b.set_op(vec![1, 1, 4, 5]);
    b.update_applications(vec![0, 1, 1]);
    assert!(b.set_time(0));
    // 4 + 0 + (4 - 5)^2 = 5 as well, by another way
    assert_eq!(b.score(), Some(Score { raw_error: 5, normalized: 800_000_000 }));
    b.set_b_state(vec![1, 2, 3, 4]);
    assert_eq!(b.score(), Some(Score { raw_error: 4, normalized: 1_000_000_000 }));
}

#[test]
fn perfect_outcome_scores_full() {
    let grid = [3u32, 1, 4, 1, 5, 9, 2, 6, 5];
    assert_eq!(score(3, &grid, &grid, 0), Some(Score { raw_error: 9, normalized: 1_000_000_000 }));
}

#[test]
fn every_step_and_every_difference_counts() {
    let target = [0u32, 0, 0, 0];
    // 4 + 3 + (1 + 4 + 9 + 0) = 21; 4e9 / 21 = 190476190.47...
    assert_eq!(
        score(2, &[1, 2, 3, 0], &target, 3),
        Some(Score { raw_error: 21, normalized: 190_476_190 })
    );
    // differences count the same in both directions
    assert_eq!(
        score(2, &target, &[1, 2, 3, 0], 3),
        Some(Score { raw_error: 21, normalized: 190_476_190 })
    );
    // 4 + 1 + 0 = 5
    assert_eq!(score(2, &target, &target, 1), Some(Score { raw_error: 5, normalized: 800_000_000 }));
}

#[test]
fn normalized_score_is_rounded_to_nearest() {
    let cell = [0u32];
    // 1e9 / 3 = 333333333.33...
    assert_eq!(score(1, &cell, &cell, 2).unwrap().normalized, 333_333_333);
    // 1e9 / 7 = 142857142.857...
    assert_eq!(score(1, &cell, &cell, 6).unwrap().normalized, 142_857_143);
    // 1e9 / 1024 = 976562.5: a half goes up
    assert_eq!(score(1, &cell, &cell, 1023).unwrap().normalized, 976_563);
    // 1e9 / 2e9 = 0.5
    assert_eq!(score(1, &cell, &cell, 1_999_999_999).unwrap().normalized, 1);
    // 1e9 / 2000000001 < 0.5
    assert_eq!(score(1, &cell, &cell, 2_000_000_000).unwrap().normalized, 0);
}

#[test]
fn only_the_first_n_times_n_cells_count() {
    assert_eq!(
        score(1, &[7, 100, 100], &[7, 0], 0),
        Some(Score { raw_error: 1, normalized: 1_000_000_000 })
    );
}

#[test]
fn score_bounds_on_generated_instances() {
    for seed in [0u32, 1, 5489] {
        let mut b = Buffer::new();
        b.random_gen(seed);
        let n = b.size() as u64;
        let s = b.score().unwrap();
        assert!(s.raw_error >= n * n);
        assert!(0 < s.normalized && s.normalized <= 1_000_000_000);
        assert!(s.raw_error > n * n);
        let initial = b.first_state_ptr().to_vec();
        b.set_b_state(initial);
        assert_eq!(b.score(), Some(Score { raw_error: n * n, normalized: 1_000_000_000 }));
    }
}

#[test]
fn far_off_outcome_scores_zero() {
    // 1 + 0 + 100000^2: far more than two thousand million times n * n
    assert_eq!(
        score(1, &[0], &[100_000], 0),
        Some(Score { raw_error: 10_000_000_001, normalized: 0 })
    );
}

#[test]
fn largest_difference_of_one_cell() {
    // 1 + (2^32 - 1)^2
    assert_eq!(
        score(1, &[u32::MAX], &[0], 0),
        Some(Score { raw_error: 18_446_744_065_119_617_026, normalized: 0 })
    );
}

#[test]
fn no_score_without_an_error_to_divide_by() {
    assert_eq!(score(0, &[], &[], 0), None);
    assert_eq!(score(0, &[1, 2], &[3], 0), None);
    // with steps there is something to divide by
    assert_eq!(score(0, &[], &[], 4), Some(Score { raw_error: 4, normalized: 0 }));
    let b = Buffer::new();
    assert_eq!(b.score(), None);
}

#[test]
fn no_score_beyond_64_bits() {
    // Two cells at the largest difference: 4 + 2 * (2^32 - 1)^2 > 2^64
    let far = [u32::MAX, u32::MAX, 0, 0];
    let zero = [0u32, 0, 0, 0];
    assert_eq!(score(2, &far, &zero, 0), None);
    assert_eq!(score(1, &[u32::MAX], &[0], u64::MAX as usize), None);
}
