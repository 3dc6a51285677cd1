use chzzk_chat::stats::{ewma, mad, median, SCALE};

#[test]
fn median_of_three_is_middle() {
    assert_eq!(median(&vec![SCALE, 2 * SCALE, 3 * SCALE]), 2 * SCALE);
}

#[test]
fn median_of_four_averages_middle_pair() {
    assert_eq!(median(&vec![SCALE, 2 * SCALE, 3 * SCALE, 4 * SCALE]), 2_500_000);
}

#[test]
fn median_sorts_unordered_input() {
    assert_eq!(median(&vec![9, 1, 5, 3, 7]), 5);
    assert_eq!(median(&vec![40, 10, 30, 20]), 25);
}

#[test]
fn median_of_negative_values_rounds_down() {
    assert_eq!(median(&vec![-3 * SCALE, 0]), -1_500_000);
    assert_eq!(median(&vec![-3, 0]), -2);
    assert_eq!(median(&vec![-5, 7, -1]), -1);
}

#[test]
fn mad_of_signed_values() {
    // values -2, 0, 2: median 0, deviations 2, 0, 2 -> median 2
    assert_eq!(mad(&vec![-2 * SCALE, 0, 2 * SCALE]), 2 * SCALE);
}

#[test]
fn median_of_empty_is_zero() {
    assert_eq!(median(&Vec::new()), 0);
}

#[test]
fn mad_of_constant_series_is_floor() {
    assert_eq!(mad(&vec![7 * SCALE; 9]), SCALE);
    assert_eq!(mad(&vec![0; 4]), SCALE);
}

#[test]
fn mad_of_empty_is_floor() {
    assert_eq!(mad(&Vec::new()), SCALE);
}

#[test]
fn mad_of_spread_values() {
    // values 1..=5: median 3, deviations 2,1,0,1,2 -> median 1
    let v: Vec<i128> = (1..=5).map(|x| x * SCALE).collect();
    assert_eq!(mad(&v), SCALE);
    // values 0, 0, 10: median 0, deviations 0, 0, 10 -> median 0 -> floor
    assert_eq!(mad(&vec![0, 0, 10 * SCALE]), SCALE);
    // values 2, 4, 8, 16: median 6, deviations 4, 2, 2, 10 -> median 3
    assert_eq!(mad(&vec![2 * SCALE, 4 * SCALE, 8 * SCALE, 16 * SCALE]), 3 * SCALE);
}

#[test]
fn ewma_seed_equals_first_rate() {
    for alpha in [1, 200_000, 500_000, SCALE] {
        let s = ewma(&vec![5, 0, 3], alpha);
        assert_eq!(s[0], 5 * SCALE);
    }
}

#[test]
fn ewma_blends_new_count() {
    let s = ewma(&vec![0, 10, 10], 200_000);
    assert_eq!(s, vec![0, 2 * SCALE, 3_600_000]);
}

#[test]
fn ewma_with_full_weight_follows_rate() {
    let s = ewma(&vec![4, 1, 9], SCALE);
    assert_eq!(s, vec![4 * SCALE, SCALE, 9 * SCALE]);
}

#[test]
fn ewma_of_empty_is_empty() {
    assert!(ewma(&Vec::new(), 200_000).is_empty());
}
