use chzzk_chat::relations::is_time_range_overlapping;

const H: i64 = 3600;

#[test]
fn overlapping_ranges_with_buffer() {
    // target 10:00 ~ 17:00
    assert!(is_time_range_overlapping(10 * H, 17 * H, 5 * H, 15 * H));
    assert!(is_time_range_overlapping(10 * H, 17 * H, 15 * H, 19 * H));
    assert!(!is_time_range_overlapping(10 * H, 17 * H, 18 * H, 21 * H));
    // within the ten-minute buffer after the end
    assert!(is_time_range_overlapping(10 * H, 17 * H, 17 * H + 300, 18 * H));
    // just past the buffer before the start
    assert!(!is_time_range_overlapping(10 * H, 17 * H, 8 * H, 10 * H - 600));
}

#[test]
fn overlap_at_extreme_times_does_not_overflow() {
    assert!(is_time_range_overlapping(i64::MIN, i64::MAX, i64::MIN, i64::MAX));
}
