use disky::pattern::{spike_pattern, stride_profile, Pattern, StrideProfile};

#[test]
fn pattern_json_strings_are_snake_case() {
    assert_eq!(Pattern::LogShaped.as_str(), "log_shaped");
    assert_eq!(Pattern::Burst.as_str(), "burst");
    assert_eq!(Pattern::Stable.as_str(), "stable");
    assert_eq!(Pattern::Declining.as_str(), "declining");
    assert_eq!(Pattern::Unknown.as_str(), "unknown");
}

fn series(bytes: &[u64]) -> Vec<(i64, u64)> {
    bytes.iter().enumerate().map(|(i, b)| (1000 + 60 * i as i64, *b)).collect()
}

#[test]
fn spike_in_first_third_is_log_shaped() {
    assert_eq!(spike_pattern(0, 4), Pattern::LogShaped);
    assert_eq!(spike_pattern(1, 4), Pattern::Burst);
    assert_eq!(spike_pattern(1, 5), Pattern::Burst);
    assert_eq!(spike_pattern(1, 6), Pattern::LogShaped);
    assert_eq!(spike_pattern(0, 2), Pattern::Burst);
}

#[test]
fn stride_profile_of_growth_series() {
    let p = stride_profile(&series(&[10, 100, 101, 103, 100]));
    assert_eq!(
        p,
        StrideProfile { n_strides: 4, max_stride: 90, max_idx: 0, median_lo: 2, median_hi: 3 }
    );
}

#[test]
fn stride_profile_ties_and_small_inputs() {
    let p = stride_profile(&series(&[5, 7, 5, 7]));
    assert_eq!(p, StrideProfile { n_strides: 3, max_stride: 2, max_idx: 0, median_lo: 2, median_hi: 2 });
    let e = stride_profile(&[]);
    assert_eq!(e, StrideProfile { n_strides: 0, max_stride: 0, max_idx: 0, median_lo: 0, median_hi: 0 });
    let one = stride_profile(&series(&[9]));
    assert_eq!(one.n_strides, 0);
    let flat = stride_profile(&series(&[5_000_000; 6]));
    assert_eq!(flat.max_stride, 0);
}

#[test]
fn stride_profile_earliest_of_equal_spikes_wins() {
    let p = stride_profile(&series(&[0, 100, 100, 200]));
    assert_eq!(p.max_stride, 100);
    assert_eq!(p.max_idx, 0);
}
