//! Tests for the device-sink boundary adapter.

use bpsim::device::reconcile_intensities;

#[test]
fn three_values_for_two_motors_truncate() {
    assert_eq!(
        reconcile_intensities(vec![100_000, 200_000, 300_000], 2),
        vec![100_000, 200_000]
    );
}

#[test]
fn one_value_for_three_motors_pads_with_zeroes() {
    assert_eq!(
        reconcile_intensities(vec![700_000], 3),
        vec![700_000, 0, 0]
    );
}

#[test]
fn matching_lengths_pass_through() {
    assert_eq!(
        reconcile_intensities(vec![1, 2], 2),
        vec![1, 2]
    );
    assert_eq!(reconcile_intensities(vec![], 0), vec![]);
}
