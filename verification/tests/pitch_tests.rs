use rzero::container::reported_period;
use rzero::estimate::PitchEstimate;
use rzero::pitch_extractor::{estimate_channel, YinPitchExtractor, PITCH_THRESHOLD_KEY};
use rzero::{CHANNELS, PITCH_MAX_T, WINDOW_SIZE};
use std::cmp::Ordering;

fn est(pitch: usize, confidence: f32) -> PitchEstimate {
    PitchEstimate { pitch, confidence: confidence.to_bits() }
}

fn rows(values: &[f32]) -> Vec<Vec<u32>> {
    values.iter().map(|v| vec![v.to_bits()]).collect()
}

#[test]
fn constants_of_the_container() {
    assert_eq!(CHANNELS, 1);
    assert_eq!(WINDOW_SIZE, 100);
    assert_eq!(PITCH_MAX_T, 150);
}

#[test]
fn threshold_key_orders_like_the_values() {
    assert_eq!(PITCH_THRESHOLD_KEY, 0.1f32.to_bits());
    assert!(0.0f32.to_bits() < PITCH_THRESHOLD_KEY);
    assert!(0.05f32.to_bits() < PITCH_THRESHOLD_KEY);
    assert!(0.0999f32.to_bits() < PITCH_THRESHOLD_KEY);
    assert!(!(0.2f32.to_bits() < PITCH_THRESHOLD_KEY));
    assert!(!(1.0f32.to_bits() < PITCH_THRESHOLD_KEY));
    assert!(!(f32::INFINITY.to_bits() < PITCH_THRESHOLD_KEY));
    assert!(!(f32::NAN.to_bits() < PITCH_THRESHOLD_KEY));
    assert!(0.01f32.to_bits() < 0.02f32.to_bits());
}

#[test]
fn new_estimate_is_unset() {
    let e = PitchEstimate::new();
    assert_eq!(e.pitch, 0);
    assert_eq!(e.confidence, 0);
}

#[test]
fn cmp_prefers_a_period_then_lower_confidence() {
    let unset = PitchEstimate::new();
    let a = est(4, 0.02);
    let b = est(7, 0.05);
    assert_eq!(a.cmp(&b), Ordering::Less);
    assert_eq!(b.cmp(&a), Ordering::Greater);
    assert_eq!(a.cmp(&unset), Ordering::Less);
    assert_eq!(unset.cmp(&a), Ordering::Greater);
    assert_eq!(unset.cmp(&unset), Ordering::Equal);
    assert_eq!(a.cmp(&est(9, 0.02)), Ordering::Equal);
    assert_eq!(a.partial_cmp(&b), Some(Ordering::Less));
    assert!(a.lt(&b));
    assert!(!b.lt(&a));
    assert!(!a.lt(&a));
    assert!(!unset.lt(&a));
}

#[test]
fn unset_estimates_compare_equal_whatever_their_confidence() {
    let x = PitchEstimate { pitch: 0, confidence: 5 };
    let y = PitchEstimate { pitch: 0, confidence: 9 };
    assert_eq!(x.cmp(&y), Ordering::Equal);
    assert!(x != y);
}

#[test]
fn order_laws_on_values() {
    let es = [PitchEstimate::new(), est(3, 0.01), est(5, 0.01), est(2, 0.09), PitchEstimate { pitch: 0, confidence: 7 }];
    for a in es.iter() {
        assert_eq!(a.cmp(a), Ordering::Equal);
        for b in es.iter() {
            assert_eq!(a.cmp(b), b.cmp(a).reverse());
            for c in es.iter() {
                if a.lt(b) && b.lt(c) {
                    assert!(a.lt(c));
                }
                if !b.lt(a) && !c.lt(b) {
                    assert!(!c.lt(a));
                }
            }
        }
    }
}

#[test]
fn estimate_takes_the_first_lag_below_threshold() {
    let norm = rows(&[1.0, 0.5, 0.08, 0.02, 0.3]);
    let e = estimate_channel(&norm, 0);
    assert_eq!(e.pitch, 2);
    assert_eq!(e.confidence, 0.08f32.to_bits());
}

#[test]
fn estimate_is_unset_when_no_lag_is_below_threshold() {
    let norm = rows(&[1.0, 0.5, 0.1, 0.2, f32::NAN]);
    let e = estimate_channel(&norm, 0);
    assert_eq!(e, PitchEstimate::new());
    assert_eq!(estimate_channel(&[], 0), PitchEstimate::new());
}

#[test]
fn estimate_at_lag_zero_keeps_pitch_zero() {
    let norm = rows(&[0.05, 0.01]);
    let e = estimate_channel(&norm, 0);
    assert_eq!(e.pitch, 0);
    assert_eq!(e.confidence, 0.05f32.to_bits());
}

#[test]
fn estimate_reads_the_asked_channel() {
    let norm = vec![
        vec![1.0f32.to_bits(), 1.0f32.to_bits()],
        vec![0.5f32.to_bits(), 0.01f32.to_bits()],
        vec![0.02f32.to_bits(), 0.03f32.to_bits()],
    ];
    assert_eq!(estimate_channel(&norm, 0).pitch, 2);
    assert_eq!(estimate_channel(&norm, 1).pitch, 1);
}

#[test]
fn new_extractor_reports_zero() {
    let x = YinPitchExtractor::new(3, 2);
    assert_eq!(x.n_channels(), 2);
    assert_eq!(x.current(), &[0, 0][..]);
}

#[test]
fn next_reports_the_best_estimate_of_the_window() {
    // max_t = 2: the window holds the estimates of the last 4 frames.
    let mut x = YinPitchExtractor::new(2, 1);
    assert_eq!(x.next(&rows(&[1.0, 0.05])), &[1][..]);
    // A worse estimate does not replace the kept one.
    assert_eq!(x.next(&rows(&[1.0, 0.5, 0.08])), &[1][..]);
    // A better one does.
    assert_eq!(x.next(&rows(&[1.0, 0.5, 0.01])), &[2][..]);
    // No period: the best of the window stays.
    assert_eq!(x.next(&rows(&[1.0, 0.5, 0.5])), &[2][..]);
    assert_eq!(x.current(), &[2][..]);
}

#[test]
fn estimates_leave_the_window_after_twice_max_t_frames() {
    let mut x = YinPitchExtractor::new(2, 1);
    assert_eq!(x.next(&rows(&[1.0, 0.01])), &[1][..]);
    assert_eq!(x.next(&rows(&[1.0, 0.5])), &[1][..]);
    assert_eq!(x.next(&rows(&[1.0, 0.5])), &[1][..]);
    assert_eq!(x.next(&rows(&[1.0, 0.5])), &[1][..]);
    // The frame with the period is now the oldest and leaves on this push.
    assert_eq!(x.next(&rows(&[1.0, 0.5])), &[0][..]);
}

#[test]
fn equally_good_estimates_keep_the_oldest() {
    let mut x = YinPitchExtractor::new(2, 1);
    assert_eq!(x.next(&rows(&[1.0, 0.5, 0.03])), &[2][..]);
    assert_eq!(x.next(&rows(&[1.0, 0.5, 0.5, 0.03])), &[2][..]);
    assert_eq!(x.next(&rows(&[1.0, 0.5, 0.5])), &[2][..]);
    assert_eq!(x.next(&rows(&[1.0, 0.5, 0.5])), &[2][..]);
    // The pitch-2 estimate leaves; the pitch-3 one, as good, remains.
    assert_eq!(x.next(&rows(&[1.0, 0.5, 0.5])), &[3][..]);
}

#[test]
fn channels_are_chosen_independently() {
    let mut x = YinPitchExtractor::new(1, 2);
    let norm = vec![
        vec![1.0f32.to_bits(), 1.0f32.to_bits()],
        vec![0.09f32.to_bits(), 0.5f32.to_bits()],
        vec![0.5f32.to_bits(), 0.02f32.to_bits()],
    ];
    assert_eq!(x.next(&norm), &[1, 2][..]);
}

#[test]
fn reported_period_needs_a_pitch_and_loudness() {
    assert_eq!(reported_period(0, true), None);
    assert_eq!(reported_period(0, false), None);
    assert_eq!(reported_period(40, false), None);
    assert_eq!(reported_period(40, true), Some(40));
}

#[test]
fn current_repeats_what_next_returned() {
    let mut x = YinPitchExtractor::new(3, 1);
    let returned = x.next(&rows(&[1.0, 0.6, 0.04, 0.2])).to_vec();
    assert_eq!(returned, vec![2]);
    assert_eq!(x.current(), &returned[..]);
}

#[test]
fn steady_input_reports_its_own_estimate() {
    let mut x = YinPitchExtractor::new(2, 1);
    let norm = rows(&[1.0, 0.7, 0.3, 0.06, 0.01]);
    for _ in 0..10 {
        assert_eq!(x.next(&norm), &[3][..]);
    }
}
