use beeps::signal::Signal;
use beeps::smoother::Smoother;
use beeps::wave::{bookend, SMOOTH_STEP};

#[test]
fn ramp_climbs_from_start_to_stop() {
    // start 10 pulled off the first sequence, stop 25 off the second
    let s = Smoother::new(Signal::table(vec![10]), Signal::table(vec![25, 99]), 5);
    assert_eq!(s.into_signal().collect_forward(), vec![10, 15, 20, 25, 99]);
}

#[test]
fn ramp_falls_when_the_seam_descends() {
    let s = Smoother::new(Signal::table(vec![30]), Signal::table(vec![7, 1]), 10);
    assert_eq!(s.into_signal().collect_forward(), vec![30, 20, 10, 7, 1]);
}

#[test]
fn ramp_keeps_both_endpoints_on_uneven_steps() {
    // 0 -> 7 by 5 overshoots: the stop is appended exactly
    let s = Smoother::new(Signal::table(vec![0]), Signal::table(vec![7]), 5);
    assert_eq!(s.into_signal().collect_forward(), vec![0, 5, 7]);
}

#[test]
fn ramp_between_equal_samples_is_that_sample() {
    let s = Smoother::new(Signal::table(vec![4]), Signal::table(vec![4, 9]), 3);
    assert_eq!(s.into_signal().collect_forward(), vec![4, 9]);
}

#[test]
fn ramp_count_matches_the_ceiling_formula() {
    // ceil(|stop - start| / step) + 1 samples, endpoints included
    for (start, stop, step) in [(0i32, 20i32, 5i32), (0, 21, 5), (0, 24, 5), (9, 2, 3), (5, 5, 2)]
    {
        let s = Smoother::new(
            Signal::table(vec![start]),
            Signal::table(vec![stop]),
            step,
        );
        let out = s.into_signal().collect_forward();
        let diff = (stop - start).unsigned_abs() as i32;
        let expected = (diff + step - 1) / step + 1;
        assert_eq!(out.len() as i32, expected, "ramp {:?}", (start, stop, step));
        assert_eq!(out[0], start);
        assert_eq!(*out.last().unwrap(), stop);
        let climbing = start <= stop;
        for w in out.windows(2) {
            if climbing {
                assert!(w[0] <= w[1], "not monotonic: {:?}", out);
            } else {
                assert!(w[0] >= w[1], "not monotonic: {:?}", out);
            }
        }
    }
}

#[test]
fn smoothing_an_empty_first_sequence_changes_nothing() {
    let s = Smoother::new(Signal::table(Vec::new()), Signal::table(vec![1, 2]), 5);
    assert_eq!(s.into_signal().collect_forward(), vec![1, 2]);
}

#[test]
fn smoothing_into_an_empty_second_sequence_changes_nothing() {
    let s = Smoother::new(Signal::table(vec![1, 2]), Signal::table(Vec::new()), 5);
    assert_eq!(s.into_signal().collect_forward(), vec![1, 2]);
}

#[test]
fn smoother_drains_backward_reversed() {
    let forward = Smoother::new(Signal::table(vec![10, 20]), Signal::table(vec![26, 1]), 3)
        .into_signal()
        .collect_forward();
    let backward = Smoother::new(Signal::table(vec![10, 20]), Signal::table(vec![26, 1]), 3)
        .into_signal()
        .collect_backward();
    let mut reversed = forward.clone();
    reversed.reverse();
    assert_eq!(backward, reversed);
}

#[test]
fn smoothers_nest() {
    // fade the seam of an already-smoothed pair into a further sequence
    let inner = Smoother::new(Signal::table(vec![0]), Signal::table(vec![6]), 3);
    let outer = Smoother::new(inner.into_signal(), Signal::table(vec![0]), 3);
    // inner is [0, 3, 6]; its last sample ramps back down to 0
    assert_eq!(outer.into_signal().collect_forward(), vec![0, 3, 6, 3, 0]);
}

#[test]
fn bookend_of_zero_silence_is_the_signal_itself() {
    let b = bookend(Signal::table(vec![5, 6, 7]), 0);
    assert_eq!(b.collect_forward(), vec![5, 6, 7]);
}

#[test]
fn bookend_fades_in_and_out_through_silence() {
    let b = bookend(Signal::table(vec![9]), 1);
    let out = b.collect_forward();
    // the smoothing step covers the whole seam in one stride, so the
    // lone sample is left framed by the 45-sample silences, with each
    // ramp contributing only the endpoints already present
    let mut expected = vec![0i32; 45];
    expected.push(9);
    expected.extend_from_slice(&vec![0i32; 45]);
    assert_eq!(out, expected);
    assert!(SMOOTH_STEP > 9);
}
