use beeps::tables::{get_pitch, lcm, multi_sin_table, sin_table, transition_table, PITCH_SCALE};

#[test]
fn pitch_is_inverse_of_frequency_code() {
    assert_eq!(get_pitch(200), 22_500);
    assert_eq!(get_pitch(1), PITCH_SCALE);
    assert_eq!(get_pitch(PITCH_SCALE), 1);
    // codes above the scale collapse to a zero period
    assert_eq!(get_pitch(PITCH_SCALE + 1), 0);
}

#[test]
fn sin_table_has_length_of_its_period() {
    for p in [1usize, 2, 3, 10, 100, 22_500] {
        assert_eq!(sin_table(p).len(), p);
    }
}

#[test]
fn sin_table_zero_period_is_one_silent_sample() {
    assert_eq!(sin_table(0), vec![0]);
}

#[test]
fn sin_table_starts_near_zero() {
    for p in [1usize, 4, 7, 100, 22_500] {
        let v = sin_table(p);
        assert!(v[0].abs() <= 32_768, "sin_table({})[0] = {}", p, v[0]);
    }
}

#[test]
fn sin_table_quarter_points_hit_the_extremes() {
    // one period of 4 samples: 0, sin(pi/2), sin(pi), sin(3pi/2)
    let v = sin_table(4);
    assert!(v[1] > 2_000_000_000, "quarter point was {}", v[1]);
    assert!(v[2].abs() <= 50_000, "half point was {}", v[2]);
    assert!(v[3] < -2_000_000_000, "three-quarter point was {}", v[3]);
}

#[test]
fn lcm_of_examples() {
    assert_eq!(lcm(&[4, 6]), 12);
    assert_eq!(lcm(&[5]), 5);
    assert_eq!(lcm(&[]), 0);
}

#[test]
fn lcm_of_more_lists() {
    assert_eq!(lcm(&[2, 3, 4]), 12);
    assert_eq!(lcm(&[7, 7]), 7);
    assert_eq!(lcm(&[1, 9]), 9);
    assert_eq!(lcm(&[6, 10, 15]), 30);
}

#[test]
fn chord_table_is_one_lcm_cycle_long() {
    assert_eq!(multi_sin_table(&[4, 6]).len(), 12);
}

#[test]
fn chord_table_discards_zero_periods() {
    assert_eq!(multi_sin_table(&[0, 5]).len(), 5);
    assert_eq!(multi_sin_table(&[0, 0]), vec![0]);
    assert_eq!(multi_sin_table(&[]), vec![0]);
}

#[test]
fn chord_of_one_tone_is_its_sine_table() {
    // averaging over a single tone divides each sample by one
    assert_eq!(multi_sin_table(&[4]), sin_table(4));
    assert_eq!(multi_sin_table(&[10]), sin_table(10));
}

#[test]
fn zero_length_glide_is_a_repeated_cycle() {
    let cycle = sin_table(5);
    let mut expected: Vec<i32> = Vec::new();
    for _ in 0..3 {
        expected.extend_from_slice(&cycle);
    }
    assert_eq!(transition_table(5, 5, 3), expected);
}

#[test]
fn glide_walks_each_period_between_its_ends() {
    let mut up: Vec<i32> = Vec::new();
    for p in 3..=5 {
        up.extend_from_slice(&sin_table(p));
    }
    assert_eq!(transition_table(3, 5, 1), up);

    let mut down: Vec<i32> = Vec::new();
    for p in [5usize, 4, 3] {
        down.extend_from_slice(&sin_table(p));
    }
    assert_eq!(transition_table(5, 3, 1), down);
}

#[test]
fn glide_holds_silence_at_a_zero_period() {
    // pitch 0 contributes one silent sample per repeat
    let mut expected: Vec<i32> = vec![0, 0];
    for p in 1..=2 {
        for _ in 0..2 {
            expected.extend_from_slice(&sin_table(p));
        }
    }
    assert_eq!(transition_table(0, 2, 2), expected);
}
