use beeps::repeater::Repeater;
use beeps::tables::{get_pitch, multi_sin_table, sin_table, transition_table};
use beeps::wave::{
    make_chord, make_silence, make_wave, make_wave_transition, multi_wave, LOOP_ADJUST,
};

#[test]
fn tone_duration_is_within_one_period_of_the_request() {
    // frequency code 200 for 100 ms with loop-adjust 45
    let pitch = get_pitch(200);
    let wave = make_wave(200, 100);
    let out = wave.into_signal().collect_forward();
    assert_eq!(sin_table(pitch).len(), pitch);
    let requested = 100 * LOOP_ADJUST;
    let total = out.len();
    let deviation = if total > requested { total - requested } else { requested - total };
    assert!(deviation <= pitch, "total {} requested {} pitch {}", total, requested, pitch);
    // the total is a whole number of base periods
    assert_eq!(total % pitch, 0);
}

#[test]
fn tone_rounds_down_to_whole_periods() {
    // pitch 100, requested 450 samples: four whole periods
    let wave = make_wave(45_000, 10);
    let out = wave.into_signal().collect_forward();
    assert_eq!(out.len(), 400);
    let period = sin_table(get_pitch(45_000));
    for (i, &x) in out.iter().enumerate() {
        assert_eq!(x, period[i % period.len()]);
    }
}

#[test]
fn silent_tone_for_a_zero_code() {
    let wave = make_wave(0, 2);
    let out = wave.into_signal().collect_forward();
    assert_eq!(out, vec![0; 2 * LOOP_ADJUST]);
}

#[test]
fn silence_is_sized_by_the_loop_adjust() {
    let s = make_silence(3);
    assert_eq!(s.left, 3 * LOOP_ADJUST);
    assert_eq!(s.value, 0);
}

#[test]
fn multi_wave_of_no_codes_is_silence() {
    let out = multi_wave(&[], 1).collect_forward();
    assert_eq!(out, vec![0; LOOP_ADJUST]);
}

#[test]
fn multi_wave_silences_too_fast_a_voice() {
    // a code at the top of the scale inverts to a period of 1, under 10
    let out = multi_wave(&[4_500_000], 2).collect_forward();
    assert_eq!(out, vec![0; 2 * LOOP_ADJUST]);
}

#[test]
fn multi_wave_chains_its_voices() {
    // 450_000 inverts to 10, which is rendered as the tone for code 10
    let out = multi_wave(&[450_000, 4_500_000], 1).collect_forward();
    let tone = make_wave(10, 1).into_signal().collect_forward();
    let mut expected = tone;
    expected.extend_from_slice(&vec![0; LOOP_ADJUST]);
    assert_eq!(out.len(), expected.len());
    assert_eq!(out, expected);
}

#[test]
fn chord_of_no_codes_degrades_to_the_silent_tone() {
    let out = make_chord(&[], 5).into_signal().collect_forward();
    assert_eq!(out, vec![0; 5 * LOOP_ADJUST]);
}

#[test]
fn chord_loops_its_superposition_table() {
    // codes inverting to periods 4 and 6: a 12-sample cycle, looped
    // three times to cover 45 samples
    let chord = make_chord(&[1_125_000, 750_000], 1);
    let out = chord.into_signal().collect_forward();
    let table = multi_sin_table(&[4, 6]);
    assert_eq!(table.len(), 12);
    let expected: Vec<i32> = table.iter().cycle().take(36).cloned().collect();
    assert_eq!(out, expected);
}

#[test]
fn chord_base_equals_the_superposition_table() {
    let backward = make_chord(&[1_125_000, 750_000], 1).into_signal().collect_backward();
    let forward = make_chord(&[1_125_000, 750_000], 1).into_signal().collect_forward();
    let mut reversed = forward.clone();
    reversed.reverse();
    assert_eq!(backward, reversed);
}

#[test]
fn glide_spreads_the_duration_over_its_steps() {
    // periods 3 to 5: diff 2, sum 8, so 4 ms at 45 gives 360/16 = 22
    // repeats of each stepped cycle
    let out = make_wave_transition(1_500_000, 900_000, 4).collect_forward();
    assert_eq!(out, transition_table(3, 5, 22));
}

#[test]
fn repeater_wraps_a_table_to_a_duration() {
    // the documented use: repeat = duration / table length
    let table = sin_table(10);
    let duration = 45usize;
    let r = Repeater::new(table.clone(), duration / table.len());
    let out = r.into_signal().collect_forward();
    assert_eq!(out.len(), 40);
    for (i, &x) in out.iter().enumerate() {
        assert_eq!(x, table[i % 10]);
    }
}
