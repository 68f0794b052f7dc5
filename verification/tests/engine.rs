use beeps::engine::{
    fill_from_source, CbStream, FillOutcome, StreamEngine, FRAMES_PER_BUFFER,
};
use beeps::signal::Signal;
use beeps::wave::make_wave;

#[test]
fn stream_goes_inactive_within_one_buffer_of_exhaustion() {
    // a sequence of exactly one buffer's worth of samples
    let samples: Vec<i32> = (0..FRAMES_PER_BUFFER as i32).collect();
    let mut engine = StreamEngine::new();
    assert!(!engine.is_active());
    engine.new_stream(Signal::table(samples.clone()));
    assert!(!engine.is_active());
    engine.start();
    assert!(engine.is_active());

    let mut buffer = vec![0i32; 2 * FRAMES_PER_BUFFER];
    // the full buffer fills without incident
    assert_eq!(
        engine.fill_next_buffer(&mut buffer, FRAMES_PER_BUFFER),
        FillOutcome::Continue
    );
    assert!(engine.is_active());
    for i in 0..FRAMES_PER_BUFFER {
        assert_eq!(buffer[2 * i], samples[i]);
        assert_eq!(buffer[2 * i + 1], samples[i]);
    }
    // the very next buffer hits exhaustion and aborts
    assert_eq!(
        engine.fill_next_buffer(&mut buffer, FRAMES_PER_BUFFER),
        FillOutcome::Abort
    );
    assert!(!engine.is_active());
    assert_eq!(engine.time(), FRAMES_PER_BUFFER as u64);
    engine.close();
    assert!(!engine.is_active());
    assert_eq!(engine.time(), 0);
}

#[test]
fn aborted_fill_leaves_unproduced_frames_untouched() {
    let mut engine = StreamEngine::new();
    engine.new_stream(Signal::table(vec![1, 2, 3]));
    engine.start();
    let mut buffer = vec![77i32; 2 * FRAMES_PER_BUFFER];
    assert_eq!(
        engine.fill_next_buffer(&mut buffer, FRAMES_PER_BUFFER),
        FillOutcome::Abort
    );
    assert_eq!(&buffer[..6], &[1, 1, 2, 2, 3, 3]);
    assert!(buffer[6..].iter().all(|&x| x == 77));
    assert_eq!(engine.time(), 3);
}

#[test]
fn stop_and_start_toggle_activity() {
    let mut engine = StreamEngine::new();
    engine.new_stream(Signal::table(vec![1, 2, 3]));
    engine.start();
    assert!(engine.is_active());
    engine.stop();
    assert!(!engine.is_active());
    engine.start();
    assert!(engine.is_active());
    engine.close();
    assert!(!engine.is_active());
}

#[test]
fn play_all_drains_and_closes() {
    let mut engine = StreamEngine::new();
    engine.new_stream(make_wave(45_000, 2).into_signal());
    engine.play_all();
    assert!(!engine.is_active());
    assert_eq!(engine.time(), 0);
}

#[test]
fn callback_stream_completes_gracefully_at_a_declined_frame() {
    let mut cb = CbStream::new(Signal::table(vec![4, 5, 6, 7, 8]));
    cb.start();
    assert!(cb.is_active());
    let mut buffer = vec![55i32; 16];
    assert_eq!(cb.fill(&mut buffer, 8, 0, 0), (FillOutcome::Complete, 5));
    assert!(!cb.is_active());
    assert_eq!(cb.time(), 5);
    assert_eq!(&buffer[..10], &[4, 4, 5, 5, 6, 6, 7, 7, 8, 8]);
    assert!(buffer[10..].iter().all(|&x| x == 55));
}

#[test]
fn callback_stream_counts_filled_frames() {
    let mut cb = CbStream::new(Signal::table((0..10).collect()));
    cb.start();
    let mut buffer = vec![0i32; 8];
    assert_eq!(cb.fill(&mut buffer, 4, 0, 0), (FillOutcome::Continue, 4));
    assert!(cb.is_active());
    assert_eq!(cb.time(), 4);
    assert_eq!(cb.fill(&mut buffer, 4, 0, 0), (FillOutcome::Continue, 4));
    assert_eq!(cb.time(), 8);
    assert_eq!(cb.fill(&mut buffer, 4, 0, 0), (FillOutcome::Complete, 2));
    assert_eq!(cb.time(), 10);
    assert!(!cb.is_active());
    assert_eq!(&buffer[..4], &[8, 8, 9, 9]);
}

#[test]
fn callback_play_all_drives_to_completion() {
    // ten samples at four frames per buffer: completion in the third
    let mut cb = CbStream::new(Signal::table((0..10).collect()));
    assert!(cb.play_all(4, 0, 0, 8));
    assert!(!cb.is_active());
    assert_eq!(cb.time(), 10);

    // a budget too small to reach the end
    let mut cb = CbStream::new(Signal::table((0..10).collect()));
    assert!(!cb.play_all(4, 0, 0, 2));
    assert_eq!(cb.time(), 8);
}

#[test]
fn fill_from_source_duplicates_mono_to_stereo() {
    let mut src = Signal::table(vec![10, 20]);
    let mut buffer = vec![0i32; 4];
    let (outcome, filled) = fill_from_source(&mut src, &mut buffer, 2, 1, 2);
    assert_eq!(outcome, FillOutcome::Continue);
    assert_eq!(filled, 2);
    assert_eq!(buffer, vec![10, 10, 20, 20]);
}
