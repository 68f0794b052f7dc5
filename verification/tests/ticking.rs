use beeps::signal::Signal;
use beeps::ticker::{Ticker, TickerError};
use beeps::timer::Timer;

#[test]
fn ticker_fires_every_n_samples() {
    let (mut t, rcv) = Ticker::new(Signal::table(vec![1, 2, 3, 4, 5, 6, 7]), 3);
    let mut got: Vec<i32> = Vec::new();
    for _ in 0..7 {
        match t.next().expect("receiver is alive") {
            Some(x) => got.push(x),
            None => panic!("sequence ended early"),
        }
    }
    assert_eq!(got, vec![1, 2, 3, 4, 5, 6, 7]);
    // ticks after samples 3 and 6
    assert_eq!(rcv.try_iter().count(), 2);
}

#[test]
fn ticker_keeps_counting_past_exhaustion() {
    let (mut t, rcv) = Ticker::new(Signal::table(vec![1]), 2);
    assert_eq!(t.next().unwrap(), Some(1));
    assert_eq!(t.next().unwrap(), None);
    assert_eq!(t.next().unwrap(), None);
    assert_eq!(t.next().unwrap(), None);
    // ticks fired at the second and fourth pulls
    assert_eq!(rcv.try_iter().count(), 2);
}

#[test]
fn ticker_counts_backward_consumption_too() {
    let (mut t, rcv) = Ticker::new(Signal::table(vec![1, 2, 3]), 2);
    assert_eq!(t.next_back().unwrap(), Some(3));
    assert_eq!(t.next().unwrap(), Some(1));
    assert_eq!(t.next_back().unwrap(), Some(2));
    assert_eq!(t.next().unwrap(), None);
    // one shared counter: ticks after the 2nd and 4th pulls
    assert_eq!(rcv.try_iter().count(), 2);
}

#[test]
fn ticker_send_failure_is_a_hard_error() {
    let (mut t, rcv) = Ticker::new(Signal::table(vec![1, 2]), 1);
    drop(rcv);
    assert_eq!(t.next(), Err(TickerError));
    assert_eq!(t.next_back(), Err(TickerError));
}

#[test]
fn timer_reports_once_the_sequence_ends() {
    let mut t = Timer::new(Signal::table(vec![5, 6]));
    assert_eq!(t.elapsed_millis(), None);
    assert_eq!(t.next(), Some(5));
    assert_eq!(t.elapsed_millis(), None);
    assert_eq!(t.next(), Some(6));
    assert_eq!(t.next(), None);
    assert!(t.elapsed_millis().is_some());
}
