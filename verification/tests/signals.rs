use beeps::repeater::Repeater;
use beeps::signal::{LimitRepeat, Signal, TableCursor};

#[test]
fn table_signal_drains_forward_in_order() {
    let s = Signal::table(vec![1, 2, 3, 4]);
    assert_eq!(s.collect_forward(), vec![1, 2, 3, 4]);
}

#[test]
fn table_signal_drains_backward_reversed() {
    let s = Signal::table(vec![1, 2, 3, 4]);
    assert_eq!(s.collect_backward(), vec![4, 3, 2, 1]);
}

#[test]
fn table_cursor_serves_both_ends() {
    let mut c = TableCursor::new(vec![1, 2, 3]);
    assert_eq!(c.next(), Some(1));
    assert_eq!(c.next_back(), Some(3));
    assert_eq!(c.next(), Some(2));
    assert_eq!(c.next(), None);
    assert_eq!(c.next_back(), None);
}

#[test]
fn limit_repeat_counts_down_from_either_end() {
    let mut l = LimitRepeat { value: 7, left: 3 };
    assert_eq!(l.next(), Some(7));
    assert_eq!(l.next_back(), Some(7));
    assert_eq!(l.next(), Some(7));
    assert_eq!(l.next(), None);
    assert_eq!(l.next_back(), None);
}

#[test]
fn chain_plays_one_signal_then_the_other() {
    let s = Signal::chain(Signal::table(vec![1, 2]), Signal::table(vec![3]));
    assert_eq!(s.collect_forward(), vec![1, 2, 3]);
    let s = Signal::chain(Signal::table(vec![1, 2]), Signal::table(vec![3]));
    assert_eq!(s.collect_backward(), vec![3, 2, 1]);
}

#[test]
fn repeater_plays_the_base_repeat_times() {
    let r = Repeater::new(vec![1, 2], 3);
    assert_eq!(r.into_signal().collect_forward(), vec![1, 2, 1, 2, 1, 2]);
}

#[test]
fn repeater_zero_still_plays_once() {
    // a repeat count of 0 and of 1 both mean a single play
    let r = Repeater::new(vec![1, 2], 0);
    assert_eq!(r.into_signal().collect_forward(), vec![1, 2]);
    let r = Repeater::new(vec![1, 2], 1);
    assert_eq!(r.into_signal().collect_forward(), vec![1, 2]);
}

#[test]
fn repeater_empty_base_is_empty() {
    let mut r = Repeater::new(Vec::new(), 5);
    assert_eq!(r.next(), None);
    assert_eq!(r.next_back(), None);
    let r2 = Repeater::new(Vec::new(), 5);
    assert_eq!(r2.into_signal().collect_forward(), Vec::<i32>::new());
}

#[test]
fn repeater_forward_mirrors_backward() {
    // for a repeater of total length t, forward[i] == backward[t - 1 - i]
    let forward = Repeater::new(vec![1, 2, 3], 2).into_signal().collect_forward();
    let backward = Repeater::new(vec![1, 2, 3], 2).into_signal().collect_backward();
    let t = forward.len();
    assert_eq!(t, backward.len());
    for i in 0..t {
        assert_eq!(forward[i], backward[t - 1 - i], "mismatch at {}", i);
    }
}

#[test]
fn repeater_serves_both_ends_interleaved() {
    let mut r = Repeater::new(vec![1, 2], 2);
    // remaining: 1 2 1 2
    assert_eq!(r.next_back(), Some(2));
    assert_eq!(r.next(), Some(1));
    assert_eq!(r.next_back(), Some(1));
    assert_eq!(r.next(), Some(2));
    assert_eq!(r.next(), None);
    assert_eq!(r.next_back(), None);
}

#[test]
fn repeater_backward_restarts_passes_from_the_end() {
    let mut r = Repeater::new(vec![1, 2, 3], 2);
    assert_eq!(r.next_back(), Some(3));
    assert_eq!(r.next_back(), Some(2));
    assert_eq!(r.next_back(), Some(1));
    assert_eq!(r.next_back(), Some(3));
    assert_eq!(r.next_back(), Some(2));
    assert_eq!(r.next_back(), Some(1));
    assert_eq!(r.next_back(), None);
}
