//! A pass-through wrapper that measures how long a sequence took to
//! drain: the clock starts at the first pull and the elapsed time is
//! recorded whenever the sequence reports exhaustion.

use vstd::prelude::*;

use crate::signal::{Signal, pops_front};

verus! {

#[verifier::external_type_specification]
#[verifier::external_body]
pub struct ExInstant(std::time::Instant);

/// Relies on `std::time::Instant::now`: a reading of the monotonic
/// clock.  Nothing can be promised of its value.
#[verifier::external_body]
fn instant_now() -> std::time::Instant {
    std::time::Instant::now()
}

/// Relies on `std::time::Instant::elapsed`: the time since `start`,
/// which depends on when it is asked.
#[verifier::external_body]
fn instant_elapsed(start: &std::time::Instant) -> std::time::Duration {
    start.elapsed()
}

/// Relies on `std::time::Duration::as_millis`: the duration in whole
/// milliseconds.
#[verifier::external_body]
fn duration_millis(d: &std::time::Duration) -> u64 {
    d.as_millis() as u64
}

/// Passes a sequence through unchanged while timing it: the clock starts
/// at the first pull, and each pull that finds the sequence exhausted
/// records the elapsed milliseconds.
pub struct Timer {
    data: Signal,
    start: Option<std::time::Instant>,
    elapsed: Option<u64>,
}

impl Timer {
    pub closed spec fn wf(self) -> bool {
        self.data.wf()
    }

    /// The samples still to be produced by the wrapped sequence.
    pub closed spec fn model(self) -> Seq<i32> {
        self.data.model()
    }

    /// The recorded drain time, once the sequence has reported
    /// exhaustion.
    pub closed spec fn report(self) -> Option<u64> {
        self.elapsed
    }

    pub fn new(data: Signal) -> (r: Timer)
        requires
            data.wf(),
        ensures
            r.wf(),
            r.model() == data.model(),
            r.report() is None,
    {
        Timer { data, start: None, elapsed: None }
    }

    /// Pull the next sample, starting the clock on the first pull and
    /// recording the elapsed time when the sequence runs out.
    pub fn next(&mut self) -> (r: Option<i32>)
        requires
            old(self).wf(),
        ensures
            final(self).wf(),
            pops_front(old(self).model(), final(self).model(), r),
            r is Some ==> final(self).report() == old(self).report(),
            r is None ==> final(self).report() is Some,
    {
        if self.start.is_none() {
            self.start = Some(instant_now());
        }
        let r = self.data.next();
        if r.is_none() {
            match &self.start {
                Some(st) => {
                    let d = instant_elapsed(st);
                    self.elapsed = Some(duration_millis(&d));
                },
                None => {},
            }
        }
        r
    }

    /// The measured drain time in milliseconds, if the sequence has
    /// finished.  What it holds depends on the clock; only its presence
    /// is specified.
    pub fn elapsed_millis(&self) -> (r: Option<u64>)
        ensures
            r == self.report(),
    {
        self.elapsed
    }
}

} // verus!
