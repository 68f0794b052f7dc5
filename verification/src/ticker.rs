//! Side-channel progress notifications: a wrapped sequence sends a
//! zero-payload `Tick` over a channel every N samples consumed, from
//! either end, so a non-audio consumer can follow playback progress.

use vstd::prelude::*;

use crate::signal::{Signal, pops_front, pops_back};

verus! {

/// A zero-payload progress notification.
pub struct Tick;

#[verifier::external_type_specification]
#[verifier::external_body]
#[verifier::reject_recursive_types(T)]
pub struct ExSender<T>(std::sync::mpsc::Sender<T>);

#[verifier::external_type_specification]
#[verifier::external_body]
#[verifier::reject_recursive_types(T)]
pub struct ExReceiver<T>(std::sync::mpsc::Receiver<T>);

#[verifier::external_type_specification]
#[verifier::external_body]
#[verifier::reject_recursive_types(T)]
pub struct ExSendError<T>(std::sync::mpsc::SendError<T>);

/// Relies on `std::sync::mpsc::channel`: a fresh asynchronous channel,
/// sender and receiver ends.
#[verifier::external_body]
fn tick_channel() -> (std::sync::mpsc::Sender<Tick>, std::sync::mpsc::Receiver<Tick>) {
    std::sync::mpsc::channel()
}

/// Relies on `std::sync::mpsc::Sender::send`: hands one `Tick` to the
/// receiving end; per its documentation it fails only when the receiver
/// has been dropped.
#[verifier::external_body]
fn send_tick(
    ch: &std::sync::mpsc::Sender<Tick>,
    t: Tick,
) -> Result<(), std::sync::mpsc::SendError<Tick>> {
    ch.send(t)
}

/// A notification could not be delivered: the receiving end was dropped
/// while still expected to be alive.  This is a logic error outside the
/// engine's responsibility and is propagated rather than swallowed.
#[derive(Debug, PartialEq, Eq)]
pub struct TickerError;

/// Wraps a sequence and sends a `Tick` every `frequency` samples
/// consumed; one counter is shared by forward and backward consumption.
pub struct Ticker {
    data: Signal,
    frequency: usize,
    count: usize,
    chan: std::sync::mpsc::Sender<Tick>,
}

impl Ticker {
    pub closed spec fn wf(self) -> bool {
        self.data.wf() && 1 <= self.frequency && self.count < self.frequency
    }

    /// The samples still to be produced by the wrapped sequence.
    pub closed spec fn model(self) -> Seq<i32> {
        self.data.model()
    }

    /// The configured notification interval.
    pub closed spec fn freq(self) -> nat {
        self.frequency as nat
    }

    /// How many samples have been consumed since the last tick fired.
    pub closed spec fn phase(self) -> nat {
        self.count as nat
    }

    /// Wrap `data`, ticking every `frequency` samples; the receiving end
    /// of the notification channel comes back alongside.
    pub fn new(data: Signal, frequency: usize) -> (r: (Ticker, std::sync::mpsc::Receiver<Tick>))
        requires
            data.wf(),
            frequency >= 1,
        ensures
            r.0.wf(),
            r.0.model() == data.model(),
            r.0.freq() == frequency,
            r.0.phase() == 0,
    {
        let (send, rcv) = tick_channel();
        (Ticker { data, chan: send, frequency, count: 0 }, rcv)
    }

    /// Count one consumed sample and fire a tick when the count reaches a
    /// multiple of the interval; a failed send is a hard error and the
    /// sample is not consumed.
    pub fn next(&mut self) -> (r: Result<Option<i32>, TickerError>)
        requires
            old(self).wf(),
        ensures
            final(self).wf(),
            final(self).freq() == old(self).freq(),
            r matches Ok(o) ==> pops_front(old(self).model(), final(self).model(), o)
                && final(self).phase() == (old(self).phase() + 1) % old(self).freq(),
            r is Err ==> (old(self).phase() + 1) % old(self).freq() == 0 && final(self).model()
                == old(self).model(),
    {
        let newc = self.count + 1;
        if newc == self.frequency {
            proof {
                vstd::arithmetic::div_mod::lemma_mod_self_0(self.frequency as int);
            }
            match send_tick(&self.chan, Tick) {
                Ok(_) => {
                    self.count = 0;
                },
                Err(_) => {
                    return Err(TickerError);
                },
            }
        } else {
            proof {
                vstd::arithmetic::div_mod::lemma_small_mod(newc as nat, self.frequency as nat);
            }
            self.count = newc;
        }
        Ok(self.data.next())
    }

    /// The backward counterpart of `next`: the same counter, the same
    /// ticks, samples pulled from the back.
    pub fn next_back(&mut self) -> (r: Result<Option<i32>, TickerError>)
        requires
            old(self).wf(),
        ensures
            final(self).wf(),
            final(self).freq() == old(self).freq(),
            r matches Ok(o) ==> pops_back(old(self).model(), final(self).model(), o)
                && final(self).phase() == (old(self).phase() + 1) % old(self).freq(),
            r is Err ==> (old(self).phase() + 1) % old(self).freq() == 0 && final(self).model()
                == old(self).model(),
    {
        let newc = self.count + 1;
        if newc == self.frequency {
            proof {
                vstd::arithmetic::div_mod::lemma_mod_self_0(self.frequency as int);
            }
            match send_tick(&self.chan, Tick) {
                Ok(_) => {
                    self.count = 0;
                },
                Err(_) => {
                    return Err(TickerError);
                },
            }
        } else {
            proof {
                vstd::arithmetic::div_mod::lemma_small_mod(newc as nat, self.frequency as nat);
            }
            self.count = newc;
        }
        Ok(self.data.next_back())
    }
}

} // verus!
