//! Crossfading two sequences at their seam: a short linear ramp is laid
//! between the last sample drawn from the back of the first sequence and
//! the first sample of the second, so independently generated segments
//! join without an audible click.

use vstd::prelude::*;

use crate::signal::{Signal, TableCursor, pops_front, pops_back};

verus! {

/// The climbing ramp from `v` up to `stop` in increments of `step`:
/// every stepped value below `stop`, then `stop` itself.
pub open spec fn ramp_up(v: int, stop: int, step: int) -> Seq<i32>
    recommends
        step > 0,
        -0x8000_0000 <= v,
        stop <= 0x7fff_ffff,
    decreases stop - v + step,
        when step > 0
{
    if v >= stop {
        seq![stop as i32]
    } else {
        seq![v as i32] + ramp_up(v + step, stop, step)
    }
}

/// The falling ramp from `v` down to `stop` in decrements of `step`.
pub open spec fn ramp_down(v: int, stop: int, step: int) -> Seq<i32>
    recommends
        step > 0,
        v <= 0x7fff_ffff,
        -0x8000_0000 <= stop,
    decreases v - stop + step,
        when step > 0
{
    if v <= stop {
        seq![stop as i32]
    } else {
        seq![v as i32] + ramp_down(v - step, stop, step)
    }
}

/// The linear ramp from `start` to `stop`, stepping by `step` toward
/// `stop`; both endpoints are always present (the final sample is `stop`
/// exactly, even when the step does not divide evenly).
pub open spec fn ramp_seq(start: i32, stop: i32, step: i32) -> Seq<i32>
    recommends
        step > 0,
{
    if start <= stop {
        ramp_up(start as int, stop as int, step as int)
    } else {
        ramp_down(start as int, stop as int, step as int)
    }
}

proof fn lemma_ramp_up_bounds(v: int, stop: int, step: int)
    requires
        step > 0,
        -0x8000_0000 <= v <= stop <= 0x7fff_ffff,
    ensures
        forall|i: int| 0 <= i < ramp_up(v, stop, step).len() ==> v <= (#[trigger] ramp_up(
            v,
            stop,
            step,
        )[i]) as int <= stop,
        ramp_up(v, stop, step)[0] == v as i32,
        ramp_up(v, stop, step).last() == stop as i32,
        ramp_up(v, stop, step).len() >= 1,
    decreases stop - v,
{
    if v < stop {
        if v + step <= stop {
            lemma_ramp_up_bounds(v + step, stop, step);
        } else {
            assert(ramp_up(v + step, stop, step) =~= seq![stop as i32]);
        }
        let tail = ramp_up(v + step, stop, step);
        assert forall|i: int| 0 <= i < ramp_up(v, stop, step).len() implies v <= (
        #[trigger] ramp_up(v, stop, step)[i]) as int <= stop by {
            if i > 0 {
                assert(ramp_up(v, stop, step)[i] == tail[i - 1]);
            }
        }
    }
}

proof fn lemma_ramp_up_pairwise(v: int, stop: int, step: int)
    requires
        step > 0,
        -0x8000_0000 <= v <= stop <= 0x7fff_ffff,
    ensures
        forall|i: int, j: int|
            0 <= i <= j < ramp_up(v, stop, step).len() ==> (#[trigger] ramp_up(v, stop, step)[i])
                as int <= (#[trigger] ramp_up(v, stop, step)[j]) as int,
    decreases stop - v,
{
    lemma_ramp_up_bounds(v, stop, step);
    if v < stop {
        if v + step <= stop {
            lemma_ramp_up_pairwise(v + step, stop, step);
            lemma_ramp_up_bounds(v + step, stop, step);
        } else {
            assert(ramp_up(v + step, stop, step) =~= seq![stop as i32]);
        }
        let tail = ramp_up(v + step, stop, step);
        assert forall|i: int, j: int|
            0 <= i <= j < ramp_up(v, stop, step).len() implies (#[trigger] ramp_up(
            v,
            stop,
            step,
        )[i]) as int <= (#[trigger] ramp_up(v, stop, step)[j]) as int by {
            if i == 0 {
                if j > 0 {
                    assert(ramp_up(v, stop, step)[j] == tail[j - 1]);
                }
            } else {
                assert(ramp_up(v, stop, step)[i] == tail[i - 1]);
                assert(ramp_up(v, stop, step)[j] == tail[j - 1]);
            }
        }
    }
}

proof fn lemma_ramp_up_len(v: int, stop: int, step: int)
    requires
        step > 0,
        v <= stop,
    ensures
        ramp_up(v, stop, step).len() == (stop - v + step - 1) / step + 1,
    decreases stop - v,
{
    if v >= stop {
        assert((step - 1) / step == 0) by {
            vstd::arithmetic::div_mod::lemma_basic_div(step - 1, step);
        }
    } else if v + step >= stop {
        assert(ramp_up(v + step, stop, step) =~= seq![stop as i32]);
        assert(ramp_up(v, stop, step).len() == 2);
        assert((stop - v + step - 1) / step == 1) by {
            vstd::arithmetic::div_mod::lemma_div_multiples_vanish_fancy(
                1,
                stop - v - 1,
                step,
            );
        }
    } else {
        lemma_ramp_up_len(v + step, stop, step);
        vstd::arithmetic::div_mod::lemma_hoist_over_denominator(
            stop - v - step + step - 1,
            1,
            step as nat,
        );
    }
}

/// The monotone-ramp law: the ramp runs from `start` to `stop`, both
/// endpoints included, monotonically (nondecreasing upward, nonincreasing
/// downward), with exactly `ceil(|stop - start| / step) + 1` samples.
pub proof fn lemma_ramp_properties(start: i32, stop: i32, step: i32)
    requires
        step > 0,
    ensures
        ramp_seq(start, stop, step).len() >= 1,
        ramp_seq(start, stop, step)[0] == start,
        ramp_seq(start, stop, step).last() == stop,
        ramp_seq(start, stop, step).len() == (if start <= stop {
            (stop - start + step - 1) as int
        } else {
            (start - stop + step - 1) as int
        }) / (step as int) + 1,
        start <= stop ==> forall|i: int, j: int|
            0 <= i <= j < ramp_seq(start, stop, step).len() ==> (#[trigger] ramp_seq(
                start,
                stop,
                step,
            )[i]) <= (#[trigger] ramp_seq(start, stop, step)[j]),
        start >= stop ==> forall|i: int, j: int|
            0 <= i <= j < ramp_seq(start, stop, step).len() ==> (#[trigger] ramp_seq(
                start,
                stop,
                step,
            )[i]) >= (#[trigger] ramp_seq(start, stop, step)[j]),
{
    if start <= stop {
        lemma_ramp_up_bounds(start as int, stop as int, step as int);
        lemma_ramp_up_pairwise(start as int, stop as int, step as int);
        lemma_ramp_up_len(start as int, stop as int, step as int);
    }
    if start >= stop {
        lemma_ramp_down_bounds(start as int, stop as int, step as int);
        lemma_ramp_down_pairwise(start as int, stop as int, step as int);
        lemma_ramp_down_len(start as int, stop as int, step as int);
        if start == stop {
            assert(ramp_seq(start, stop, step) == ramp_up(
                start as int,
                stop as int,
                step as int,
            ));
        }
    }
}

proof fn lemma_ramp_down_bounds(v: int, stop: int, step: int)
    requires
        step > 0,
        -0x8000_0000 <= stop <= v <= 0x7fff_ffff,
    ensures
        forall|i: int| 0 <= i < ramp_down(v, stop, step).len() ==> stop <= (#[trigger] ramp_down(
            v,
            stop,
            step,
        )[i]) as int <= v,
        ramp_down(v, stop, step)[0] == v as i32,
        ramp_down(v, stop, step).last() == stop as i32,
        ramp_down(v, stop, step).len() >= 1,
    decreases v - stop,
{
    if v > stop {
        if v - step >= stop {
            lemma_ramp_down_bounds(v - step, stop, step);
        } else {
            assert(ramp_down(v - step, stop, step) =~= seq![stop as i32]);
        }
        let tail = ramp_down(v - step, stop, step);
        assert forall|i: int| 0 <= i < ramp_down(v, stop, step).len() implies stop <= (
        #[trigger] ramp_down(v, stop, step)[i]) as int <= v by {
            if i > 0 {
                assert(ramp_down(v, stop, step)[i] == tail[i - 1]);
            }
        }
    }
}

proof fn lemma_ramp_down_pairwise(v: int, stop: int, step: int)
    requires
        step > 0,
        -0x8000_0000 <= stop <= v <= 0x7fff_ffff,
    ensures
        forall|i: int, j: int|
            0 <= i <= j < ramp_down(v, stop, step).len() ==> (#[trigger] ramp_down(
                v,
                stop,
                step,
            )[i]) as int >= (#[trigger] ramp_down(v, stop, step)[j]) as int,
    decreases v - stop,
{
    lemma_ramp_down_bounds(v, stop, step);
    if v > stop {
        if v - step >= stop {
            lemma_ramp_down_pairwise(v - step, stop, step);
            lemma_ramp_down_bounds(v - step, stop, step);
        } else {
            assert(ramp_down(v - step, stop, step) =~= seq![stop as i32]);
        }
        let tail = ramp_down(v - step, stop, step);
        assert forall|i: int, j: int|
            0 <= i <= j < ramp_down(v, stop, step).len() implies (#[trigger] ramp_down(
            v,
            stop,
            step,
        )[i]) as int >= (#[trigger] ramp_down(v, stop, step)[j]) as int by {
            if i == 0 {
                if j > 0 {
                    assert(ramp_down(v, stop, step)[j] == tail[j - 1]);
                }
            } else {
                assert(ramp_down(v, stop, step)[i] == tail[i - 1]);
                assert(ramp_down(v, stop, step)[j] == tail[j - 1]);
            }
        }
    }
}

proof fn lemma_ramp_down_len(v: int, stop: int, step: int)
    requires
        step > 0,
        v >= stop,
    ensures
        ramp_down(v, stop, step).len() == (v - stop + step - 1) / step + 1,
    decreases v - stop,
{
    if v <= stop {
        assert((step - 1) / step == 0) by {
            vstd::arithmetic::div_mod::lemma_basic_div(step - 1, step);
        }
    } else if v - step <= stop {
        assert(ramp_down(v - step, stop, step) =~= seq![stop as i32]);
        assert(ramp_down(v, stop, step).len() == 2);
        assert((v - stop + step - 1) / step == 1) by {
            vstd::arithmetic::div_mod::lemma_div_multiples_vanish_fancy(
                1,
                v - stop - 1,
                step,
            );
        }
    } else {
        lemma_ramp_down_len(v - step, stop, step);
        vstd::arithmetic::div_mod::lemma_hoist_over_denominator(
            v - step - stop + step - 1,
            1,
            step as nat,
        );
    }
}

/// Build the ramp from `start` to `stop` by repeated stepping.
fn make_ramp(start: i32, stop: i32, step: i32) -> (r: Vec<i32>)
    requires
        step > 0,
    ensures
        r@ == ramp_seq(start, stop, step),
{
    let mut v: Vec<i32> = Vec::new();
    if start <= stop {
        let mut val: i64 = start as i64;
        while val < stop as i64
            invariant
                step > 0,
                start as int <= val <= stop as int,
                v@ + ramp_up(val as int, stop as int, step as int) == ramp_up(
                    start as int,
                    stop as int,
                    step as int,
                ),
            decreases stop as int - val,
        {
            proof {
                assert(ramp_up(val as int, stop as int, step as int) == seq![val as i32]
                    + ramp_up(val as int + step as int, stop as int, step as int));
                assert(v@.push(val as i32) + ramp_up(
                    val as int + step as int,
                    stop as int,
                    step as int,
                ) =~= (v@ + ramp_up(val as int, stop as int, step as int)));
            }
            v.push(val as i32);
            let next = val + step as i64;
            val = if next > stop as i64 {
                stop as i64
            } else {
                next
            };
            proof {
                if next > stop as int {
                    assert(ramp_up(next as int, stop as int, step as int) =~= seq![stop as i32]);
                    assert(ramp_up(stop as int, stop as int, step as int) =~= seq![
                        stop as i32,
                    ]);
                }
            }
        }
        v.push(stop);
        proof {
            assert(ramp_up(val as int, stop as int, step as int) =~= seq![stop as i32]);
            assert(v@ =~= ramp_seq(start, stop, step));
        }
    } else {
        let mut val: i64 = start as i64;
        while val > stop as i64
            invariant
                step > 0,
                stop as int <= val <= start as int,
                v@ + ramp_down(val as int, stop as int, step as int) == ramp_down(
                    start as int,
                    stop as int,
                    step as int,
                ),
            decreases val - stop as int,
        {
            proof {
                assert(ramp_down(val as int, stop as int, step as int) == seq![val as i32]
                    + ramp_down(val as int - step as int, stop as int, step as int));
                assert(v@.push(val as i32) + ramp_down(
                    val as int - step as int,
                    stop as int,
                    step as int,
                ) =~= (v@ + ramp_down(val as int, stop as int, step as int)));
            }
            v.push(val as i32);
            let next = val - step as i64;
            val = if next < stop as i64 {
                stop as i64
            } else {
                next
            };
            proof {
                if next < stop as int {
                    assert(ramp_down(next as int, stop as int, step as int) =~= seq![stop as i32]);
                    assert(ramp_down(stop as int, stop as int, step as int) =~= seq![
                        stop as i32,
                    ]);
                }
            }
        }
        v.push(stop);
        proof {
            assert(ramp_down(val as int, stop as int, step as int) =~= seq![stop as i32]);
            assert(v@ =~= ramp_seq(start, stop, step));
        }
    }
    v
}

/// What crossfading leaves to play: the first sequence short of its last
/// sample, a ramp from that sample to the second sequence's first, then
/// the second sequence short of that first sample.  With nothing to ramp
/// to, the pulled sample is given back alone; with nothing to ramp from,
/// the second sequence stands unchanged.
pub open spec fn smooth_model(f: Seq<i32>, l: Seq<i32>, step: i32) -> Seq<i32> {
    if f.len() == 0 {
        l
    } else if l.len() == 0 {
        f
    } else {
        f.drop_last() + ramp_seq(f.last(), l[0], step) + l.drop_first()
    }
}

/// Crossfades sequence A into sequence B: the remaining samples of A,
/// then a linear ramp from A's last sample to B's first, then the rest of
/// B.  Both directions of traversal are supported.
pub struct Smoother {
    first: Box<Signal>,
    middle: TableCursor,
    last: Box<Signal>,
}

impl Smoother {
    pub closed spec fn wf(self) -> bool
        decreases self,
    {
        self.first.wf() && self.middle.wf() && self.last.wf()
    }

    /// The samples still to be produced: rest of A, ramp, rest of B.
    pub closed spec fn model(self) -> Seq<i32>
        decreases self,
    {
        self.first.model() + self.middle.model() + self.last.model()
    }

    /// Join `first` and `last` with a linear ramp of increment `step`.
    ///
    /// The ramp runs from the sample pulled off the back of `first` to
    /// the sample pulled off the front of `last`; if `last` is empty the
    /// pulled sample is given back alone, and if `first` is empty there
    /// is no seam to smooth at all.
    pub fn new(first: Signal, last: Signal, step_size: i32) -> (r: Smoother)
        requires
            first.wf(),
            last.wf(),
            step_size > 0,
        ensures
            r.wf(),
            r.model() == smooth_model(first.model(), last.model(), step_size),
    {
        let ghost fm = first.model();
        let ghost lm = last.model();
        let mut first = first;
        let mut last = last;
        let start_opt = first.next_back();
        let ramp: Vec<i32> = match start_opt {
            None => Vec::new(),
            Some(start) => match last.next() {
                None => {
                    let mut v: Vec<i32> = Vec::new();
                    v.push(start);
                    v
                },
                Some(stop) => make_ramp(start, stop, step_size),
            },
        };
        let r = Smoother {
            first: Box::new(first),
            middle: TableCursor::new(ramp),
            last: Box::new(last),
        };
        proof {
            if fm.len() > 0 && lm.len() == 0 {
                assert(r.model() =~= fm.drop_last() + seq![fm.last()]);
                assert(fm.drop_last() + seq![fm.last()] =~= fm);
            }
            if fm.len() == 0 {
                assert(r.model() =~= lm);
            }
        }
        r
    }

    /// Pop the next sample off the front: rest of A, then the ramp, then
    /// B.
    pub fn next(&mut self) -> (r: Option<i32>)
        requires
            old(self).wf(),
        ensures
            final(self).wf(),
            pops_front(old(self).model(), final(self).model(), r),
        decreases *old(self),
    {
        let ghost pre = self.model();
        let r1 = (&mut *self.first).next();
        match r1 {
            Some(x) => {
                proof {
                    assert(pre[0] == x);
                    assert(self.model() =~= pre.drop_first());
                }
                return Some(x);
            },
            None => {},
        }
        let r2 = self.middle.next();
        match r2 {
            Some(x) => {
                proof {
                    assert(pre[0] == x);
                    assert(self.model() =~= pre.drop_first());
                }
                return Some(x);
            },
            None => {},
        }
        let r3 = (&mut *self.last).next();
        proof {
            if pre.len() == 0 {
                assert(self.model() =~= pre);
            } else {
                assert(pre[0] == old(self).last.model()[0]);
                assert(self.model() =~= pre.drop_first());
            }
        }
        r3
    }

    /// Pop the next sample off the back: rest of B, then the ramp
    /// reversed, then A from its back.
    pub fn next_back(&mut self) -> (r: Option<i32>)
        requires
            old(self).wf(),
        ensures
            final(self).wf(),
            pops_back(old(self).model(), final(self).model(), r),
        decreases *old(self),
    {
        let ghost pre = self.model();
        let r1 = (&mut *self.last).next_back();
        match r1 {
            Some(x) => {
                proof {
                    assert(pre.last() == x);
                    assert(self.model() =~= pre.drop_last());
                }
                return Some(x);
            },
            None => {},
        }
        let r2 = self.middle.next_back();
        match r2 {
            Some(x) => {
                proof {
                    assert(pre.last() == x);
                    assert(self.model() =~= pre.drop_last());
                }
                return Some(x);
            },
            None => {},
        }
        let r3 = (&mut *self.first).next_back();
        proof {
            if pre.len() == 0 {
                assert(self.model() =~= pre);
            } else {
                assert(pre.last() == old(self).first.model().last());
                assert(self.model() =~= pre.drop_last());
            }
        }
        r3
    }

    /// Wrap into the closed signal family.
    pub fn into_signal(self) -> (r: Signal)
        requires
            self.wf(),
        ensures
            r.wf(),
            r.model() == self.model(),
    {
        Signal::Smooth(self)
    }
}

} // verus!
