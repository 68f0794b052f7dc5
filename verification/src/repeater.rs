//! Looping playback of a finite table: the base table is kept once,
//! immutable, and replayed a bounded number of times through cursors, so
//! no sample data is copied per repeat.

use vstd::prelude::*;

use crate::tables::seq_repeat;
use crate::signal::{pops_front, pops_back};

verus! {

/// How many times the base table plays in all for a given repeat
/// parameter.  The repeat parameter counts extra replays beyond the
/// first, except that 0 still plays the base once: total plays are
/// `max(1, repeat)`.  This is the one consistent reading of the repeat
/// count, and the contract every function here uses.
pub open spec fn total_plays(repeat: nat) -> nat {
    if repeat == 0 {
        1
    } else {
        repeat
    }
}

proof fn lemma_seq_repeat_empty(k: nat)
    ensures
        seq_repeat(Seq::<i32>::empty(), k) =~= Seq::<i32>::empty(),
    decreases k,
{
    if k > 0 {
        lemma_seq_repeat_empty((k - 1) as nat);
        assert(Seq::<i32>::empty() + Seq::<i32>::empty() =~= Seq::<i32>::empty());
    }
}

/// Loops a finite base table: a cursor pair drains the current pass,
/// `left` further passes remain, and a distinct tail cursor is staged
/// only once backward traversal has consumed from the end.
pub struct Repeater {
    base: Vec<i32>,
    cur_lo: usize,
    cur_hi: usize,
    left: usize,
    end: Option<(usize, usize)>,
}

impl Repeater {
    pub closed spec fn wf(self) -> bool {
        &&& self.cur_lo <= self.cur_hi <= self.base@.len()
        &&& match self.end {
            Some((lo, hi)) => lo <= hi <= self.base@.len(),
            None => true,
        }
    }

    /// The base table being looped.
    pub closed spec fn base_model(self) -> Seq<i32> {
        self.base@
    }

    /// The samples still to be produced: the rest of the current pass,
    /// the untouched passes, then whatever staged tail remains.
    pub closed spec fn model(self) -> Seq<i32> {
        self.base@.subrange(self.cur_lo as int, self.cur_hi as int) + seq_repeat(
            self.base@,
            self.left as nat,
        ) + match self.end {
            Some((lo, hi)) => self.base@.subrange(lo as int, hi as int),
            None => Seq::empty(),
        }
    }

    /// Wrap `data` to be played `max(1, repeat)` times over.
    pub fn new(data: Vec<i32>, repeat: usize) -> (r: Repeater)
        ensures
            r.wf(),
            r.base_model() == data@,
            r.model() == seq_repeat(data@, total_plays(repeat as nat)),
    {
        let hi = data.len();
        let left = if repeat > 0 {
            repeat - 1
        } else {
            0
        };
        let r = Repeater { base: data, cur_lo: 0, cur_hi: hi, left, end: None };
        proof {
            assert(r.base@.subrange(0, hi as int) =~= r.base@);
            assert(seq_repeat(r.base@, total_plays(repeat as nat)) == r.base@ + seq_repeat(
                r.base@,
                left as nat,
            ));
            assert(r.model() =~= r.base@ + seq_repeat(r.base@, left as nat));
        }
        r
    }

    /// Pop the next sample off the front: drain the current pass; when it
    /// runs out, start a fresh pass while passes remain, then drain any
    /// staged tail.
    pub fn next(&mut self) -> (r: Option<i32>)
        requires
            old(self).wf(),
        ensures
            final(self).wf(),
            final(self).base_model() == old(self).base_model(),
            pops_front(old(self).model(), final(self).model(), r),
    {
        let ghost pre = self.model();
        if self.cur_lo < self.cur_hi {
            let x = self.base[self.cur_lo];
            self.cur_lo = self.cur_lo + 1;
            proof {
                assert(self.model() =~= pre.drop_first());
                assert(pre[0] == x);
            }
            return Some(x);
        }
        if self.left == 0 {
            let r = match self.end {
                Some((lo, hi)) => {
                    self.cur_lo = lo;
                    self.cur_hi = hi;
                    if lo < hi {
                        let x = self.base[lo];
                        self.cur_lo = lo + 1;
                        Some(x)
                    } else {
                        None
                    }
                },
                None => None,
            };
            self.end = None;
            proof {
                if pre.len() == 0 {
                    assert(self.model() =~= pre);
                } else {
                    assert(self.model() =~= pre.drop_first());
                }
            }
            return r;
        }
        self.left = self.left - 1;
        self.cur_lo = 0;
        self.cur_hi = self.base.len();
        proof {
            assert(seq_repeat(self.base@, old(self).left as nat) == self.base@ + seq_repeat(
                self.base@,
                self.left as nat,
            ));
        }
        if self.base.len() > 0 {
            let x = self.base[0];
            self.cur_lo = 1;
            proof {
                assert(pre[0] == x);
                assert(self.model() =~= pre.drop_first());
            }
            Some(x)
        } else {
            proof {
                assert(self.base@ =~= Seq::<i32>::empty());
                lemma_seq_repeat_empty(old(self).left as nat);
                lemma_seq_repeat_empty(self.left as nat);
                assert(pre =~= Seq::<i32>::empty());
                assert(self.model() =~= pre);
            }
            None
        }
    }

    /// Pop the next sample off the back: drain the staged tail; when it
    /// runs out, turn one remaining pass into a fresh tail (minus the
    /// sample handed out); with no passes left, drain the current pass
    /// from its back.
    pub fn next_back(&mut self) -> (r: Option<i32>)
        requires
            old(self).wf(),
        ensures
            final(self).wf(),
            final(self).base_model() == old(self).base_model(),
            pops_back(old(self).model(), final(self).model(), r),
    {
        let ghost pre = self.model();
        match self.end {
            Some((lo, hi)) => {
                if lo < hi {
                    let x = self.base[hi - 1];
                    self.end = Some((lo, hi - 1));
                    proof {
                        assert(pre.last() == x);
                        assert(self.model() =~= pre.drop_last());
                    }
                    return Some(x);
                }
            },
            None => {},
        }
        if self.left == 0 {
            if self.cur_lo < self.cur_hi {
                self.cur_hi = self.cur_hi - 1;
                let x = self.base[self.cur_hi];
                proof {
                    assert(pre.last() == x);
                    assert(self.model() =~= pre.drop_last());
                }
                Some(x)
            } else {
                proof {
                    assert(self.model() =~= pre);
                    assert(pre =~= Seq::<i32>::empty());
                }
                None
            }
        } else {
            self.left = self.left - 1;
            proof {
                crate::tables::lemma_seq_repeat_snoc(self.base@, self.left as nat);
            }
            if self.base.len() > 0 {
                let x = self.base[self.base.len() - 1];
                self.end = Some((0, self.base.len() - 1));
                proof {
                    assert(pre.last() == x);
                    assert(self.model() =~= pre.drop_last());
                }
                Some(x)
            } else {
                self.end = Some((0, 0));
                proof {
                    assert(self.base@ =~= Seq::<i32>::empty());
                    lemma_seq_repeat_empty(old(self).left as nat);
                    lemma_seq_repeat_empty(self.left as nat);
                    assert(pre =~= Seq::<i32>::empty());
                    assert(self.model() =~= pre);
                }
                None
            }
        }
    }

    /// Wrap into the closed signal family.
    pub fn into_signal(self) -> (r: crate::signal::Signal)
        requires
            self.wf(),
        ensures
            r.wf(),
            r.model() == self.model(),
    {
        crate::signal::Signal::Loop(self)
    }
}

} // verus!
