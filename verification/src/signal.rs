//! The closed family of lazy sample sequences: finite tables, constant
//! runs, concatenations, loops and crossfades, every one drainable from
//! the front and from the back.
//!
//! Each sequence is modelled by the mathematical sequence of samples it
//! has left; `next` pops the front of that model and `next_back` pops the
//! back, whichever variant is underneath.

use vstd::prelude::*;

use crate::repeater::Repeater;
use crate::smoother::Smoother;

verus! {

/// `next` popped the front of the model: on an empty model nothing comes
/// back and nothing changes; otherwise the head comes back and the model
/// loses it.
pub open spec fn pops_front(pre: Seq<i32>, post: Seq<i32>, r: Option<i32>) -> bool {
    if pre.len() == 0 {
        r is None && post == pre
    } else {
        r == Some(pre[0]) && post == pre.drop_first()
    }
}

/// `next_back` popped the back of the model.
pub open spec fn pops_back(pre: Seq<i32>, post: Seq<i32>, r: Option<i32>) -> bool {
    if pre.len() == 0 {
        r is None && post == pre
    } else {
        r == Some(pre.last()) && post == pre.drop_last()
    }
}

/// A finite buffer of samples with a cursor at each end; the samples
/// between the cursors are the ones not yet consumed.
pub struct TableCursor {
    data: Vec<i32>,
    lo: usize,
    hi: usize,
}

impl TableCursor {
    pub closed spec fn wf(self) -> bool {
        self.lo <= self.hi <= self.data@.len()
    }

    /// The samples still to be produced.
    pub closed spec fn model(self) -> Seq<i32> {
        self.data@.subrange(self.lo as int, self.hi as int)
    }

    pub fn new(data: Vec<i32>) -> (r: TableCursor)
        ensures
            r.wf(),
            r.model() == data@,
    {
        let hi = data.len();
        let r = TableCursor { data, lo: 0, hi };
        proof {
            assert(r.model() =~= r.data@);
        }
        r
    }

    pub fn next(&mut self) -> (r: Option<i32>)
        requires
            old(self).wf(),
        ensures
            final(self).wf(),
            pops_front(old(self).model(), final(self).model(), r),
    {
        if self.lo < self.hi {
            let x = self.data[self.lo];
            self.lo = self.lo + 1;
            proof {
                assert(self.model() =~= old(self).model().drop_first());
            }
            Some(x)
        } else {
            None
        }
    }

    pub fn next_back(&mut self) -> (r: Option<i32>)
        requires
            old(self).wf(),
        ensures
            final(self).wf(),
            pops_back(old(self).model(), final(self).model(), r),
    {
        if self.lo < self.hi {
            self.hi = self.hi - 1;
            let x = self.data[self.hi];
            proof {
                assert(self.model() =~= old(self).model().drop_last());
            }
            Some(x)
        } else {
            None
        }
    }
}

/// A bounded run of one repeated sample value: `left` more copies of
/// `value` remain, from either end.
pub struct LimitRepeat {
    pub value: i32,
    pub left: usize,
}

impl LimitRepeat {
    /// The samples still to be produced: `left` copies of `value`.
    pub open spec fn model(self) -> Seq<i32> {
        Seq::new(self.left as nat, |i: int| self.value)
    }

    pub fn next(&mut self) -> (r: Option<i32>)
        ensures
            pops_front(old(self).model(), final(self).model(), r),
    {
        if self.left == 0 {
            return None;
        }
        self.left = self.left - 1;
        proof {
            assert(self.model() =~= old(self).model().drop_first());
        }
        Some(self.value)
    }

    pub fn next_back(&mut self) -> (r: Option<i32>)
        ensures
            pops_back(old(self).model(), final(self).model(), r),
    {
        if self.left == 0 {
            return None;
        }
        self.left = self.left - 1;
        proof {
            assert(self.model() =~= old(self).model().drop_last());
        }
        Some(self.value)
    }
}

/// A lazy, bidirectional sample sequence: one of the closed family of
/// producers that the tone pipeline composes.
pub enum Signal {
    /// A finite table of samples.
    Table(TableCursor),
    /// A bounded constant run (silence, mostly).
    Limit(LimitRepeat),
    /// A looped table with an optional staged tail.
    Loop(Repeater),
    /// One sequence, then another.
    Chain(Box<Signal>, Box<Signal>),
    /// Two sequences crossfaded at their seam.
    Smooth(Smoother),
}

impl Signal {
    pub open spec fn wf(self) -> bool
        decreases self,
    {
        match self {
            Signal::Table(t) => t.wf(),
            Signal::Limit(_) => true,
            Signal::Loop(r) => r.wf(),
            Signal::Chain(a, b) => a.wf() && b.wf(),
            Signal::Smooth(s) => s.wf(),
        }
    }

    /// The samples still to be produced, front to back.
    pub open spec fn model(self) -> Seq<i32>
        decreases self,
    {
        match self {
            Signal::Table(t) => t.model(),
            Signal::Limit(l) => l.model(),
            Signal::Loop(r) => r.model(),
            Signal::Chain(a, b) => a.model() + b.model(),
            Signal::Smooth(s) => s.model(),
        }
    }

    /// A signal that plays out a finite table once.
    pub fn table(data: Vec<i32>) -> (r: Signal)
        ensures
            r.wf(),
            r.model() == data@,
    {
        Signal::Table(TableCursor::new(data))
    }

    /// One signal followed by another.
    pub fn chain(a: Signal, b: Signal) -> (r: Signal)
        requires
            a.wf(),
            b.wf(),
        ensures
            r.wf(),
            r.model() == a.model() + b.model(),
    {
        Signal::Chain(Box::new(a), Box::new(b))
    }

    /// Pop the next sample off the front.
    pub fn next(&mut self) -> (r: Option<i32>)
        requires
            old(self).wf(),
        ensures
            final(self).wf(),
            pops_front(old(self).model(), final(self).model(), r),
        decreases *old(self),
    {
        match self {
            Signal::Table(t) => t.next(),
            Signal::Limit(l) => l.next(),
            Signal::Loop(rep) => rep.next(),
            Signal::Chain(a, b) => {
                let ghost am = a.model();
                let ghost bm = b.model();
                let r = (&mut **a).next();
                match r {
                    Some(x) => {
                        proof {
                            assert((am + bm)[0] == am[0]);
                            assert(a.model() + bm =~= (am + bm).drop_first());
                        }
                        Some(x)
                    },
                    None => {
                        let r2 = (&mut **b).next();
                        proof {
                            assert(am + bm =~= bm);
                            if bm.len() > 0 {
                                assert(a.model() + b.model() =~= bm.drop_first());
                            } else {
                                assert(a.model() + b.model() =~= bm);
                            }
                        }
                        r2
                    },
                }
            },
            Signal::Smooth(s) => s.next(),
        }
    }

    /// Pop the next sample off the back.
    pub fn next_back(&mut self) -> (r: Option<i32>)
        requires
            old(self).wf(),
        ensures
            final(self).wf(),
            pops_back(old(self).model(), final(self).model(), r),
        decreases *old(self),
    {
        match self {
            Signal::Table(t) => t.next_back(),
            Signal::Limit(l) => l.next_back(),
            Signal::Loop(rep) => rep.next_back(),
            Signal::Chain(a, b) => {
                let ghost am = a.model();
                let ghost bm = b.model();
                let r = (&mut **b).next_back();
                match r {
                    Some(x) => {
                        proof {
                            assert((am + bm).last() == bm.last());
                            assert(am + b.model() =~= (am + bm).drop_last());
                        }
                        Some(x)
                    },
                    None => {
                        let r2 = (&mut **a).next_back();
                        proof {
                            assert(am + bm =~= am);
                            if am.len() > 0 {
                                assert(a.model() + b.model() =~= am.drop_last());
                            } else {
                                assert(a.model() + b.model() =~= am);
                            }
                        }
                        r2
                    },
                }
            },
            Signal::Smooth(s) => s.next_back(),
        }
    }

    /// Drain the whole signal front to back into a vector.
    pub fn collect_forward(self) -> (r: Vec<i32>)
        requires
            self.wf(),
        ensures
            r@ == self.model(),
    {
        let ghost m = self.model();
        let mut s = self;
        let mut v: Vec<i32> = Vec::new();
        loop
            invariant_except_break
                s.wf(),
                v@ + s.model() == m,
            ensures
                v@ == m,
            decreases s.model().len(),
        {
            match s.next() {
                Some(x) => {
                    proof {
                        assert(v@.push(x) + s.model() =~= m);
                    }
                    v.push(x);
                },
                None => {
                    proof {
                        assert(v@ + s.model() =~= v@);
                    }
                    break ;
                },
            }
        }
        v
    }

    /// Drain the whole signal back to front into a vector: the forward
    /// drain, reversed.
    pub fn collect_backward(self) -> (r: Vec<i32>)
        requires
            self.wf(),
        ensures
            r@ == self.model().reverse(),
    {
        let ghost m = self.model();
        let mut s = self;
        let mut v: Vec<i32> = Vec::new();
        loop
            invariant_except_break
                s.wf(),
                s.model().len() <= m.len(),
                s.model() == m.subrange(0, s.model().len() as int),
                v@ == m.subrange(s.model().len() as int, m.len() as int).reverse(),
            ensures
                v@ == m.reverse(),
            decreases s.model().len(),
        {
            let ghost j = s.model().len() as int;
            let ghost pre = s.model();
            match s.next_back() {
                Some(x) => {
                    proof {
                        assert(pre == m.subrange(0, j));
                        assert(pre.len() == j && j >= 1);
                        assert(s.model() == pre.drop_last());
                        assert(s.model() =~= m.subrange(0, j - 1));
                        assert(v@.push(x) =~= m.subrange(j - 1, m.len() as int).reverse());
                    }
                    v.push(x);
                },
                None => {
                    proof {
                        assert(v@ =~= m.reverse());
                    }
                    break ;
                },
            }
        }
        v
    }
}

/// Mirror law: draining backward yields the forward drain reversed, so
/// for a signal of `n` remaining samples the `i`-th forward sample equals
/// the `n-1-i`-th backward sample.
pub proof fn lemma_forward_backward_mirror(m: Seq<i32>, i: int)
    requires
        0 <= i < m.len(),
    ensures
        m[i] == m.reverse()[m.len() - 1 - i],
{
}

} // verus!
