//! A rolling window: the last so many values, oldest first.

use std::collections::VecDeque;
use vstd::prelude::*;

verus! {

/// The window `s` of at most `cap` values once `x` has entered: the oldest
/// value leaves a full window.
pub open spec fn slide<T>(cap: nat, s: Seq<T>, x: T) -> Seq<T> {
    if s.len() == cap {
        s.drop_first().push(x)
    } else {
        s.push(x)
    }
}

pub struct RollingWindow<T> {
    cap: usize,
    buf: VecDeque<T>,
}

impl<T> View for RollingWindow<T> {
    type V = Seq<T>;

    closed spec fn view(&self) -> Seq<T> {
        self.buf@
    }
}

impl<T: Copy> RollingWindow<T> {
    pub closed spec fn cap(&self) -> nat {
        self.cap as nat
    }

    /// The window holds at least one value at most `cap` of them.
    pub open spec fn wf(&self) -> bool {
        1 <= self.cap() <= usize::MAX && self@.len() <= self.cap()
    }

    pub fn new(cap: usize) -> (r: Self)
        requires
            cap >= 1,
        ensures
            r.wf(),
            r.cap() == cap,
            r@ == Seq::<T>::empty(),
    {
        RollingWindow { cap, buf: VecDeque::new() }
    }

    pub fn capacity(&self) -> (r: usize)
        requires
            self.wf(),
        ensures
            r == self.cap(),
    {
        self.cap
    }

    pub fn is_full(&self) -> (r: bool)
        requires
            self.wf(),
        ensures
            r == (self@.len() == self.cap()),
    {
        self.buf.len() == self.cap
    }

    pub fn push(&mut self, x: T)
        requires
            old(self).wf(),
        ensures
            final(self).wf(),
            final(self).cap() == old(self).cap(),
            final(self)@ == slide(old(self).cap(), old(self)@, x),
    {
        if self.buf.len() == self.cap {
            let _ = self.buf.pop_front();
            assert(self.buf@ =~= old(self)@.drop_first());
        }
        self.buf.push_back(x);
    }

    /// The values, oldest first.
    pub fn to_vec(&self) -> (r: Vec<T>)
        ensures
            r@ == self@,
    {
        let mut out: Vec<T> = Vec::new();
        let mut i: usize = 0;
        while i < self.buf.len()
            invariant
                i <= self.buf@.len(),
                out@ =~= self.buf@.take(i as int),
            decreases self.buf@.len() - i,
        {
            out.push(self.buf[i]);
            i += 1;
        }
        assert(self.buf@.take(i as int) =~= self.buf@);
        out
    }
}

/// A window of at most `cap` values once all of `xs` have entered it.
pub open spec fn slid<T>(cap: nat, xs: Seq<T>) -> Seq<T>
    decreases xs.len(),
{
    if xs.len() == 0 {
        Seq::empty()
    } else {
        slide(cap, slid(cap, xs.drop_last()), xs.last())
    }
}

/// A window holds exactly the last values that entered it, in their order: all
/// of them until it is full, and as many as fit from then on.
pub proof fn law_a_window_holds_the_last_values<T>(cap: nat, xs: Seq<T>)
    requires
        cap >= 1,
    ensures
        slid(cap, xs) == (if xs.len() <= cap { xs } else { xs.skip(xs.len() - cap) }),
    decreases xs.len(),
{
    if xs.len() > 0 {
        law_a_window_holds_the_last_values(cap, xs.drop_last());
        let wanted = if xs.len() <= cap {
            xs
        } else {
            xs.skip(xs.len() - cap)
        };
        assert(slid(cap, xs) =~= wanted);
    }
}

} // verus!
