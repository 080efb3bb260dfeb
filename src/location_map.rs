//! A fixed-capacity, ascending sequence of offsets into one window.
use vstd::prelude::*;

verus! {

/// Offsets found in one window, held without allocation: the first `len`
/// entries of `map` are in use, the others are zero.
#[derive(Debug, Clone, Copy, PartialEq, Eq)]
pub struct LocationMap<const N: usize> {
    pub map: [usize; N],
    pub len: usize,
}

impl<const N: usize> LocationMap<N> {
    /// The offsets held, in order.
    pub open spec fn view(&self) -> Seq<usize> {
        self.map@.subrange(0, self.len as int)
    }

    /// The count fits the capacity and every unused slot is zero, so that two
    /// maps are equal exactly when they hold the same offsets.
    pub open spec fn wf(&self) -> bool {
        &&& self.len <= N
        &&& forall|i: int| self.len <= i < N ==> #[trigger] self.map@[i] == 0
    }

    pub fn new() -> (r: Self)
        ensures
            r.wf(),
            r@ == Seq::<usize>::empty(),
    {
        let map = [0usize; N];
        LocationMap { map, len: 0 }
    }

    pub fn len(&self) -> (r: usize)
        ensures
            r == self.len,
    {
        self.len
    }

    pub fn is_empty(&self) -> (r: bool)
        ensures
            r == (self.len == 0),
    {
        self.len == 0
    }

    pub fn get(&self, i: usize) -> (r: usize)
        requires
            self.len <= N,
            i < self.len,
        ensures
            r == self@[i as int],
    {
        self.map[i]
    }

    /// Appends an offset after those held.
    pub fn push(&mut self, offset: usize)
        requires
            old(self).wf(),
            old(self).len < N,
        ensures
            final(self).wf(),
            final(self)@ == old(self)@.push(offset),
    {
        let i = self.len;
        self.map[i] = offset;
        self.len = i + 1;
        assert(self@ =~= old(self)@.push(offset));
    }

    /// A cursor that hands the offsets out from the first.
    pub fn into_iter(self) -> (r: LocationMapIter<N>)
        requires
            self.len <= N,
        ensures
            r.wf(),
            r.remaining() == self@,
    {
        LocationMapIter { lm: self, counter: 0 }
    }
}

/// Hands out the offsets of a `LocationMap` one at a time.
pub struct LocationMapIter<const N: usize> {
    pub lm: LocationMap<N>,
    pub counter: usize,
}

impl<const N: usize> LocationMapIter<N> {
    pub open spec fn wf(&self) -> bool {
        self.lm.len <= N && self.counter <= self.lm.len
    }

    /// The offsets not yet handed out.
    pub open spec fn remaining(&self) -> Seq<usize> {
        self.lm@.subrange(self.counter as int, self.lm.len as int)
    }

    pub fn next(&mut self) -> (r: Option<usize>)
        requires
            old(self).wf(),
        ensures
            final(self).wf(),
            old(self).remaining().len() == 0 ==> r is None && final(self).remaining()
                == old(self).remaining(),
            old(self).remaining().len() > 0 ==> r == Some(old(self).remaining()[0])
                && final(self).remaining() == old(self).remaining().drop_first(),
    {
        if self.counter < self.lm.len {
            let res = self.lm.map[self.counter];
            self.counter += 1;
            assert(self.remaining() =~= old(self).remaining().drop_first());
            Some(res)
        } else {
            None
        }
    }
}

} // verus!
