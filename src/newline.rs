//! The positions of every newline byte of a buffer, found window by window.
use vstd::prelude::*;
use vstd::slice::slice_subrange;
use crate::location_map::LocationMap;
use crate::matcher::{find_all_matches_m512, lemma_match_offsets_shape, match_offsets};
use crate::scan::NEWLINE;

verus! {

/// Width of the windows that newlines are looked for in.
pub const NEWLINE_WINDOW: usize = 64;

/// Walks a buffer window by window and hands out the newline offsets of each
/// window that has any.
pub struct LocMapIter<'a> {
    pub data: &'a [u8],
    pub counter: usize,
}

impl<'a> LocMapIter<'a> {
    /// The next window from `counter` on that holds a newline: its start and
    /// its newline offsets. Windows without one are passed over.
    pub fn next(&mut self) -> (r: Option<(usize, LocationMap<64>)>)
        requires
            old(self).counter <= old(self).data@.len(),
        ensures
            final(self).data == old(self).data,
            final(self).counter <= final(self).data@.len(),
            r is None ==> final(self).counter == final(self).data@.len() && forall|j: int|
                old(self).counter <= j < final(self).data@.len() ==> final(self).data@[j] != NEWLINE,
            r matches Some((base, map)) ==> {
                &&& old(self).counter <= base < final(self).counter
                &&& (base - old(self).counter) % 64 == 0
                &&& final(self).counter == if base + 64 <= final(self).data@.len() {
                    base + 64
                } else {
                    final(self).data@.len() as int
                }
                &&& map.wf()
                &&& map@ == match_offsets(
                    final(self).data@.subrange(base as int, final(self).counter as int),
                    NEWLINE,
                )
                &&& map@.len() > 0
                &&& forall|j: int|
                    old(self).counter <= j < base ==> final(self).data@[j] != NEWLINE
            },
    {
        let ghost data = self.data@;
        loop
            invariant
                self.data@ == data,
                self.data == old(self).data,
                old(self).counter <= self.counter <= data.len(),
                forall|j: int| old(self).counter <= j < self.counter ==> data[j] != NEWLINE,
                self.counter == data.len() || (self.counter - old(self).counter) % 64 == 0,
            decreases data.len() - self.counter,
        {
            let start = self.counter;
            if start >= self.data.len() {
                return None;
            }
            let end = if self.data.len() - start < NEWLINE_WINDOW {
                self.data.len()
            } else {
                start + NEWLINE_WINDOW
            };
            let window = slice_subrange(self.data, start, end);
            let loc_map = find_all_matches_m512(window, NEWLINE);
            self.counter = end;
            if loc_map.len() > 0 {
                return Some((start, loc_map));
            }
            proof {
                lemma_match_offsets_shape(window@, NEWLINE);
                assert forall|j: int| start <= j < end implies data[j] != NEWLINE by {
                    if data[j] == NEWLINE {
                        assert(window@[j - start] == NEWLINE);
                        assert(window@.contains(NEWLINE));
                        crate::matcher::lemma_no_match_iff_absent(window@, NEWLINE);
                    }
                }
            }
        }
    }
}

/// Hands out the position of every newline byte of a buffer, ascending.
pub struct NewLinePositionIter<'a> {
    data: &'a [u8],
    iter: LocMapIter<'a>,
    buf: LocationMap<64>,
    /// Start of the window that `buf` was found in.
    buf_base: usize,
    buf_index: usize,
    /// Where the search for the next newline begins.
    pos: Ghost<int>,
}

impl<'a> NewLinePositionIter<'a> {
    /// The buffer searched.
    pub closed spec fn data(&self) -> Seq<u8> {
        self.data@
    }

    /// Where the search for the next newline begins.
    pub closed spec fn position(&self) -> int {
        self.pos@
    }

    pub closed spec fn wf(&self) -> bool {
        let data = self.data@;
        let bi = self.buf_index as int;
        let bl = self.buf.len as int;
        let c = self.iter.counter as int;
        &&& self.iter.data == self.data
        &&& 0 <= self.pos@ <= c <= data.len()
        &&& self.buf.wf()
        &&& bi <= bl
        &&& forall|q: int|
            bi <= q < bl ==> {
                let p = self.buf_base + #[trigger] self.buf@[q];
                self.pos@ <= p < c && data[p] == NEWLINE
            }
        &&& forall|q1: int, q2: int|
            bi <= q1 < q2 < bl ==> #[trigger] self.buf@[q1] < #[trigger] self.buf@[q2]
        &&& forall|j: int|
            self.pos@ <= j < c && #[trigger] data[j] == NEWLINE ==> exists|q: int|
                bi <= q < bl && self.buf_base + self.buf@[q] == j
    }

    pub fn new(data: &'a [u8]) -> (r: Self)
        ensures
            r.wf(),
            r.data() == data@,
            r.position() == 0,
    {
        let buf = LocationMap::new();
        assert(buf.len == buf@.len());
        let iter = LocMapIter { data, counter: 0 };
        NewLinePositionIter { data, iter, buf, buf_base: 0, buf_index: 0, pos: Ghost(0) }
    }

    /// The position of the first newline at or after `position()`, or `None`
    /// when there is none.
    pub fn next(&mut self) -> (r: Option<usize>)
        requires
            old(self).wf(),
        ensures
            final(self).wf(),
            final(self).data() == old(self).data(),
            (r is Some) == exists|j: int|
                old(self).position() <= j < old(self).data().len() && old(self).data()[j] == NEWLINE,
            r matches Some(p) ==> {
                &&& old(self).position() <= p < old(self).data().len()
                &&& old(self).data()[p as int] == NEWLINE
                &&& forall|j: int|
                    old(self).position() <= j < p ==> old(self).data()[j] != NEWLINE
                &&& final(self).position() == p + 1
            },
    {
        let ghost data = self.data@;
        if self.buf_index >= self.buf.len() {
            let ghost c0 = self.iter.counter as int;
            match self.iter.next() {
                Some((base, loc_map)) => {
                    let ghost c1 = self.iter.counter as int;
                    let ghost w = data.subrange(base as int, c1);
                    proof {
                        lemma_match_offsets_shape(w, NEWLINE);
                        assert forall|q: int| 0 <= q < loc_map@.len() implies data[base + #[trigger] loc_map@[q]] == NEWLINE by {
                            assert(w[loc_map@[q] as int] == NEWLINE);
                        }
                        assert forall|j: int| base <= j < c1 && #[trigger] data[j] == NEWLINE implies exists|q: int|
                            0 <= q < loc_map@.len() && base + loc_map@[q] == j by {
                            assert(w[j - base] == NEWLINE);
                        }
                    }
                    self.buf = loc_map;
                    self.buf_base = base;
                    self.buf_index = 0;
                    proof {
                        assert forall|j: int| self.pos@ <= j < c1 && #[trigger] data[j] == NEWLINE implies exists|q: int|
                            0 <= q < self.buf.len && self.buf_base + self.buf@[q] == j by {
                            if j < c0 {
                                let q = choose|q: int|
                                    old(self).buf_index <= q < old(self).buf.len && old(self).buf_base + old(self).buf@[q] == j;
                            }
                        }
                    }
                },
                None => {
                    proof {
                        assert forall|j: int| self.pos@ <= j < data.len() implies data[j] != NEWLINE by {
                            if j < c0 && data[j] == NEWLINE {
                                let q = choose|q: int|
                                    old(self).buf_index <= q < old(self).buf.len && old(self).buf_base + old(self).buf@[q] == j;
                            }
                        }
                    }
                    return None;
                },
            }
        }
        let bi = self.buf_index;
        let p = self.buf_base + self.buf.get(bi);
        proof {
            assert(old(self).position() <= p < old(self).data().len() && old(self).data()[p as int] == NEWLINE);
            assert forall|j: int| self.pos@ <= j < p implies data[j] != NEWLINE by {
                if data[j] == NEWLINE {
                    let q = choose|q: int|
                        bi <= q < self.buf.len && self.buf_base + self.buf@[q] == j;
                    if q > bi {
                        assert(self.buf@[bi as int] < self.buf@[q]);
                    }
                }
            }
        }
        self.buf_index = bi + 1;
        self.pos = Ghost(p + 1);
        proof {
            assert forall|j: int| self.pos@ <= j < self.iter.counter && #[trigger] data[j] == NEWLINE implies exists|q: int|
                self.buf_index <= q < self.buf.len && self.buf_base + self.buf@[q] == j by {
                let q = choose|q: int| bi <= q < self.buf.len && self.buf_base + self.buf@[q] == j;
                assert(q != bi);
            }
            assert forall|q: int| self.buf_index <= q < self.buf.len implies self.pos@ <= self.buf_base + #[trigger] self.buf@[q] by {
                assert(self.buf@[bi as int] < self.buf@[q]);
            }
        }
        Some(p)
    }
}

} // verus!
