//! The quote-aware segmenter: hands out, one by one, the records of a buffer
//! of concatenated JSON documents.
use vstd::prelude::*;
use vstd::slice::slice_subrange;
use crate::location_map::LocationMap;
use crate::matcher::{find_all_matches_m256, lemma_match_offsets_shape, match_offsets};
use crate::scan::{
    is_delimiter,
    lemma_quotes_before_bound,
    lemma_segments_skip,
    quotes_before,
    records,
    segments,
    BACKSLASH,
    NEWLINE,
    QUOTE,
};

verus! {

/// Width of the windows that the buffer is scanned in.
pub const WINDOW: usize = 32;

/// Splits a borrowed buffer into records. The buffer is read in windows of
/// `WINDOW` bytes: the matcher finds the newlines of a window, and a replay
/// of the window's bytes, in order, keeps the quote count and keeps those
/// newlines that stand outside quotes.
#[derive(Debug, Clone)]
pub struct MultiJsonl256BitsParser<'a> {
    /// Start of the record being read.
    counter: usize,
    /// Unescaped quotes among the bytes replayed so far.
    quote_counter: usize,
    slice: &'a [u8],
    slice_len: usize,
    /// The last byte replayed.
    last: u8,
    /// How many bytes have been replayed.
    scanned: usize,
    /// Delimiters found in the last window, not all handed out yet.
    pending: LocationMap<32>,
    pending_index: usize,
}

impl<'a> MultiJsonl256BitsParser<'a> {
    /// The buffer being split.
    pub closed spec fn data(&self) -> Seq<u8> {
        self.slice@
    }

    /// The records not handed out yet.
    pub closed spec fn remaining(&self) -> Seq<Seq<u8>> {
        segments(self.slice@, self.counter as int, self.counter as int)
    }

    pub closed spec fn wf(&self) -> bool {
        let data = self.slice@;
        let pi = self.pending_index as int;
        let pl = self.pending.len as int;
        &&& self.slice_len == data.len()
        &&& self.counter <= self.scanned <= data.len()
        &&& self.quote_counter == quotes_before(data, self.scanned as int)
        &&& self.scanned > 0 ==> self.last == data[self.scanned - 1]
        &&& self.scanned == 0 ==> self.last != BACKSLASH
        &&& self.pending.wf()
        &&& pi <= pl
        &&& forall|q: int|
            pi <= q < pl ==> {
                let d = #[trigger] self.pending@[q];
                self.counter <= d < self.scanned && is_delimiter(data, d as int)
            }
        &&& forall|q1: int, q2: int|
            pi <= q1 < q2 < pl ==> #[trigger] self.pending@[q1] < #[trigger] self.pending@[q2]
        &&& forall|j: int|
            self.counter <= j < self.scanned && #[trigger] is_delimiter(data, j) ==> exists|q: int|
                pi <= q < pl && self.pending@[q] == j
    }

    pub fn new(mmap: &'a [u8]) -> (r: Self)
        ensures
            r.wf(),
            r.data() == mmap@,
            r.remaining() == records(mmap@),
    {
        let pending = LocationMap::new();
        assert(pending.len == pending@.len());
        MultiJsonl256BitsParser {
            counter: 0,
            quote_counter: 0,
            slice_len: mmap.len(),
            slice: mmap,
            last: 0x61,
            scanned: 0,
            pending,
            pending_index: 0,
        }
    }

    /// Replays the next window and collects the delimiters in it.
    fn scan_window(&mut self)
        requires
            old(self).wf(),
            old(self).pending_index == old(self).pending.len,
            old(self).scanned < old(self).slice_len,
        ensures
            final(self).wf(),
            final(self).slice == old(self).slice,
            final(self).counter == old(self).counter,
            final(self).scanned > old(self).scanned,
    {
        let ghost data = self.slice@;
        let start = self.scanned;
        let end = if self.slice_len - start < WINDOW {
            self.slice_len
        } else {
            start + WINDOW
        };
        let wl = end - start;
        // A short last window is read as if padded with zeros, which hold no
        // newline.
        let window = slice_subrange(self.slice, start, end);
        let candidates = find_all_matches_m256(window, NEWLINE);
        let ghost full = candidates@;
        proof {
            lemma_match_offsets_shape(window@, NEWLINE);
        }
        let mut cands = candidates.into_iter();
        let mut next_cand = cands.next();
        let ghost mut c: int = 0;
        let mut quotes = self.quote_counter;
        let mut last = self.last;
        let mut found = LocationMap::<32>::new();
        let mut k: usize = 0;
        while k < wl
            invariant
                data == self.slice@,
                self.slice_len == data.len(),
                start < end <= data.len(),
                wl == end - start <= 32,
                k <= wl,
                window@ == data.subrange(start as int, end as int),
                full == match_offsets(window@, NEWLINE),
                quotes == quotes_before(data, start + k),
                start + k > 0 ==> last == data[start + k - 1],
                start + k == 0 ==> last != BACKSLASH,
                0 <= c <= full.len(),
                forall|q: int| 0 <= q < c ==> full[q] < k,
                c < full.len() ==> full[c] >= k,
                next_cand == if c < full.len() {
                    Some(full[c])
                } else {
                    None::<usize>
                },
                cands.wf(),
                c < full.len() ==> cands.remaining() == full.subrange(c + 1, full.len() as int),
                c == full.len() ==> cands.remaining().len() == 0,
                found.wf(),
                found@.len() <= k,
                forall|q: int|
                    0 <= q < found@.len() ==> {
                        let d = #[trigger] found@[q];
                        start <= d < start + k && is_delimiter(data, d as int)
                    },
                forall|q1: int, q2: int|
                    0 <= q1 < q2 < found@.len() ==> #[trigger] found@[q1] < #[trigger] found@[q2],
                forall|j: int|
                    start <= j < start + k && #[trigger] is_delimiter(data, j) ==> exists|q: int|
                        0 <= q < found@.len() && found@[q] == j,
            decreases wl - k,
        {
            proof {
                lemma_match_offsets_shape(window@, NEWLINE);
            }
            let byte = window[k];
            let pos = start + k;
            assert(byte == data[pos as int]);
            let is_candidate = match next_cand {
                Some(o) => o == k,
                None => false,
            };
            proof {
                if byte == NEWLINE {
                    let q = choose|q: int| 0 <= q < full.len() && #[trigger] full[q] == k as int;
                    if q > c {
                        assert(full[c] < full[q]);
                    }
                    assert(q == c);
                }
            }
            assert(is_candidate == (byte == NEWLINE));
            if is_candidate {
                if quotes % 2 == 0 {
                    let ghost before = found@;
                    found.push(pos);
                    assert forall|j: int|
                        start <= j < start + k + 1 && #[trigger] is_delimiter(data, j) implies exists|q: int|
                            0 <= q < found@.len() && found@[q] == j by {
                        if j < pos {
                            let q = choose|q: int| 0 <= q < before.len() && before[q] == j;
                            assert(found@[q] == j);
                        } else {
                            assert(found@[before.len() as int] == j);
                        }
                    }
                }
                proof {
                    if c + 1 < full.len() {
                        assert(full[c] < full[c + 1]);
                        assert(cands.remaining()[0] == full[c + 1]);
                    }
                }
                next_cand = cands.next();
                proof {
                    c = c + 1;
                    if c < full.len() {
                        assert(cands.remaining() =~= full.subrange(c + 1, full.len() as int));
                    }
                }
            }
            proof {
                lemma_quotes_before_bound(data, pos as int);
            }
            if byte == QUOTE && last != BACKSLASH {
                quotes = quotes + 1;
            }
            last = byte;
            k = k + 1;
        }
        self.quote_counter = quotes;
        self.last = last;
        self.scanned = end;
        self.pending = found;
        self.pending_index = 0;
    }

    /// The next record, newline included, or `None` once no delimiter is left;
    /// bytes after the last delimiter are never handed out.
    pub fn next(&mut self) -> (r: Option<&'a [u8]>)
        requires
            old(self).wf(),
        ensures
            final(self).wf(),
            final(self).data() == old(self).data(),
            old(self).remaining().len() == 0 ==> r is None && final(self).remaining().len() == 0,
            old(self).remaining().len() > 0 ==> r is Some && r->0@ == old(self).remaining()[0]
                && final(self).remaining() == old(self).remaining().drop_first(),
    {
        loop
            invariant
                self.wf(),
                self.data() == old(self).data(),
                self.remaining() == old(self).remaining(),
            decreases self.slice_len - self.scanned,
        {
            let ghost data = self.slice@;
            if self.pending_index < self.pending.len() {
                let d = self.pending.get(self.pending_index);
                let start = self.counter;
                proof {
                    let pi = self.pending_index as int;
                    assert(self.pending@[pi] == d);
                    assert forall|j: int| start <= j < d implies !#[trigger] is_delimiter(data, j) by {
                        if is_delimiter(data, j) {
                            let q = choose|q: int|
                                pi <= q < self.pending.len && self.pending@[q] == j;
                            if q > pi {
                                assert(self.pending@[pi] < self.pending@[q]);
                            }
                        }
                    }
                    lemma_segments_skip(data, start as int, start as int, d as int);
                    assert(segments(data, start as int, d as int) == seq![
                        data.subrange(start as int, d + 1),
                    ] + segments(data, d + 1, d + 1));
                }
                let out = slice_subrange(self.slice, start, d + 1);
                self.counter = d + 1;
                self.pending_index = self.pending_index + 1;
                proof {
                    assert forall|j: int|
                        self.counter <= j < self.scanned && #[trigger] is_delimiter(data, j) implies exists|q: int|
                            self.pending_index <= q < self.pending.len && self.pending@[q] == j by {
                        let q = choose|q: int|
                            self.pending_index - 1 <= q < self.pending.len && self.pending@[q] == j;
                        assert(q != self.pending_index - 1);
                    }
                    assert forall|q: int|
                        self.pending_index <= q < self.pending.len implies self.counter <= #[trigger] self.pending@[q] by {
                        assert(self.pending@[self.pending_index - 1] < self.pending@[q]);
                    }
                    assert(old(self).remaining() =~= seq![out@] + self.remaining());
                }
                return Some(out);
            }
            if self.scanned >= self.slice_len {
                proof {
                    lemma_segments_skip(data, self.counter as int, self.counter as int, data.len() as int);
                }
                return None;
            }
            self.scan_window();
        }
    }
}

} // verus!
