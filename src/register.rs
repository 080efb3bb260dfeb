//! Thirty-two byte lanes, the width of one 256-bit register, with lane-wise
//! comparison.
use vstd::prelude::*;
use crate::scan::{lemma_quotes_before_prefix, quotes_before, BACKSLASH, NEWLINE, QUOTE};

verus! {

/// How many lanes a register holds.
pub const NUM_OF_BYTES: usize = 32;

/// A register's worth of bytes.
#[derive(Debug, Clone, Copy)]
pub struct M256RegisterWrapper(pub [u8; 32]);

/// Where a load that starts at `start_idx` reads its first byte: the first
/// load reads from the start, a later one one byte early.
pub open spec fn load_origin(start_idx: usize) -> int {
    if start_idx == 0 {
        0
    } else {
        start_idx - 1
    }
}

/// The offsets of the newline lanes that follow an even count of unescaped
/// quotes, `num_quotes` included, ascending.
pub open spec fn unquoted_newlines(lanes: Seq<u8>, num_quotes: nat) -> Seq<u8>
    decreases lanes.len(),
{
    if lanes.len() == 0 {
        Seq::empty()
    } else {
        let i = lanes.len() - 1;
        let rest = unquoted_newlines(lanes.drop_last(), num_quotes);
        if lanes[i] == NEWLINE && (num_quotes + quotes_before(lanes, i)) % 2 == 0 {
            rest.push(i as u8)
        } else {
            rest
        }
    }
}

impl M256RegisterWrapper {
    /// Loads the 32 bytes of `slice` from `load_origin(start_idx)` on; bytes
    /// past the end of `slice` read as zero.
    pub fn from_bytes(slice: &[u8], start_idx: usize) -> (r: Self)
        ensures
            forall|i: int|
                0 <= i < 32 ==> #[trigger] r.0@[i] == if load_origin(start_idx) + i < slice@.len() {
                    slice@[load_origin(start_idx) + i]
                } else {
                    0u8
                },
    {
        let offset: usize = if start_idx == 0 {
            0
        } else {
            1
        };
        let origin = start_idx - offset;
        let mut bob = [0u8; 32];
        let mut i: usize = 0;
        while i < NUM_OF_BYTES
            invariant
                i <= 32,
                origin == load_origin(start_idx),
                forall|j: int|
                    0 <= j < 32 ==> #[trigger] bob@[j] == if j < i && origin + j < slice@.len() {
                        slice@[origin + j]
                    } else {
                        0u8
                    },
            decreases 32 - i,
        {
            if origin < slice.len() && i < slice.len() - origin {
                bob[i] = slice[origin + i];
            }
            i += 1;
        }
        M256RegisterWrapper(bob)
    }

    /// Lane `i` of the result is 0xFF where lane `i` holds `byte`, else 0.
    pub fn contains_byte(self, byte: u8) -> (r: Self)
        ensures
            forall|i: int|
                0 <= i < 32 ==> #[trigger] r.0@[i] == if self.0@[i] == byte {
                    0xFFu8
                } else {
                    0u8
                },
    {
        self.contains_byte_cloned(byte)
    }

    /// As `contains_byte`, on a borrowed register.
    pub fn contains_byte_cloned(&self, byte: u8) -> (r: Self)
        ensures
            forall|i: int|
                0 <= i < 32 ==> #[trigger] r.0@[i] == if self.0@[i] == byte {
                    0xFFu8
                } else {
                    0u8
                },
    {
        let mut out = [0u8; 32];
        let mut i: usize = 0;
        while i < NUM_OF_BYTES
            invariant
                i <= 32,
                forall|j: int|
                    0 <= j < 32 ==> #[trigger] out@[j] == if j < i && self.0@[j] == byte {
                        0xFFu8
                    } else {
                        0u8
                    },
            decreases 32 - i,
        {
            if self.0[i] == byte {
                out[i] = 0xFF;
            }
            i += 1;
        }
        M256RegisterWrapper(out)
    }

    /// The offsets of the newline lanes outside quotes, given that
    /// `num_quotes` unescaped quotes came before the first lane. A quote
    /// lane right after a backslash lane is escaped and not counted; the
    /// first lane is taken as unescaped.
    pub fn match_bytes(self, num_quotes: usize) -> (r: Vec<u8>)
        ensures
            r@ == unquoted_newlines(self.0@, num_quotes as nat),
    {
        let reg_contains_lf = self.contains_byte_cloned(NEWLINE);
        let reg_contains_quote = self.contains_byte(QUOTE);
        let mut new_lines_offsets: Vec<u8> = Vec::with_capacity(32);
        // Only the parity of the count matters.
        let mut odd: bool = num_quotes % 2 == 1;
        let mut idx: usize = 0;
        while idx < NUM_OF_BYTES
            invariant
                idx <= 32,
                forall|j: int|
                    0 <= j < 32 ==> #[trigger] reg_contains_lf.0@[j] == if self.0@[j] == NEWLINE {
                        0xFFu8
                    } else {
                        0u8
                    },
                forall|j: int|
                    0 <= j < 32 ==> #[trigger] reg_contains_quote.0@[j] == if self.0@[j] == QUOTE {
                        0xFFu8
                    } else {
                        0u8
                    },
                odd == ((num_quotes + quotes_before(self.0@, idx as int)) % 2 == 1),
                new_lines_offsets@ == unquoted_newlines(self.0@.subrange(0, idx as int), num_quotes as nat),
            decreases 32 - idx,
        {
            proof {
                let lanes = self.0@;
                let pre = lanes.subrange(0, idx + 1);
                assert(pre + lanes.subrange(idx + 1, 32) =~= lanes);
                lemma_quotes_before_prefix(pre, lanes.subrange(idx + 1, 32), idx as int);
                assert(pre.drop_last() =~= lanes.subrange(0, idx as int));
            }
            if reg_contains_lf.0[idx] != 0 && !odd {
                new_lines_offsets.push(idx as u8);
            }
            if reg_contains_quote.0[idx] != 0 && (idx == 0 || self.0[idx - 1] != BACKSLASH) {
                odd = !odd;
            }
            idx += 1;
        }
        assert(self.0@.subrange(0, 32) =~= self.0@);
        new_lines_offsets
    }
}

impl From<M256RegisterWrapper> for [u8; 32] {
    fn from(value: M256RegisterWrapper) -> (r: [u8; 32]) {
        value.0
    }
}

impl vstd::std_specs::convert::FromSpecImpl<M256RegisterWrapper> for [u8; 32] {
    open spec fn obeys_from_spec() -> bool {
        true
    }

    open spec fn from_spec(v: M256RegisterWrapper) -> [u8; 32] {
        v.0
    }
}

/// Each lane of `a` is that of `v` read as a signed byte.
pub open spec fn is_signed_lanes(a: [i8; 32], v: M256RegisterWrapper) -> bool {
    forall|i: int| 0 <= i < 32 ==> #[trigger] a@[i] == v.0@[i] as i8
}

/// The lanes of `v`, each read as a signed byte.
pub open spec fn signed_lanes(v: M256RegisterWrapper) -> [i8; 32] {
    choose|a: [i8; 32]| is_signed_lanes(a, v)
}

impl From<M256RegisterWrapper> for [i8; 32] {
    fn from(value: M256RegisterWrapper) -> (r: [i8; 32]) {
        let mut out = [0i8; 32];
        let mut i: usize = 0;
        while i < NUM_OF_BYTES
            invariant
                i <= 32,
                forall|j: int| 0 <= j < i ==> #[trigger] out@[j] == value.0@[j] as i8,
            decreases 32 - i,
        {
            out[i] = value.0[i] as i8;
            i += 1;
        }
        proof {
            assert(is_signed_lanes(out, value));
            let c = signed_lanes(value);
            assert(is_signed_lanes(c, value));
            assert(out =~= c);
        }
        out
    }
}

impl vstd::std_specs::convert::FromSpecImpl<M256RegisterWrapper> for [i8; 32] {
    open spec fn obeys_from_spec() -> bool {
        true
    }

    open spec fn from_spec(v: M256RegisterWrapper) -> [i8; 32] {
        signed_lanes(v)
    }
}

} // verus!
