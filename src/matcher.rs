//! Finding every offset of one byte value in a fixed-width window.
//!
//! Three backends share one contract: the result holds exactly the offsets
//! `i` with `w[i] == b`, ascending. Each takes a window of at most its width;
//! a shorter one is read as if padded with zero bytes, which only a search
//! for zero would find, and the offsets past its end are never reported.
use vstd::prelude::*;
use crate::location_map::LocationMap;

verus! {

/// The offsets of `w` that hold `b`, ascending.
pub open spec fn match_offsets(w: Seq<u8>, b: u8) -> Seq<usize>
    decreases w.len(),
{
    if w.len() == 0 {
        Seq::empty()
    } else {
        let rest = match_offsets(w.drop_last(), b);
        if w.last() == b {
            rest.push((w.len() - 1) as usize)
        } else {
            rest
        }
    }
}

/// The offsets are those of `b` in `w`, strictly ascending, and no more than
/// `w` has bytes.
pub proof fn lemma_match_offsets_shape(w: Seq<u8>, b: u8)
    requires
        w.len() <= usize::MAX,
    ensures
        match_offsets(w, b).len() <= w.len(),
        forall|k: int|
            0 <= k < match_offsets(w, b).len() ==> {
                let i = #[trigger] match_offsets(w, b)[k];
                i < w.len() && w[i as int] == b
            },
        forall|k1: int, k2: int|
            0 <= k1 < k2 < match_offsets(w, b).len() ==> #[trigger] match_offsets(w, b)[k1]
                < #[trigger] match_offsets(w, b)[k2],
        forall|i: int|
            0 <= i < w.len() && w[i] == b ==> exists|k: int|
                0 <= k < match_offsets(w, b).len() && #[trigger] match_offsets(w, b)[k] == i,
    decreases w.len(),
{
    if w.len() > 0 {
        let p = w.drop_last();
        lemma_match_offsets_shape(p, b);
        let last = (w.len() - 1) as int;
        assert forall|i: int| 0 <= i < w.len() && w[i] == b implies exists|k: int|
            0 <= k < match_offsets(w, b).len() && #[trigger] match_offsets(w, b)[k] == i by {
            if i < last {
                assert(p[i] == b);
                let k = choose|k: int|
                    0 <= k < match_offsets(p, b).len() && #[trigger] match_offsets(p, b)[k] == i;
                assert(match_offsets(w, b)[k] == i);
            } else {
                let k = match_offsets(p, b).len() as int;
                assert(match_offsets(w, b)[k] == i);
            }
        }
    }
}

/// A window yields no offset exactly when the byte does not occur in it.
pub proof fn lemma_no_match_iff_absent(w: Seq<u8>, b: u8)
    requires
        w.len() <= usize::MAX,
    ensures
        match_offsets(w, b).len() == 0 <==> !w.contains(b),
{
    lemma_match_offsets_shape(w, b);
    if w.contains(b) {
        let i = choose|i: int| 0 <= i < w.len() && w[i] == b;
        let k = choose|k: int|
            0 <= k < match_offsets(w, b).len() && #[trigger] match_offsets(w, b)[k] == i;
    }
    if match_offsets(w, b).len() > 0 {
        let i = match_offsets(w, b)[0];
        assert(w[i as int] == b);
    }
}

proof fn lemma_match_offsets_prefix(w: Seq<u8>, b: u8, k: int)
    requires
        0 <= k < w.len(),
    ensures
        match_offsets(w.subrange(0, k + 1), b) == if w[k] == b {
            match_offsets(w.subrange(0, k), b).push(k as usize)
        } else {
            match_offsets(w.subrange(0, k), b)
        },
{
    assert(w.subrange(0, k + 1).drop_last() =~= w.subrange(0, k));
}

/// Scalar backend: compares each byte of the window with `b` in turn.
pub fn find_all_matches_fallback<const N: usize>(s: &[u8], b: u8) -> (r: LocationMap<N>)
    requires
        s@.len() <= N,
    ensures
        r.wf(),
        r@ == match_offsets(s@, b),
{
    let mut buf = LocationMap::<N>::new();
    let mut counter: usize = 0;
    while counter < s.len()
        invariant
            counter <= s@.len() <= N,
            buf.wf(),
            buf@ == match_offsets(s@.subrange(0, counter as int), b),
            buf@.len() <= counter,
        decreases s@.len() - counter,
    {
        proof {
            lemma_match_offsets_prefix(s@, b, counter as int);
        }
        if s[counter] == b {
            buf.push(counter);
        }
        counter += 1;
    }
    assert(s@.subrange(0, s@.len() as int) =~= s@);
    buf
}

/// Wide backend over 32 byte lanes: every lane is compared with `b` first,
/// then the offsets of the equal lanes are read out in order.
pub fn find_all_matches_m256(s: &[u8], b: u8) -> (r: LocationMap<32>)
    requires
        s@.len() <= 32,
    ensures
        r.wf(),
        r@ == match_offsets(s@, b),
{
    let ghost n = s@.len() as int;
    // Lanes past the end of a short window stay zero, as padding would.
    let mut lanes = [0u8; 32];
    let mut i: usize = 0;
    while i < s.len()
        invariant
            i <= n <= 32,
            n == s@.len(),
            forall|j: int|
                0 <= j < 32 ==> #[trigger] lanes@[j] == if j < i && s@[j] == b {
                    0xFFu8
                } else {
                    0u8
                },
        decreases n - i,
    {
        if s[i] == b {
            lanes[i] = 0xFF;
        }
        i += 1;
    }
    let mut buf = LocationMap::<32>::new();
    let mut idx: usize = 0;
    while idx < 32
        invariant
            idx <= 32,
            n == s@.len() <= 32,
            forall|j: int|
                0 <= j < 32 ==> #[trigger] lanes@[j] == if j < n && s@[j] == b {
                    0xFFu8
                } else {
                    0u8
                },
            buf.wf(),
            buf@ == match_offsets(s@.subrange(0, if idx <= n { idx as int } else { n }), b),
            buf@.len() <= idx,
        decreases 32 - idx,
    {
        proof {
            if idx < n {
                lemma_match_offsets_prefix(s@, b, idx as int);
            }
        }
        if lanes[idx] != 0 {
            buf.push(idx);
        }
        idx += 1;
    }
    assert(s@.subrange(0, n) =~= s@);
    buf
}

/// Bit `j` of `m` is set.
pub open spec fn bit_set(m: u64, j: u64) -> bool {
    (m >> j) & 1u64 == 1u64
}

/// Bit `i` of `m` is set exactly where lane `i` of `w` holds `b`.
pub open spec fn is_lane_mask(m: u64, w: Seq<u8>, b: u8) -> bool {
    forall|i: u64| i < 64 ==> (#[trigger] bit_set(m, i) <==> (i < w.len() && w[i as int] == b))
}

/// The set bits of `m` below position `k`, lowest first.
pub open spec fn low_bits(m: u64, k: nat) -> Seq<usize>
    decreases k,
{
    if k == 0 {
        Seq::empty()
    } else {
        let rest = low_bits(m, (k - 1) as nat);
        if bit_set(m, (k - 1) as u64) {
            rest.push((k - 1) as usize)
        } else {
            rest
        }
    }
}

proof fn lemma_low_bits_of_lane_mask(m: u64, w: Seq<u8>, b: u8, k: nat)
    requires
        w.len() <= 64,
        k <= 64,
        is_lane_mask(m, w, b),
    ensures
        low_bits(m, k) == match_offsets(w.subrange(0, if k <= w.len() { k as int } else { w.len() as int }), b),
    decreases k,
{
    if k > 0 {
        lemma_low_bits_of_lane_mask(m, w, b, (k - 1) as nat);
        assert(bit_set(m, (k - 1) as u64) <==> (k - 1 < w.len() && w[k - 1] == b));
        if k <= w.len() {
            lemma_match_offsets_prefix(w, b, k - 1);
        }
    }
}

/// The set bits of a lane mask of `w` for `b`, read lowest first, are the
/// offsets that the byte-by-byte scan finds: the bitmask backend agrees with
/// the scalar one on every window.
pub proof fn lemma_lane_mask_agrees_with_scan(w: Seq<u8>, b: u8, m: u64)
    requires
        w.len() <= 64,
        is_lane_mask(m, w, b),
    ensures
        low_bits(m, 64) == match_offsets(w, b),
{
    lemma_low_bits_of_lane_mask(m, w, b, 64);
    assert(w.subrange(0, w.len() as int) =~= w);
}

proof fn lemma_clear_lowest_bit(m: u64, t: u64)
    requires
        m != 0,
        t == m.trailing_zeros(),
    ensures
        t < 64,
        bit_set(m, t),
        forall|j: u64| j < t ==> !#[trigger] bit_set(m, j),
        forall|j: u64| t < j < 64 ==> #[trigger] bit_set(m & vstd::prelude::sub(m, 1), j) == bit_set(m, j),
        forall|j: u64| j <= t ==> !#[trigger] bit_set(m & vstd::prelude::sub(m, 1), j),
{
    vstd::std_specs::bits::axiom_u64_trailing_zeros(m);
    assert(t < 64);
    assert forall|j: u64| t < j < 64 implies #[trigger] bit_set(m & vstd::prelude::sub(m, 1), j) == bit_set(m, j) by {
        assert((m >> t) & 1u64 == 1u64 && m << vstd::prelude::sub(64, t) == 0 && t < 64 && t < j && j < 64
            ==> ((m & vstd::prelude::sub(m, 1)) >> j) & 1u64 == (m >> j) & 1u64) by (bit_vector);
    }
    assert forall|j: u64| j <= t implies !#[trigger] bit_set(m & vstd::prelude::sub(m, 1), j) by {
        assert((m >> t) & 1u64 == 1u64 && m << vstd::prelude::sub(64, t) == 0 && t < 64 && j <= t
            ==> ((m & vstd::prelude::sub(m, 1)) >> j) & 1u64 == 0u64) by (bit_vector);
    }
}

proof fn lemma_low_bits_take_lowest(m: u64, t: u64, k: nat)
    requires
        t < 64,
        k <= 64,
        bit_set(m, t),
        forall|j: u64| j < t ==> !#[trigger] bit_set(m, j),
        forall|j: u64| t < j < 64 ==> #[trigger] bit_set(m & vstd::prelude::sub(m, 1), j) == bit_set(m, j),
        forall|j: u64| j <= t ==> !#[trigger] bit_set(m & vstd::prelude::sub(m, 1), j),
    ensures
        k <= t ==> low_bits(m, k) == Seq::<usize>::empty() && low_bits(m & vstd::prelude::sub(m, 1), k)
            == Seq::<usize>::empty(),
        k > t ==> low_bits(m, k) == seq![t as usize] + low_bits(m & vstd::prelude::sub(m, 1), k),
    decreases k,
{
    if k > 0 {
        lemma_low_bits_take_lowest(m, t, (k - 1) as nat);
        let j = (k - 1) as u64;
        if k - 1 == t {
            assert(low_bits(m, k) =~= seq![t as usize] + low_bits(m & vstd::prelude::sub(m, 1), k));
        } else if k - 1 > t {
            assert(bit_set(m & vstd::prelude::sub(m, 1), j) == bit_set(m, j));
            assert(low_bits(m, k) =~= seq![t as usize] + low_bits(m & vstd::prelude::sub(m, 1), k));
        }
    }
}

/// Wide backend over 64 byte lanes: the comparison gives a bitmask, whose
/// lowest set bit is taken and cleared until none is left.
pub fn find_all_matches_m512(s: &[u8], b: u8) -> (r: LocationMap<64>)
    requires
        s@.len() <= 64,
    ensures
        r.wf(),
        r@ == match_offsets(s@, b),
{
    let ghost n = s@.len() as int;
    let mut mask: u64 = 0;
    let mut i: usize = 0;
    proof {
        lemma_zero_has_no_bits();
    }
    while i < s.len()
        invariant
            i <= n <= 64,
            n == s@.len(),
            forall|j: u64| j < 64 ==> (#[trigger] bit_set(mask, j) <==> (j < i && s@[j as int] == b)),
        decreases n - i,
    {
        if s[i] == b {
            let ghost old_mask = mask;
            let k = i as u64;
            mask = mask | (1u64 << k);
            assert forall|j: u64| j < 64 implies (#[trigger] bit_set(mask, j) <==> (bit_set(old_mask, j) || j == k)) by {
                assert(k < 64 && j < 64 ==> ((((old_mask | (1u64 << k)) >> j) & 1u64 == 1u64) <==> (((old_mask >> j) & 1u64 == 1u64) || j == k))) by (bit_vector);
            }
        }
        i += 1;
    }
    proof {
        lemma_lane_mask_agrees_with_scan(s@, b, mask);
        lemma_match_offsets_shape(s@, b);
    }
    let mut buf = LocationMap::<64>::new();
    while mask != 0
        invariant
            buf.wf(),
            buf@ + low_bits(mask, 64) == match_offsets(s@, b),
            match_offsets(s@, b).len() <= 64,
        decreases low_bits(mask, 64).len(),
    {
        let t = mask.trailing_zeros();
        let ghost old_mask = mask;
        let ghost old_buf = buf@;
        let ghost cleared = mask & vstd::prelude::sub(mask, 1);
        proof {
            lemma_clear_lowest_bit(mask, t as u64);
            lemma_low_bits_take_lowest(mask, t as u64, 64);
        }
        assert(buf@.len() < 64);
        buf.push(t as usize);
        mask = mask & (mask - 1);
        assert(mask == cleared);
        assert(buf@ + low_bits(mask, 64) =~= old_buf + low_bits(old_mask, 64));
    }
    proof {
        lemma_zero_has_no_bits();
        lemma_low_bits_zero(64);
        assert(buf@ =~= buf@ + low_bits(0u64, 64));
    }
    buf
}

proof fn lemma_zero_has_no_bits()
    ensures
        forall|j: u64| j < 64 ==> !#[trigger] bit_set(0u64, j),
{
    assert forall|j: u64| j < 64 implies !#[trigger] bit_set(0u64, j) by {
        assert(j < 64 ==> (0u64 >> j) & 1u64 == 0u64) by (bit_vector);
    }
}

proof fn lemma_low_bits_zero(k: nat)
    requires
        k <= 64,
        forall|j: u64| j < 64 ==> !#[trigger] bit_set(0u64, j),
    ensures
        low_bits(0u64, k) == Seq::<usize>::empty(),
    decreases k,
{
    if k > 0 {
        lemma_low_bits_zero((k - 1) as nat);
        assert(!bit_set(0u64, (k - 1) as u64));
    }
}

} // verus!
