//! The sequential meaning of segmentation: which newlines end a record, and
//! which records a buffer holds.
use vstd::prelude::*;

verus! {

pub const NEWLINE: u8 = 0x0A;

pub const QUOTE: u8 = 0x22;

pub const BACKSLASH: u8 = 0x5C;

/// The byte at `j` is a double quote whose preceding byte is not a
/// backslash. Only the one byte before is looked at.
pub open spec fn is_unescaped_quote(data: Seq<u8>, j: int) -> bool {
    data[j] == QUOTE && !(j > 0 && data[j - 1] == BACKSLASH)
}

/// How many unescaped quotes the first `i` bytes hold.
pub open spec fn quotes_before(data: Seq<u8>, i: int) -> nat
    decreases i,
{
    if i <= 0 {
        0
    } else {
        quotes_before(data, i - 1) + if is_unescaped_quote(data, i - 1) {
            1nat
        } else {
            0nat
        }
    }
}

/// The byte at `j` is a newline outside any quoted string: it ends a record.
pub open spec fn is_delimiter(data: Seq<u8>, j: int) -> bool {
    data[j] == NEWLINE && quotes_before(data, j) % 2 == 0
}

/// The records that a scan finds from position `i` on, when the record being
/// read began at `start`: each runs from its start through the next
/// delimiter, and bytes after the last delimiter form no record.
pub open spec fn segments(data: Seq<u8>, start: int, i: int) -> Seq<Seq<u8>>
    decreases data.len() - i,
{
    if i >= data.len() {
        Seq::empty()
    } else if i >= 0 && is_delimiter(data, i) {
        seq![data.subrange(start, i + 1)] + segments(data, i + 1, i + 1)
    } else {
        segments(data, start, i + 1)
    }
}

/// The records of a whole buffer, in order.
pub open spec fn records(data: Seq<u8>) -> Seq<Seq<u8>> {
    segments(data, 0, 0)
}

/// A line that ends in its only newline and holds an even number of
/// unescaped quotes.
pub open spec fn is_plain_line(l: Seq<u8>) -> bool {
    &&& l.len() > 0
    &&& l.last() == NEWLINE
    &&& forall|i: int| 0 <= i < l.len() - 1 ==> l[i] != NEWLINE
    &&& quotes_before(l, l.len() as int) % 2 == 0
}

pub proof fn lemma_quotes_before_bound(data: Seq<u8>, i: int)
    requires
        0 <= i,
    ensures
        quotes_before(data, i) <= i,
    decreases i,
{
    if i > 0 {
        lemma_quotes_before_bound(data, i - 1);
    }
}

/// The count over a prefix reads only the prefix.
pub proof fn lemma_quotes_before_prefix(a: Seq<u8>, b: Seq<u8>, i: int)
    requires
        0 <= i <= a.len(),
    ensures
        quotes_before(a + b, i) == quotes_before(a, i),
    decreases i,
{
    if i > 0 {
        lemma_quotes_before_prefix(a, b, i - 1);
        if i > 1 {
            assert((a + b)[i - 2] == a[i - 2]);
        }
        assert((a + b)[i - 1] == a[i - 1]);
    }
}

/// After a prefix that does not end in a backslash, quotes are counted in
/// the rest as if it stood alone.
pub proof fn lemma_quotes_before_concat(a: Seq<u8>, b: Seq<u8>, k: int)
    requires
        0 <= k <= b.len(),
        a.len() == 0 || a.last() != BACKSLASH,
    ensures
        quotes_before(a + b, a.len() + k) == quotes_before(a, a.len() as int) + quotes_before(b, k),
    decreases k,
{
    if k == 0 {
        lemma_quotes_before_prefix(a, b, a.len() as int);
    } else {
        lemma_quotes_before_concat(a, b, k - 1);
        let j = a.len() + k - 1;
        assert((a + b)[j] == b[k - 1]);
        if k > 1 {
            assert((a + b)[j - 1] == b[k - 2]);
        } else if a.len() > 0 {
            assert((a + b)[j - 1] == a.last());
        }
    }
}

/// A stretch without delimiters adds no record.
pub proof fn lemma_segments_skip(data: Seq<u8>, start: int, i: int, j: int)
    requires
        0 <= i <= j <= data.len(),
        forall|k: int| i <= k < j ==> !#[trigger] is_delimiter(data, k),
    ensures
        segments(data, start, i) == segments(data, start, j),
    decreases j - i,
{
    if i < j {
        lemma_segments_skip(data, start, i + 1, j);
    }
}

proof fn lemma_segments_of_lines(pre: Seq<u8>, lines: Seq<Seq<u8>>)
    requires
        pre.len() == 0 || pre.last() != BACKSLASH,
        quotes_before(pre, pre.len() as int) % 2 == 0,
        forall|i: int| 0 <= i < lines.len() ==> is_plain_line(#[trigger] lines[i]),
    ensures
        segments(pre + lines.flatten(), pre.len() as int, pre.len() as int) == lines,
    decreases lines.len(),
{
    let p = pre.len() as int;
    if lines.len() == 0 {
        assert(pre + lines.flatten() =~= pre);
        assert(segments(pre, p, p) =~= lines);
    } else {
        let l = lines[0];
        let rest = lines.drop_first();
        let tail = l + rest.flatten();
        let data = pre + tail;
        let next = pre + l;
        assert(data =~= next + rest.flatten());
        assert(is_plain_line(l));
        let e = p + l.len() - 1;
        assert forall|k: int| p <= k < e implies !#[trigger] is_delimiter(data, k) by {
            assert(data[k] == l[k - p]);
        }
        lemma_segments_skip(data, p, p, e);
        lemma_quotes_before_concat(pre, tail, l.len() - 1);
        lemma_quotes_before_prefix(l, rest.flatten(), l.len() - 1);
        assert(data[e] == l.last());
        assert(!is_unescaped_quote(l, l.len() - 1));
        assert(is_delimiter(data, e));
        assert(data.subrange(p, e + 1) =~= l);
        lemma_quotes_before_concat(pre, l, l.len() as int);
        assert forall|i: int| 0 <= i < rest.len() implies is_plain_line(#[trigger] rest[i]) by {
            assert(rest[i] == lines[i + 1]);
        }
        lemma_segments_of_lines(next, rest);
        assert(segments(data, p, p) =~= seq![l] + rest);
        assert(seq![l] + rest =~= lines);
    }
}

/// Lines that each end in their only newline and hold balanced quotes come
/// back from segmentation one record per line, newline included, and the
/// records joined give back the buffer.
pub proof fn lemma_round_trip(lines: Seq<Seq<u8>>)
    requires
        forall|i: int| 0 <= i < lines.len() ==> is_plain_line(#[trigger] lines[i]),
    ensures
        records(lines.flatten()) == lines,
        records(lines.flatten()).flatten() == lines.flatten(),
{
    let empty = Seq::<u8>::empty();
    lemma_segments_of_lines(empty, lines);
    assert(empty + lines.flatten() =~= lines.flatten());
}

/// The records `recs` with the byte `c` put in front of the first one.
pub open spec fn with_first_prefixed(recs: Seq<Seq<u8>>, c: u8) -> Seq<Seq<u8>> {
    if recs.len() == 0 {
        recs
    } else {
        recs.update(0, seq![c] + recs[0])
    }
}

proof fn lemma_shift_delimiters(c: u8, data: Seq<u8>, i: int)
    requires
        c != NEWLINE,
        c != QUOTE,
        c != BACKSLASH,
        0 <= i < data.len(),
    ensures
        is_delimiter(seq![c] + data, i + 1) == is_delimiter(data, i),
{
    let d = seq![c] + data;
    lemma_quotes_before_concat(seq![c], data, i);
    assert(seq![c].len() == 1);
    let one = seq![c];
    assert(one[0] == c);
    assert(quotes_before(one, 0) == 0);
    assert(!is_unescaped_quote(one, 0));
    assert(quotes_before(one, 1) == 0);
    assert(d[i + 1] == data[i]);
}

proof fn lemma_shift_segments(c: u8, data: Seq<u8>, s: int, i: int)
    requires
        c != NEWLINE,
        c != QUOTE,
        c != BACKSLASH,
        0 <= s <= i <= data.len(),
    ensures
        segments(seq![c] + data, s + 1, i + 1) == segments(data, s, i),
    decreases data.len() - i,
{
    let d = seq![c] + data;
    if i < data.len() {
        lemma_shift_delimiters(c, data, i);
        if is_delimiter(data, i) {
            lemma_shift_segments(c, data, i + 1, i + 1);
            assert(d.subrange(s + 1, i + 2) =~= data.subrange(s, i + 1));
        } else {
            lemma_shift_segments(c, data, s, i + 1);
        }
    }
}

proof fn lemma_shift_first_segment(c: u8, data: Seq<u8>, i: int)
    requires
        c != NEWLINE,
        c != QUOTE,
        c != BACKSLASH,
        0 <= i <= data.len(),
    ensures
        segments(seq![c] + data, 0, i + 1) == with_first_prefixed(segments(data, 0, i), c),
    decreases data.len() - i,
{
    let d = seq![c] + data;
    if i < data.len() {
        lemma_shift_delimiters(c, data, i);
        if is_delimiter(data, i) {
            lemma_shift_segments(c, data, i + 1, i + 1);
            assert(d.subrange(0, i + 2) =~= seq![c] + data.subrange(0, i + 1));
            assert(segments(d, 0, i + 1) =~= with_first_prefixed(segments(data, 0, i), c));
        } else {
            lemma_shift_first_segment(c, data, i + 1);
        }
    }
}

/// A byte that is neither a newline, a quote nor a backslash, put in front
/// of a buffer, shifts every delimiter by one place and changes no record
/// but the first, which gains that byte. Where a window boundary falls
/// therefore plays no part in what is found.
pub proof fn lemma_shift_by_one(c: u8, data: Seq<u8>)
    requires
        c != NEWLINE,
        c != QUOTE,
        c != BACKSLASH,
    ensures
        records(seq![c] + data) == with_first_prefixed(records(data), c),
{
    let d = seq![c] + data;
    assert(d[0] == c);
    lemma_shift_first_segment(c, data, 0);
}

/// An empty buffer holds no record.
pub proof fn lemma_empty_has_no_records()
    ensures
        records(Seq::<u8>::empty()) == Seq::<Seq<u8>>::empty(),
{
}

} // verus!
