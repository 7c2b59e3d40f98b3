//! The record model: lines of bytes, each ended by a terminator, each made of a prefix
//! that names a bucket and a suffix that is stored in it.

use vstd::prelude::*;
use vstd::slice::slice_subrange;

verus! {

/// The byte that ends a record.
pub const TERMINATOR: u8 = 0x0a;

/// Position of the first terminator at or after `from`, or `buf.len()` when none is left.
pub open spec fn line_end(buf: Seq<u8>, from: int) -> int
    decreases buf.len() - from,
{
    if from >= buf.len() {
        buf.len() as int
    } else if buf[from] == TERMINATOR {
        from
    } else {
        line_end(buf, from + 1)
    }
}

/// A record begins at the start of the buffer and right after every terminator.
pub open spec fn is_record_start(buf: Seq<u8>, pos: int) -> bool {
    0 <= pos < buf.len() && (pos == 0 || buf[pos - 1] == TERMINATOR)
}

/// The record starts that lie below `bound`, in ascending order.
pub open spec fn record_starts_below(buf: Seq<u8>, bound: int) -> Seq<int>
    decreases bound,
{
    if bound <= 0 {
        Seq::empty()
    } else {
        let earlier = record_starts_below(buf, bound - 1);
        if is_record_start(buf, bound - 1) {
            earlier.push(bound - 1)
        } else {
            earlier
        }
    }
}

/// Where the records of `buf` start, in ascending order.
pub open spec fn record_starts(buf: Seq<u8>) -> Seq<int> {
    record_starts_below(buf, buf.len() as int)
}

/// The bytes of the record that starts at `start`, without its terminator.
pub open spec fn record_at(buf: Seq<u8>, start: int) -> Seq<u8> {
    buf.subrange(start, line_end(buf, start))
}

/// The records of `buf`, in the order in which they stand.
pub open spec fn records(buf: Seq<u8>) -> Seq<Seq<u8>> {
    Seq::new(record_starts(buf).len(), |i: int| record_at(buf, record_starts(buf)[i]))
}

/// How a record is laid out: a prefix of fixed length that names the bucket, then a
/// suffix of fixed length that is stored in the bucket.
#[derive(Clone, Copy, Debug)]
pub struct RecordLayout {
    prefix_len: usize,
    suffix_len: usize,
}

impl RecordLayout {
    /// The prefix has a directory part and a file part, and a whole record with its
    /// terminator can be counted in a `usize`.
    #[verifier::type_invariant]
    pub closed spec fn wf(self) -> bool {
        2 <= self.prefix_len && self.prefix_len + self.suffix_len < usize::MAX
    }

    /// Length of the prefix.
    pub closed spec fn prefix(self) -> int {
        self.prefix_len as int
    }

    /// Length of the suffix.
    pub closed spec fn suffix(self) -> int {
        self.suffix_len as int
    }

    /// Length of a record without its terminator.
    pub open spec fn width(self) -> int {
        self.prefix() + self.suffix()
    }

    /// A well-formed layout has a prefix of at least two bytes and a bounded width.
    pub proof fn lemma_wf(self)
        requires
            self.wf(),
        ensures
            2 <= self.prefix(),
            0 <= self.suffix(),
            self.width() < usize::MAX,
    {
    }

    /// A layout with the given lengths, where they are admissible.
    pub fn new(prefix_len: usize, suffix_len: usize) -> (layout: Option<RecordLayout>)
        ensures
            layout is Some <==> 2 <= prefix_len && prefix_len + suffix_len < usize::MAX,
            layout matches Some(l) ==> l.wf() && l.prefix() == prefix_len && l.suffix()
                == suffix_len,
    {
        if prefix_len < 2 || suffix_len >= usize::MAX - prefix_len {
            None
        } else {
            Some(RecordLayout { prefix_len, suffix_len })
        }
    }

    /// The layout of a SHA-1 digest in hexadecimal: four characters of prefix, thirty-six
    /// of suffix.
    pub fn hex_digest() -> (layout: RecordLayout)
        ensures
            layout.wf(),
            layout.prefix() == 4,
            layout.suffix() == 36,
    {
        RecordLayout { prefix_len: 4, suffix_len: 36 }
    }

    /// Length of the prefix.
    pub fn prefix_len(&self) -> (n: usize)
        ensures
            n == self.prefix(),
            self.wf(),
    {
        proof {
            use_type_invariant(self);
        }
        self.prefix_len
    }

    /// Length of the suffix.
    pub fn suffix_len(&self) -> (n: usize)
        ensures
            n == self.suffix(),
            self.wf(),
    {
        proof {
            use_type_invariant(self);
        }
        self.suffix_len
    }

    /// Length of a record without its terminator.
    pub fn record_len(&self) -> (n: usize)
        ensures
            n == self.width(),
            self.wf(),
    {
        proof {
            use_type_invariant(self);
        }
        self.prefix_len + self.suffix_len
    }
}

/// The prefix of the record that starts at `start`.
pub open spec fn prefix_at(buf: Seq<u8>, layout: RecordLayout, start: int) -> Seq<u8> {
    buf.subrange(start, start + layout.prefix())
}

/// The suffix of the record that starts at `start`.
pub open spec fn suffix_at(buf: Seq<u8>, layout: RecordLayout, start: int) -> Seq<u8> {
    buf.subrange(start + layout.prefix(), start + layout.width())
}

/// The record that starts at `start` has exactly the layout's width.
pub open spec fn well_formed_at(buf: Seq<u8>, layout: RecordLayout, start: int) -> bool {
    line_end(buf, start) == start + layout.width()
}

/// `line_end` stays inside the buffer, skips only bytes that are no terminator, and stops
/// on a terminator unless it reaches the end.
pub proof fn lemma_line_end(buf: Seq<u8>, from: int)
    requires
        0 <= from <= buf.len(),
    ensures
        from <= line_end(buf, from) <= buf.len(),
        forall|k: int| from <= k < line_end(buf, from) ==> buf[k] != TERMINATOR,
        line_end(buf, from) < buf.len() ==> buf[line_end(buf, from)] == TERMINATOR,
    decreases buf.len() - from,
{
    if from < buf.len() && buf[from] != TERMINATOR {
        lemma_line_end(buf, from + 1);
    }
}

/// A position that is reached over bytes that are no terminator, and that is the end of
/// the buffer or holds a terminator, is the line's end.
pub proof fn lemma_line_end_is(buf: Seq<u8>, from: int, end: int)
    requires
        0 <= from <= end <= buf.len(),
        forall|k: int| from <= k < end ==> buf[k] != TERMINATOR,
        end < buf.len() ==> buf[end] == TERMINATOR,
    ensures
        line_end(buf, from) == end,
    decreases end - from,
{
    if from < end {
        lemma_line_end_is(buf, from + 1, end);
    }
}

/// Every entry of `record_starts_below` is a record start below the bound, and the
/// entries ascend.
pub proof fn lemma_starts_below(buf: Seq<u8>, bound: int)
    ensures
        forall|i: int|
            0 <= i < record_starts_below(buf, bound).len() ==> is_record_start(
                buf,
                #[trigger] record_starts_below(buf, bound)[i],
            ) && record_starts_below(buf, bound)[i] < bound,
        forall|i: int, j: int|
            0 <= i < j < record_starts_below(buf, bound).len() ==> record_starts_below(
                buf,
                bound,
            )[i] < record_starts_below(buf, bound)[j],
        record_starts_below(buf, bound).len() <= if bound < 0 {
            0
        } else {
            bound
        },
    decreases bound,
{
    if bound > 0 {
        lemma_starts_below(buf, bound - 1);
    }
}

/// The starts below a smaller bound are the first of the starts below a larger one.
pub proof fn lemma_starts_below_grows(buf: Seq<u8>, small: int, large: int)
    requires
        small <= large,
    ensures
        record_starts_below(buf, small).len() <= record_starts_below(buf, large).len(),
        record_starts_below(buf, small) == record_starts_below(buf, large).take(
            record_starts_below(buf, small).len() as int,
        ),
    decreases large - small,
{
    if small < large {
        lemma_starts_below_grows(buf, small, large - 1);
        if large > 0 {
            let mid = record_starts_below(buf, large - 1);
            let low = record_starts_below(buf, small);
            assert(mid.push(large - 1).take(low.len() as int) =~= mid.take(low.len() as int));
        }
    } else {
        assert(record_starts_below(buf, small) =~= record_starts_below(buf, large).take(
            record_starts_below(buf, small).len() as int,
        ));
    }
}

/// Where no record starts between two bounds, both bounds have the same starts below.
pub proof fn lemma_starts_below_skips(buf: Seq<u8>, small: int, large: int)
    requires
        small <= large,
        forall|p: int| small <= p < large ==> !is_record_start(buf, p),
    ensures
        record_starts_below(buf, large) == record_starts_below(buf, small),
    decreases large - small,
{
    if small < large {
        lemma_starts_below_skips(buf, small, large - 1);
    }
}

/// A record start is listed right after the starts that lie below it.
pub proof fn lemma_start_is_listed(buf: Seq<u8>, pos: int)
    requires
        is_record_start(buf, pos),
    ensures
        record_starts_below(buf, pos).len() < record_starts(buf).len(),
        record_starts(buf)[record_starts_below(buf, pos).len() as int] == pos,
        record_starts(buf).take(record_starts_below(buf, pos).len() as int)
            == record_starts_below(buf, pos),
{
    lemma_starts_below_grows(buf, pos + 1, buf.len() as int);
    lemma_starts_below_grows(buf, pos, buf.len() as int);
    let below = record_starts_below(buf, pos);
    assert(record_starts_below(buf, pos + 1) == below.push(pos));
    assert(record_starts_below(buf, pos + 1)[below.len() as int] == pos);
}

/// Where the record after the one at `start` begins: past the terminator that ends the
/// line, or at the end of the buffer where the line reaches it.
pub open spec fn next_start(buf: Seq<u8>, start: int) -> int {
    if line_end(buf, start) < buf.len() {
        line_end(buf, start) + 1
    } else {
        buf.len() as int
    }
}

/// Between a record start and the next lies no other: the starts below the next are
/// those below this one, and this one.
pub proof fn lemma_next_start(buf: Seq<u8>, start: int)
    requires
        is_record_start(buf, start),
    ensures
        start < next_start(buf, start) <= buf.len(),
        next_start(buf, start) < buf.len() ==> is_record_start(buf, next_start(buf, start)),
        record_starts_below(buf, next_start(buf, start)) == record_starts_below(buf, start).push(
            start,
        ),
{
    lemma_line_end(buf, start);
    let next = next_start(buf, start);
    assert forall|p: int| start + 1 <= p < next implies !is_record_start(buf, p) by {}
    lemma_starts_below_skips(buf, start + 1, next);
    assert(record_starts_below(buf, start + 1) == record_starts_below(buf, start).push(start));
}

/// A search in a stretch of the data finds what a search in the data finds: a terminator
/// found in the stretch is the first one in the data too, and a stretch that holds none
/// from `from` on shows that the data holds none before the stretch ends.
pub proof fn lemma_line_end_in_subrange(data: Seq<u8>, lo: int, hi: int, from: int)
    requires
        0 <= lo <= hi <= data.len(),
        0 <= from <= hi - lo,
    ensures
        line_end(data.subrange(lo, hi), from) < hi - lo ==> line_end(data, lo + from) == lo
            + line_end(data.subrange(lo, hi), from),
        line_end(data.subrange(lo, hi), from) >= hi - lo ==> line_end(data, lo + from) >= hi,
{
    let part = data.subrange(lo, hi);
    let stop = line_end(part, from);
    lemma_line_end(part, from);
    lemma_line_end(data, lo + from);
    if stop < hi - lo {
        assert forall|k: int| lo + from <= k < lo + stop implies data[k] != TERMINATOR by {
            assert(part[k - lo] != TERMINATOR);
        }
        assert(part[stop] == data[lo + stop]);
        lemma_line_end_is(data, lo + from, lo + stop);
    } else {
        let found = line_end(data, lo + from);
        if found < hi {
            assert(part[found - lo] == data[found]);
        }
    }
}

/// Where the line that holds position `pos` begins: after the last terminator before
/// `pos`, or at the start of the buffer.
pub open spec fn line_start(buf: Seq<u8>, pos: int) -> int
    decreases pos,
{
    if pos <= 0 {
        0
    } else if buf[pos - 1] == TERMINATOR {
        pos
    } else {
        line_start(buf, pos - 1)
    }
}

/// Every position of the buffer lies in the record that starts at its line's start, and
/// that record ends where the line ends that is followed from the position.
pub proof fn lemma_line_start(buf: Seq<u8>, pos: int)
    requires
        0 <= pos < buf.len(),
    ensures
        is_record_start(buf, line_start(buf, pos)),
        line_start(buf, pos) <= pos,
        line_end(buf, line_start(buf, pos)) == line_end(buf, pos),
    decreases pos,
{
    lemma_line_end(buf, pos);
    if pos > 0 && buf[pos - 1] != TERMINATOR {
        lemma_line_start(buf, pos - 1);
        lemma_line_end(buf, pos - 1);
        lemma_line_end_is(buf, pos - 1, line_end(buf, pos));
    }
}

/// A position at which the data can be cut in two without cutting a record: either end
/// of the data, or a position just after a terminator.
pub open spec fn is_boundary(data: Seq<u8>, cut: int) -> bool {
    0 <= cut <= data.len() && (cut == 0 || cut == data.len() || data[cut - 1] == TERMINATOR)
}

/// The part of the data before a position has the record starts that the data has below
/// that position.
proof fn lemma_starts_of_head(data: Seq<u8>, cut: int, bound: int)
    requires
        0 <= bound <= cut <= data.len(),
    ensures
        record_starts_below(data.subrange(0, cut), bound) == record_starts_below(data, bound),
    decreases bound,
{
    if bound > 0 {
        lemma_starts_of_head(data, cut, bound - 1);
        let head = data.subrange(0, cut);
        if bound - 1 > 0 {
            assert(head[bound - 2] == data[bound - 2]);
        }
    }
}

/// The part of the data after a boundary has the record starts that the data has from
/// the boundary on, counted from the boundary.
proof fn lemma_starts_of_tail(data: Seq<u8>, cut: int, bound: int)
    requires
        is_boundary(data, cut),
        0 <= bound <= data.len() - cut,
    ensures
        record_starts_below(data, cut + bound) == record_starts_below(data, cut)
            + record_starts_below(data.subrange(cut, data.len() as int), bound).map_values(
            |start: int| start + cut,
        ),
    decreases bound,
{
    let tail = data.subrange(cut, data.len() as int);
    let shift = |start: int| start + cut;
    if bound > 0 {
        lemma_starts_of_tail(data, cut, bound - 1);
        let before = record_starts_below(tail, bound - 1);
        if bound - 1 > 0 {
            assert(tail[bound - 2] == data[cut + bound - 2]);
        }
        assert(is_record_start(tail, bound - 1) == is_record_start(data, cut + bound - 1));
        if is_record_start(tail, bound - 1) {
            assert(before.push(bound - 1).map_values(shift) =~= before.map_values(shift).push(
                cut + bound - 1,
            ));
            assert(record_starts_below(data, cut) + before.map_values(shift).push(
                cut + bound - 1,
            ) =~= (record_starts_below(data, cut) + before.map_values(shift)).push(
                cut + bound - 1,
            ));
        }
    } else {
        assert(record_starts_below(tail, 0).map_values(shift) =~= Seq::<int>::empty());
        assert(record_starts_below(data, cut) + Seq::<int>::empty() =~= record_starts_below(
            data,
            cut,
        ));
    }
}

/// Cutting the data at a boundary cuts no record: the records of the data are those of
/// the part before the boundary, followed by those of the part after it.
pub proof fn lemma_records_split(data: Seq<u8>, cut: int)
    requires
        is_boundary(data, cut),
    ensures
        records(data) == records(data.subrange(0, cut)) + records(
            data.subrange(cut, data.len() as int),
        ),
{
    let len = data.len() as int;
    let head = data.subrange(0, cut);
    let tail = data.subrange(cut, len);
    let shift = |start: int| start + cut;
    lemma_starts_of_head(data, cut, cut);
    lemma_starts_of_tail(data, cut, len - cut);
    let head_starts = record_starts(head);
    let tail_starts = record_starts(tail);
    assert(record_starts(data) == head_starts + tail_starts.map_values(shift));
    lemma_starts_below(head, cut);
    lemma_starts_below(tail, len - cut);
    let joined = records(head) + records(tail);
    assert(records(data).len() == joined.len());
    assert forall|i: int| 0 <= i < records(data).len() implies records(data)[i] == joined[i] by {
        if i < head_starts.len() {
            let start = head_starts[i];
            assert(record_starts(data)[i] == start);
            lemma_line_end_in_subrange(data, 0, cut, start);
            lemma_line_end(data, start);
            lemma_line_end(head, start);
            if cut < len {
                if line_end(data, start) >= cut {
                    assert(data[cut - 1] == TERMINATOR);
                }
            }
            assert(line_end(head, start) == line_end(data, start));
            assert(record_at(head, start) =~= record_at(data, start));
        } else {
            let start = tail_starts[i - head_starts.len()];
            assert(record_starts(data)[i] == start + cut);
            lemma_line_end_in_subrange(data, cut, len, start);
            lemma_line_end(data, cut + start);
            lemma_line_end(tail, start);
            assert(line_end(data, cut + start) == cut + line_end(tail, start));
            assert(record_at(tail, start) =~= record_at(data, cut + start));
        }
    }
    assert(records(data) =~= joined);
}

/// Whether two slices hold the same bytes.
pub fn equal_bytes(first: &[u8], second: &[u8]) -> (same: bool)
    ensures
        same == (first@ == second@),
{
    if first.len() != second.len() {
        return false;
    }
    let len = first.len();
    let mut k: usize = 0;
    while k < len
        invariant
            k <= len,
            len == first@.len(),
            len == second@.len(),
            forall|j: int| 0 <= j < k ==> first@[j] == second@[j],
        decreases len - k,
    {
        if first[k] != second[k] {
            return false;
        }
        k += 1;
    }
    proof {
        assert(first@ =~= second@);
    }
    true
}

/// Finds the end of the line that holds position `from`: the first terminator at or
/// after it, or the end of the buffer.
pub fn find_line_end(buf: &[u8], from: usize) -> (end: usize)
    ensures
        end == line_end(buf@, from as int),
        from <= buf@.len() ==> from <= end <= buf@.len(),
{
    let total = buf.len();
    if from >= total {
        return total;
    }
    let mut end: usize = from;
    while end < total && buf[end] != TERMINATOR
        invariant
            from <= end <= total,
            total == buf@.len(),
            forall|k: int| from <= k < end ==> buf@[k] != TERMINATOR,
        decreases total - end,
    {
        end += 1;
    }
    proof {
        lemma_line_end_is(buf@, from as int, end as int);
    }
    end
}

/// The directory part of a prefix: its first half.
pub open spec fn directory_part(prefix: Seq<u8>) -> Seq<u8> {
    prefix.subrange(0, prefix.len() as int / 2)
}

/// The file part of a prefix: what follows the directory part.
pub open spec fn file_part(prefix: Seq<u8>) -> Seq<u8> {
    prefix.subrange(prefix.len() as int / 2, prefix.len() as int)
}

/// Splits a prefix in the two levels by which its bucket is found: the directory, then
/// the file in it.
pub fn bucket_path<'a>(prefix: &'a [u8]) -> (parts: (&'a [u8], &'a [u8]))
    ensures
        parts.0@ == directory_part(prefix@),
        parts.1@ == file_part(prefix@),
        parts.0@ + parts.1@ == prefix@,
{
    let half = prefix.len() / 2;
    let directory = slice_subrange(prefix, 0, half);
    let file = slice_subrange(prefix, half, prefix.len());
    proof {
        assert(directory@ + file@ =~= prefix@);
    }
    (directory, file)
}

} // verus!
