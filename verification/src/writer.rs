//! The bucket writer: it walks the records of one block and says, for each, which bucket
//! receives its suffix and whether that bucket has to be opened first.

use crate::error::InputError;
use crate::record::{
    equal_bytes, find_line_end, is_record_start, lemma_line_end, lemma_next_start,
    lemma_start_is_listed, lemma_starts_below, lemma_starts_below_grows, line_end, prefix_at,
    record_starts, record_starts_below, records, suffix_at, well_formed_at, RecordLayout,
};
use vstd::prelude::*;
use vstd::slice::slice_subrange;

verus! {

/// One write: the suffix of the record at `start` goes to the bucket named by that
/// record's prefix. Where `opens` holds, the bucket that was open before is closed and
/// this one is opened first.
#[derive(Clone, Copy, Debug, PartialEq, Eq, Structural)]
pub struct Append {
    pub start: usize,
    pub opens: bool,
}

/// The write for the `i`-th record of `buf`: a bucket is opened for the first record and
/// whenever the prefix differs from that of the record before.
pub open spec fn expected_append(buf: Seq<u8>, layout: RecordLayout, i: int) -> Append {
    let starts = record_starts(buf);
    Append {
        start: starts[i] as usize,
        opens: i == 0 || prefix_at(buf, layout, starts[i]) != prefix_at(
            buf,
            layout,
            starts[i - 1],
        ),
    }
}

/// The writes for all records of `buf`, in order.
pub open spec fn expected_appends(buf: Seq<u8>, layout: RecordLayout) -> Seq<Append> {
    Seq::new(record_starts(buf).len(), |i: int| expected_append(buf, layout, i))
}

/// Every record of `buf` has the layout's width.
pub open spec fn all_well_formed(buf: Seq<u8>, layout: RecordLayout) -> bool {
    forall|i: int|
        0 <= i < record_starts(buf).len() ==> well_formed_at(
            buf,
            layout,
            #[trigger] record_starts(buf)[i],
        )
}

/// The error for a record at `start` that has not the layout's width.
pub open spec fn fault_at(buf: Seq<u8>, layout: RecordLayout, start: int) -> InputError {
    if line_end(buf, start) - start < layout.width() {
        InputError::UndersizedRecord { offset: start as usize }
    } else {
        InputError::MalformedRecord { offset: start as usize }
    }
}

/// `error` reports the first record of `buf` that has not the layout's width.
pub open spec fn is_first_fault(buf: Seq<u8>, layout: RecordLayout, error: InputError) -> bool {
    exists|i: int|
        0 <= i < record_starts(buf).len() && !well_formed_at(
            buf,
            layout,
            #[trigger] record_starts(buf)[i],
        ) && error == fault_at(buf, layout, record_starts(buf)[i]) && forall|j: int|
            0 <= j < i ==> well_formed_at(buf, layout, #[trigger] record_starts(buf)[j])
}

/// The prefix of a record, given as its bytes.
pub open spec fn record_prefix(record: Seq<u8>, layout: RecordLayout) -> Seq<u8> {
    record.subrange(0, layout.prefix())
}

/// The suffix of a record, given as its bytes.
pub open spec fn record_suffix(record: Seq<u8>, layout: RecordLayout) -> Seq<u8> {
    record.subrange(layout.prefix(), record.len() as int)
}

/// What belongs in `bucket`: the suffixes of those records whose prefix is `bucket`, in
/// the order of the records.
pub open spec fn filed_under(records: Seq<Seq<u8>>, layout: RecordLayout, bucket: Seq<u8>) -> Seq<
    Seq<u8>,
>
    decreases records.len(),
{
    if records.len() == 0 {
        Seq::empty()
    } else {
        let earlier = filed_under(records.drop_last(), layout, bucket);
        if record_prefix(records.last(), layout) == bucket {
            earlier.push(record_suffix(records.last(), layout))
        } else {
            earlier
        }
    }
}

/// The bucket that is open while the `i`-th write is carried out: the one named by the
/// prefix of the last record, at or before the `i`-th, whose write opens a bucket.
pub open spec fn open_bucket(
    buf: Seq<u8>,
    layout: RecordLayout,
    appends: Seq<Append>,
    i: int,
) -> Option<Seq<u8>>
    decreases i + 1,
{
    if i < 0 || i >= appends.len() {
        None
    } else if appends[i].opens {
        Some(prefix_at(buf, layout, appends[i].start as int))
    } else {
        open_bucket(buf, layout, appends, i - 1)
    }
}

/// What `bucket` receives from the first `n` writes: the suffix of every record that is
/// written while `bucket` is the open one.
pub open spec fn bucket_lines(
    buf: Seq<u8>,
    layout: RecordLayout,
    appends: Seq<Append>,
    bucket: Seq<u8>,
    n: int,
) -> Seq<Seq<u8>>
    decreases n,
{
    if n <= 0 {
        Seq::empty()
    } else {
        let earlier = bucket_lines(buf, layout, appends, bucket, n - 1);
        if open_bucket(buf, layout, appends, n - 1) == Some(bucket) {
            earlier.push(suffix_at(buf, layout, appends[n - 1].start as int))
        } else {
            earlier
        }
    }
}

/// What `bucket` receives from all writes of a block.
pub open spec fn block_bucket(buf: Seq<u8>, layout: RecordLayout, bucket: Seq<u8>) -> Seq<
    Seq<u8>,
> {
    bucket_lines(
        buf,
        layout,
        expected_appends(buf, layout),
        bucket,
        expected_appends(buf, layout).len() as int,
    )
}

/// While the suffix of a record is written, the open bucket is the one that the record's
/// own prefix names.
pub proof fn lemma_own_bucket_is_open(buf: Seq<u8>, layout: RecordLayout, i: int)
    requires
        buf.len() <= usize::MAX,
        0 <= i < record_starts(buf).len(),
    ensures
        open_bucket(buf, layout, expected_appends(buf, layout), i) == Some(
            prefix_at(buf, layout, record_starts(buf)[i]),
        ),
    decreases i,
{
    lemma_starts_below(buf, buf.len() as int);
    if !expected_appends(buf, layout)[i].opens {
        lemma_own_bucket_is_open(buf, layout, i - 1);
    }
}

/// A bucket receives the suffixes of the records that have its prefix, in their order,
/// and no other line: no suffix goes to a bucket that its record's prefix does not name.
pub proof fn lemma_bucket_receives_its_records(
    buf: Seq<u8>,
    layout: RecordLayout,
    bucket: Seq<u8>,
    n: int,
)
    requires
        buf.len() <= usize::MAX,
        layout.wf(),
        all_well_formed(buf, layout),
        0 <= n <= record_starts(buf).len(),
    ensures
        bucket_lines(buf, layout, expected_appends(buf, layout), bucket, n) == filed_under(
            records(buf).take(n),
            layout,
            bucket,
        ),
    decreases n,
{
    if n > 0 {
        lemma_bucket_receives_its_records(buf, layout, bucket, n - 1);
        lemma_own_bucket_is_open(buf, layout, n - 1);
        lemma_starts_below(buf, buf.len() as int);
        layout.lemma_wf();
        let start = record_starts(buf)[n - 1];
        let record = records(buf)[n - 1];
        lemma_line_end(buf, start);
        assert(well_formed_at(buf, layout, start));
        assert(record == buf.subrange(start, start + layout.width()));
        assert(record_prefix(record, layout) =~= prefix_at(buf, layout, start));
        assert(record_suffix(record, layout) =~= suffix_at(buf, layout, start));
        assert(records(buf).take(n).drop_last() =~= records(buf).take(n - 1));
        assert(records(buf).take(n).last() == record);
    }
}

/// `first` comes before `second`, or is equal to it, in the order of their bytes: they
/// agree up to a place at which `first` ends or holds the smaller byte.
pub open spec fn precedes(first: Seq<u8>, second: Seq<u8>) -> bool {
    exists|k: int|
        0 <= k <= first.len() && k <= second.len() && #[trigger] first.take(k) == second.take(k)
            && (k == first.len() || (k < second.len() && first[k] < second[k]))
}

/// The records ascend: each comes before all that follow it.
pub open spec fn is_sorted(records: Seq<Seq<u8>>) -> bool {
    forall|i: int, j: int|
        0 <= i < j < records.len() ==> precedes(#[trigger] records[i], #[trigger] records[j])
}

/// Of three records of one length that ascend, the middle one has the prefix that the
/// outer two share.
proof fn lemma_prefix_between(low: Seq<u8>, mid: Seq<u8>, high: Seq<u8>, len: int)
    requires
        0 <= len <= low.len(),
        low.len() == mid.len() == high.len(),
        precedes(low, mid),
        precedes(mid, high),
        low.subrange(0, len) == high.subrange(0, len),
    ensures
        mid.subrange(0, len) == low.subrange(0, len),
{
    let below = choose|k: int|
        0 <= k <= low.len() && k <= mid.len() && #[trigger] low.take(k) == mid.take(k) && (k
            == low.len() || (k < mid.len() && low[k] < mid[k]));
    let above = choose|k: int|
        0 <= k <= mid.len() && k <= high.len() && #[trigger] mid.take(k) == high.take(k) && (k
            == mid.len() || (k < high.len() && mid[k] < high[k]));
    assert forall|j: int| 0 <= j < below implies low[j] == mid[j] by {
        assert(low.take(below)[j] == mid.take(below)[j]);
    }
    assert forall|j: int| 0 <= j < above implies mid[j] == high[j] by {
        assert(mid.take(above)[j] == high.take(above)[j]);
    }
    assert forall|j: int| 0 <= j < len implies low[j] == high[j] by {
        assert(low.subrange(0, len)[j] == low[j]);
        assert(high.subrange(0, len)[j] == high[j]);
    }
    if below < len {
        if above > below {
            assert(mid[below] == high[below]);
        } else {
            assert(mid[above] < high[above]);
        }
        assert(false);
    }
    assert(mid.subrange(0, len) =~= low.subrange(0, len));
}

/// In a well-formed block whose records ascend, no bucket is opened twice: of two writes
/// that open a bucket, each opens another. So a sorted block opens as many buckets as it
/// holds prefixes.
pub proof fn lemma_sorted_block_opens_each_bucket_once(
    buf: Seq<u8>,
    layout: RecordLayout,
    i: int,
    j: int,
)
    requires
        layout.wf(),
        all_well_formed(buf, layout),
        is_sorted(records(buf)),
        0 <= i < j < record_starts(buf).len(),
        expected_append(buf, layout, j).opens,
    ensures
        prefix_at(buf, layout, record_starts(buf)[i]) != prefix_at(
            buf,
            layout,
            record_starts(buf)[j],
        ),
{
    let starts = record_starts(buf);
    lemma_starts_below(buf, buf.len() as int);
    layout.lemma_wf();
    assert forall|k: int| 0 <= k < starts.len() implies (#[trigger] records(buf)[k]).len()
        == layout.width() && record_prefix(records(buf)[k], layout) == prefix_at(
        buf,
        layout,
        starts[k],
    ) by {
        lemma_line_end(buf, starts[k]);
        assert(well_formed_at(buf, layout, starts[k]));
        assert(record_prefix(records(buf)[k], layout) =~= prefix_at(buf, layout, starts[k]));
    }
    if prefix_at(buf, layout, starts[i]) == prefix_at(buf, layout, starts[j]) {
        if i < j - 1 {
            assert(records(buf)[i].len() == layout.width());
            assert(records(buf)[j - 1].len() == layout.width());
            assert(records(buf)[j].len() == layout.width());
            assert(precedes(records(buf)[i], records(buf)[j - 1]));
            assert(precedes(records(buf)[j - 1], records(buf)[j]));
            lemma_prefix_between(
                records(buf)[i],
                records(buf)[j - 1],
                records(buf)[j],
                layout.prefix(),
            );
        }
        assert(prefix_at(buf, layout, starts[j - 1]) == prefix_at(buf, layout, starts[j]));
    }
}

/// A walk over the records of one block. It keeps the place of the next record and the
/// record whose bucket is open, and belongs to one worker alone.
pub struct BucketWriter<'a> {
    buf: &'a [u8],
    layout: RecordLayout,
    cursor: usize,
    count: usize,
    current: Option<usize>,
}

impl<'a> BucketWriter<'a> {
    /// The walk stands at a record start or at the end, has handed out every record
    /// before that place, found each of them well-formed, and remembers the last one.
    #[verifier::type_invariant]
    pub closed spec fn wf(self) -> bool {
        let below = record_starts_below(self.buf@, self.cursor as int);
        &&& self.cursor <= self.buf@.len()
        &&& self.cursor < self.buf@.len() ==> is_record_start(self.buf@, self.cursor as int)
        &&& below.len() == self.count
        &&& forall|i: int|
            0 <= i < below.len() ==> well_formed_at(self.buf@, self.layout, #[trigger] below[i])
        &&& self.current == if self.count == 0 {
            None
        } else {
            Some(below[self.count - 1] as usize)
        }
    }

    /// The block that is walked.
    pub closed spec fn buffer(self) -> Seq<u8> {
        self.buf@
    }

    /// The layout of its records.
    pub closed spec fn layout(self) -> RecordLayout {
        self.layout
    }

    /// How many records have been handed out.
    pub closed spec fn handed_out(self) -> int {
        self.count as int
    }

    /// A walk that stands before the first record of `buf`, with no bucket open.
    pub fn new(buf: &'a [u8], layout: RecordLayout) -> (writer: BucketWriter<'a>)
        ensures
            writer.wf(),
            writer.buffer() == buf@,
            writer.layout() == layout,
            writer.handed_out() == 0,
    {
        BucketWriter { buf, layout, cursor: 0, count: 0, current: None }
    }

    /// Hands out the write for the next record, or `None` when the block is exhausted.
    /// A record that has not the layout's width is reported and the walk stays before it.
    pub fn step(&mut self) -> (result: Result<Option<Append>, InputError>)
        ensures
            final(self).wf(),
            final(self).buffer() == old(self).buffer(),
            final(self).layout() == old(self).layout(),
            0 <= old(self).handed_out() <= record_starts(old(self).buffer()).len(),
            forall|i: int|
                0 <= i < old(self).handed_out() ==> well_formed_at(
                    old(self).buffer(),
                    old(self).layout(),
                    #[trigger] record_starts(old(self).buffer())[i],
                ),
            match result {
                Ok(None) => {
                    &&& old(self).handed_out() == record_starts(old(self).buffer()).len()
                    &&& final(self).handed_out() == old(self).handed_out()
                },
                Ok(Some(append)) => {
                    &&& old(self).handed_out() < record_starts(old(self).buffer()).len()
                    &&& well_formed_at(
                        old(self).buffer(),
                        old(self).layout(),
                        record_starts(old(self).buffer())[old(self).handed_out()],
                    )
                    &&& append == expected_append(
                        old(self).buffer(),
                        old(self).layout(),
                        old(self).handed_out(),
                    )
                    &&& append.start + old(self).layout().width() <= old(self).buffer().len()
                    &&& final(self).handed_out() == old(self).handed_out() + 1
                },
                Err(error) => {
                    &&& old(self).handed_out() < record_starts(old(self).buffer()).len()
                    &&& !well_formed_at(
                        old(self).buffer(),
                        old(self).layout(),
                        record_starts(old(self).buffer())[old(self).handed_out()],
                    )
                    &&& error == fault_at(
                        old(self).buffer(),
                        old(self).layout(),
                        record_starts(old(self).buffer())[old(self).handed_out()],
                    )
                    &&& final(self).handed_out() == old(self).handed_out()
                },
            },
    {
        proof {
            use_type_invariant(&*self);
        }
        let buf = self.buf;
        let total = buf.len();
        let start = self.cursor;
        let ghost below = record_starts_below(buf@, start as int);
        proof {
            lemma_starts_below_grows(buf@, start as int, total as int);
            assert forall|i: int| 0 <= i < self.count implies well_formed_at(
                buf@,
                self.layout,
                #[trigger] record_starts(buf@)[i],
            ) by {
                assert(record_starts(buf@)[i] == below[i]);
            }
        }
        if start >= total {
            return Ok(None);
        }
        proof {
            lemma_start_is_listed(buf@, start as int);
        }
        let width = self.layout.record_len();
        let end = find_line_end(buf, start);
        proof {
            lemma_line_end(buf@, start as int);
        }
        if end - start < width {
            return Err(InputError::UndersizedRecord { offset: start });
        }
        if end - start > width {
            return Err(InputError::MalformedRecord { offset: start });
        }
        let prefix_len = self.layout.prefix_len();
        proof {
            self.layout.lemma_wf();
            lemma_next_start(buf@, start as int);
        }
        let opens = match self.current {
            None => true,
            Some(previous) => {
                proof {
                    lemma_starts_below(buf@, start as int);
                    lemma_line_end(buf@, previous as int);
                }
                !equal_bytes(
                    slice_subrange(buf, previous, previous + prefix_len),
                    slice_subrange(buf, start, start + prefix_len),
                )
            },
        };
        let next = if end < total {
            end + 1
        } else {
            end
        };
        let append = Append { start, opens };
        *self = BucketWriter {
            buf,
            layout: self.layout,
            cursor: next,
            count: self.count + 1,
            current: Some(start),
        };
        Ok(Some(append))
    }
}

/// The writes for all records of one block, in order, or the first record that has not
/// the layout's width.
pub fn route_block(buf: &[u8], layout: RecordLayout) -> (result: Result<Vec<Append>, InputError>)
    ensures
        result is Ok <==> all_well_formed(buf@, layout),
        result matches Ok(appends) ==> appends@ == expected_appends(buf@, layout),
        result matches Err(error) ==> is_first_fault(buf@, layout, error),
{
    let mut writer = BucketWriter::new(buf, layout);
    let mut appends: Vec<Append> = Vec::new();
    loop
        invariant
            writer.wf(),
            writer.buffer() == buf@,
            writer.layout() == layout,
            appends@.len() == writer.handed_out(),
            forall|i: int|
                0 <= i < appends@.len() ==> appends@[i] == expected_append(buf@, layout, i),
        decreases record_starts(buf@).len() - writer.handed_out(),
    {
        let ghost done = writer.handed_out();
        match writer.step() {
            Ok(Some(append)) => {
                appends.push(append);
            },
            Ok(None) => {
                proof {
                    assert(appends@ =~= expected_appends(buf@, layout));
                }
                return Ok(appends);
            },
            Err(error) => {
                proof {
                    assert(!well_formed_at(buf@, layout, record_starts(buf@)[done]));
                }
                return Err(error);
            },
        }
    }
}

/// The prefix of the record that starts at `start`, where the buffer holds one.
pub fn prefix_of<'a>(buf: &'a [u8], layout: RecordLayout, start: usize) -> (prefix: Option<
    &'a [u8],
>)
    ensures
        prefix is Some <==> start + layout.prefix() <= buf@.len(),
        prefix matches Some(bytes) ==> bytes@ == prefix_at(buf@, layout, start as int),
{
    let len = layout.prefix_len();
    if start > buf.len() || buf.len() - start < len {
        None
    } else {
        Some(slice_subrange(buf, start, start + len))
    }
}

/// The suffix of the record that starts at `start`, where the buffer holds one.
pub fn suffix_of<'a>(buf: &'a [u8], layout: RecordLayout, start: usize) -> (suffix: Option<
    &'a [u8],
>)
    ensures
        suffix is Some <==> start + layout.width() <= buf@.len(),
        suffix matches Some(bytes) ==> bytes@ == suffix_at(buf@, layout, start as int),
{
    let width = layout.record_len();
    proof {
        layout.lemma_wf();
    }
    if start > buf.len() || buf.len() - start < width {
        None
    } else {
        Some(slice_subrange(buf, start + layout.prefix_len(), start + width))
    }
}

} // verus!
