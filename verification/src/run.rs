//! A whole run: what the blocks of a plan, taken one after the other, put into the
//! buckets, and why that is what the records of the input ask for.

use crate::lookup::{holds_suffix, is_record};
use crate::planner::{cut_after, is_aligned_cover, plan, plan_from, Block};
use crate::record::{
    is_boundary, is_record_start, lemma_line_end, lemma_line_end_is, lemma_line_start,
    lemma_records_split, lemma_start_is_listed, lemma_starts_below, lemma_starts_below_skips,
    line_end, line_start, record_at, record_starts, record_starts_below, records,
    well_formed_at, RecordLayout, TERMINATOR,
};
use crate::writer::{
    all_well_formed, block_bucket, filed_under, is_sorted, lemma_bucket_receives_its_records,
    precedes, record_prefix, record_suffix,
};
use vstd::prelude::*;

verus! {

/// The bytes of the data that a block spans.
pub open spec fn block_bytes(data: Seq<u8>, block: Block) -> Seq<u8> {
    data.subrange(block.start as int, block.end as int)
}

/// The records that the workers meet, block after block in the order of the plan.
pub open spec fn run_records(data: Seq<u8>, blocks: Seq<Block>) -> Seq<Seq<u8>>
    decreases blocks.len(),
{
    if blocks.len() == 0 {
        Seq::empty()
    } else {
        run_records(data, blocks.drop_last()) + records(block_bytes(data, blocks.last()))
    }
}

/// The first `count` blocks of an aligned cover hold the records of the data up to the
/// end of the last of them.
proof fn lemma_run_records_upto(data: Seq<u8>, blocks: Seq<Block>, count: int)
    requires
        is_aligned_cover(data, blocks),
        1 <= count <= blocks.len(),
    ensures
        0 <= blocks[count - 1].end <= data.len(),
        run_records(data, blocks.take(count)) == records(
            data.subrange(0, blocks[count - 1].end as int),
        ),
    decreases count,
{
    let taken = blocks.take(count);
    let last = blocks[count - 1];
    assert(taken.last() == last);
    assert(taken.drop_last() =~= blocks.take(count - 1));
    assert(last.end <= data.len()) by {
        lemma_ends_ascend(blocks, count - 1, blocks.len() - 1);
    }
    if count == 1 {
        assert(run_records(data, blocks.take(0)) =~= Seq::<Seq<u8>>::empty());
        assert(run_records(data, taken) =~= records(block_bytes(data, last)));
    } else {
        lemma_run_records_upto(data, blocks, count - 1);
        let cut = blocks[count - 2].end as int;
        assert(cut == last.start);
        let upto = data.subrange(0, last.end as int);
        assert(upto[cut - 1] == data[cut - 1]);
        assert(is_boundary(upto, cut));
        lemma_records_split(upto, cut);
        assert(upto.subrange(0, cut) =~= data.subrange(0, cut));
        assert(upto.subrange(cut, upto.len() as int) =~= block_bytes(data, last));
    }
}

/// In an aligned cover a later block ends no earlier than an earlier one.
proof fn lemma_ends_ascend(blocks: Seq<Block>, i: int, j: int)
    requires
        blocks.len() >= 1,
        forall|k: int| 0 <= k < blocks.len() ==> (#[trigger] blocks[k]).start <= blocks[k].end,
        forall|k: int|
            0 <= k < blocks.len() - 1 ==> (#[trigger] blocks[k]).end == blocks[k + 1].start,
        0 <= i <= j < blocks.len(),
    ensures
        blocks[i].end <= blocks[j].end,
    decreases j - i,
{
    if i < j {
        lemma_ends_ascend(blocks, i, j - 1);
        assert(blocks[j - 1].end == blocks[j].start);
    }
}

/// A run over an aligned cover loses no record and meets none twice: the records of the
/// blocks, taken in the order of the plan, are the records of the input.
pub proof fn lemma_run_meets_every_record_once(data: Seq<u8>, blocks: Seq<Block>)
    requires
        is_aligned_cover(data, blocks),
    ensures
        run_records(data, blocks) == records(data),
{
    lemma_run_records_upto(data, blocks, blocks.len() as int);
    assert(blocks.take(blocks.len() as int) =~= blocks);
    assert(data.subrange(0, data.len() as int) =~= data);
}

/// Every record is as long as the layout says.
pub open spec fn all_have_width(records: Seq<Seq<u8>>, layout: RecordLayout) -> bool {
    forall|i: int| 0 <= i < records.len() ==> (#[trigger] records[i]).len() == layout.width()
}

/// A buffer is well-formed where each of its records is as long as the layout says.
pub proof fn lemma_well_formed_by_records(buf: Seq<u8>, layout: RecordLayout)
    ensures
        all_well_formed(buf, layout) <==> all_have_width(records(buf), layout),
{
    lemma_starts_below(buf, buf.len() as int);
    assert forall|i: int| 0 <= i < record_starts(buf).len() implies (well_formed_at(
        buf,
        layout,
        #[trigger] record_starts(buf)[i],
    ) <==> records(buf)[i].len() == layout.width()) by {
        lemma_line_end(buf, record_starts(buf)[i]);
    }
    if all_well_formed(buf, layout) {
        assert forall|i: int| 0 <= i < records(buf).len() implies (#[trigger] records(
            buf,
        )[i]).len() == layout.width() by {
            assert(well_formed_at(buf, layout, record_starts(buf)[i]));
        }
    }
    if all_have_width(records(buf), layout) {
        assert forall|i: int| 0 <= i < record_starts(buf).len() implies well_formed_at(
            buf,
            layout,
            #[trigger] record_starts(buf)[i],
        ) by {
            assert(records(buf)[i].len() == layout.width());
        }
    }
}

/// The records that a run meets all have the layout's width where those of each block
/// have it, and only then.
proof fn lemma_run_width(data: Seq<u8>, layout: RecordLayout, blocks: Seq<Block>)
    ensures
        all_have_width(run_records(data, blocks), layout) <==> forall|k: int|
            0 <= k < blocks.len() ==> all_well_formed(
                block_bytes(data, #[trigger] blocks[k]),
                layout,
            ),
    decreases blocks.len(),
{
    if blocks.len() > 0 {
        let earlier = blocks.drop_last();
        let last = records(block_bytes(data, blocks.last()));
        let before = run_records(data, earlier);
        let joined = run_records(data, blocks);
        lemma_run_width(data, layout, earlier);
        lemma_well_formed_by_records(block_bytes(data, blocks.last()), layout);
        if all_have_width(joined, layout) {
            assert forall|i: int| 0 <= i < before.len() implies (#[trigger] before[i]).len()
                == layout.width() by {
                assert(joined[i] == before[i]);
            }
            assert forall|i: int| 0 <= i < last.len() implies (#[trigger] last[i]).len()
                == layout.width() by {
                assert(joined[before.len() + i] == last[i]);
            }
            assert forall|k: int| 0 <= k < blocks.len() implies all_well_formed(
                block_bytes(data, #[trigger] blocks[k]),
                layout,
            ) by {
                if k < earlier.len() {
                    assert(earlier[k] == blocks[k]);
                }
            }
        }
        if forall|k: int|
            0 <= k < blocks.len() ==> all_well_formed(
                block_bytes(data, #[trigger] blocks[k]),
                layout,
            ) {
            assert forall|k: int| 0 <= k < earlier.len() implies all_well_formed(
                block_bytes(data, #[trigger] earlier[k]),
                layout,
            ) by {
                assert(earlier[k] == blocks[k]);
            }
            assert(all_well_formed(block_bytes(data, blocks[blocks.len() - 1]), layout));
        }
    }
}

/// The workers find every block of an aligned cover well-formed where the input is
/// well-formed, and only then.
pub proof fn lemma_blocks_are_well_formed(data: Seq<u8>, layout: RecordLayout, blocks: Seq<Block>)
    requires
        is_aligned_cover(data, blocks),
    ensures
        all_well_formed(data, layout) <==> forall|k: int|
            0 <= k < blocks.len() ==> all_well_formed(
                block_bytes(data, #[trigger] blocks[k]),
                layout,
            ),
{
    lemma_run_meets_every_record_once(data, blocks);
    lemma_run_width(data, layout, blocks);
    lemma_well_formed_by_records(data, layout);
}

/// Where the records that a run meets ascend, those of each block ascend.
proof fn lemma_run_sorted(data: Seq<u8>, blocks: Seq<Block>, k: int)
    requires
        is_sorted(run_records(data, blocks)),
        0 <= k < blocks.len(),
    ensures
        is_sorted(records(block_bytes(data, blocks[k]))),
    decreases blocks.len(),
{
    let earlier = blocks.drop_last();
    let before = run_records(data, earlier);
    let last = records(block_bytes(data, blocks.last()));
    let joined = run_records(data, blocks);
    if k == blocks.len() - 1 {
        assert forall|i: int, j: int| 0 <= i < j < last.len() implies precedes(
            #[trigger] last[i],
            #[trigger] last[j],
        ) by {
            assert(joined[before.len() + i] == last[i]);
            assert(joined[before.len() + j] == last[j]);
        }
    } else {
        assert forall|i: int, j: int| 0 <= i < j < before.len() implies precedes(
            #[trigger] before[i],
            #[trigger] before[j],
        ) by {
            assert(joined[i] == before[i]);
            assert(joined[j] == before[j]);
        }
        assert(earlier[k] == blocks[k]);
        lemma_run_sorted(data, earlier, k);
    }
}

/// The blocks of sorted input are sorted: where the records of the input ascend, those
/// of each block of an aligned cover ascend, so that no worker opens a bucket twice.
pub proof fn lemma_blocks_are_sorted(data: Seq<u8>, blocks: Seq<Block>, k: int)
    requires
        is_aligned_cover(data, blocks),
        is_sorted(records(data)),
        0 <= k < blocks.len(),
    ensures
        is_sorted(records(block_bytes(data, blocks[k]))),
{
    lemma_run_meets_every_record_once(data, blocks);
    lemma_run_sorted(data, blocks, k);
}

/// What `bucket` receives from a whole run, block after block in the order of the plan.
pub open spec fn run_bucket(
    data: Seq<u8>,
    layout: RecordLayout,
    blocks: Seq<Block>,
    bucket: Seq<u8>,
) -> Seq<Seq<u8>>
    decreases blocks.len(),
{
    if blocks.len() == 0 {
        Seq::empty()
    } else {
        run_bucket(data, layout, blocks.drop_last(), bucket) + block_bucket(
            block_bytes(data, blocks.last()),
            layout,
            bucket,
        )
    }
}

/// What belongs in a bucket from two runs of records is what belongs in it from the
/// first, followed by what belongs in it from the second.
proof fn lemma_filed_under_concat(
    first: Seq<Seq<u8>>,
    second: Seq<Seq<u8>>,
    layout: RecordLayout,
    bucket: Seq<u8>,
)
    ensures
        filed_under(first + second, layout, bucket) == filed_under(first, layout, bucket)
            + filed_under(second, layout, bucket),
    decreases second.len(),
{
    if second.len() == 0 {
        assert(first + second =~= first);
        assert(filed_under(first, layout, bucket) + Seq::<Seq<u8>>::empty() =~= filed_under(
            first,
            layout,
            bucket,
        ));
    } else {
        lemma_filed_under_concat(first, second.drop_last(), layout, bucket);
        assert((first + second).drop_last() =~= first + second.drop_last());
        assert((first + second).last() == second.last());
        let earlier = filed_under(second.drop_last(), layout, bucket);
        let head = filed_under(first, layout, bucket);
        if record_prefix(second.last(), layout) == bucket {
            let line = second.last().subrange(layout.prefix(), second.last().len() as int);
            assert((head + earlier).push(line) =~= head + earlier.push(line));
        }
    }
}

/// Blocks that are well-formed put into a bucket what belongs in it from the records
/// that they hold.
proof fn lemma_run_bucket_is_filed(
    data: Seq<u8>,
    layout: RecordLayout,
    blocks: Seq<Block>,
    bucket: Seq<u8>,
)
    requires
        layout.wf(),
        forall|k: int|
            0 <= k < blocks.len() ==> block_bytes(data, #[trigger] blocks[k]).len() <= usize::MAX,
        forall|k: int|
            0 <= k < blocks.len() ==> all_well_formed(
                block_bytes(data, #[trigger] blocks[k]),
                layout,
            ),
    ensures
        run_bucket(data, layout, blocks, bucket) == filed_under(
            run_records(data, blocks),
            layout,
            bucket,
        ),
    decreases blocks.len(),
{
    if blocks.len() > 0 {
        let earlier = blocks.drop_last();
        assert forall|k: int| 0 <= k < earlier.len() implies block_bytes(
            data,
            #[trigger] earlier[k],
        ).len() <= usize::MAX && all_well_formed(block_bytes(data, earlier[k]), layout) by {
            assert(earlier[k] == blocks[k]);
        }
        lemma_run_bucket_is_filed(data, layout, earlier, bucket);
        let buf = block_bytes(data, blocks.last());
        assert(blocks.last() == blocks[blocks.len() - 1]);
        lemma_bucket_receives_its_records(buf, layout, bucket, record_starts(buf).len() as int);
        assert(records(buf).take(record_starts(buf).len() as int) =~= records(buf));
        lemma_filed_under_concat(run_records(data, earlier), records(buf), layout, bucket);
    }
}

/// After a run over an aligned cover of well-formed input, a bucket holds the suffixes
/// of the records that have its prefix, in their order, and nothing else: the suffix of
/// a record is in the bucket that its own prefix names and in no other.
pub proof fn lemma_run_files_suffixes_by_prefix(
    data: Seq<u8>,
    layout: RecordLayout,
    blocks: Seq<Block>,
    bucket: Seq<u8>,
)
    requires
        layout.wf(),
        is_aligned_cover(data, blocks),
        all_well_formed(data, layout),
        forall|k: int|
            0 <= k < blocks.len() ==> (#[trigger] blocks[k]).end - blocks[k].start <= usize::MAX,
    ensures
        run_bucket(data, layout, blocks, bucket) == filed_under(records(data), layout, bucket),
{
    lemma_blocks_are_well_formed(data, layout, blocks);
    lemma_run_meets_every_record_once(data, blocks);
    assert forall|k: int| 0 <= k < blocks.len() implies block_bytes(
        data,
        #[trigger] blocks[k],
    ).len() <= usize::MAX by {
        lemma_ends_ascend(blocks, k, blocks.len() - 1);
    }
    lemma_run_bucket_is_filed(data, layout, blocks, bucket);
}

/// The buckets that the records name, each once, in the order in which they are first
/// named.
pub open spec fn buckets_of(records: Seq<Seq<u8>>, layout: RecordLayout) -> Seq<Seq<u8>>
    decreases records.len(),
{
    if records.len() == 0 {
        Seq::empty()
    } else {
        let earlier = buckets_of(records.drop_last(), layout);
        let bucket = record_prefix(records.last(), layout);
        if earlier.contains(bucket) {
            earlier
        } else {
            earlier.push(bucket)
        }
    }
}

/// How many lines belong in the given buckets together.
pub open spec fn lines_in(
    records: Seq<Seq<u8>>,
    layout: RecordLayout,
    buckets: Seq<Seq<u8>>,
) -> nat
    decreases buckets.len(),
{
    if buckets.len() == 0 {
        0
    } else {
        lines_in(records, layout, buckets.drop_last()) + filed_under(
            records,
            layout,
            buckets.last(),
        ).len()
    }
}

/// No bucket is listed twice, and the bucket of every record is listed.
proof fn lemma_buckets_of(records: Seq<Seq<u8>>, layout: RecordLayout)
    ensures
        buckets_of(records, layout).no_duplicates(),
        forall|i: int|
            0 <= i < records.len() ==> buckets_of(records, layout).contains(
                record_prefix(#[trigger] records[i], layout),
            ),
    decreases records.len(),
{
    if records.len() > 0 {
        let earlier = buckets_of(records.drop_last(), layout);
        let bucket = record_prefix(records.last(), layout);
        let all = buckets_of(records, layout);
        lemma_buckets_of(records.drop_last(), layout);
        if !earlier.contains(bucket) {
            assert(all[earlier.len() as int] == bucket);
        }
        assert forall|i: int| 0 <= i < records.len() implies all.contains(
            record_prefix(#[trigger] records[i], layout),
        ) by {
            if i < records.len() - 1 {
                assert(records.drop_last()[i] == records[i]);
                let at = choose|at: int|
                    0 <= at < earlier.len() && earlier[at] == record_prefix(records[i], layout);
                assert(all[at] == earlier[at]);
            }
        }
    }
}

/// A bucket that no record names has nothing that belongs in it.
proof fn lemma_unnamed_bucket_is_empty(
    records: Seq<Seq<u8>>,
    layout: RecordLayout,
    bucket: Seq<u8>,
)
    requires
        forall|i: int|
            0 <= i < records.len() ==> record_prefix(#[trigger] records[i], layout) != bucket,
    ensures
        filed_under(records, layout, bucket).len() == 0,
    decreases records.len(),
{
    if records.len() > 0 {
        assert forall|i: int| 0 <= i < records.drop_last().len() implies record_prefix(
            #[trigger] records.drop_last()[i],
            layout,
        ) != bucket by {
            assert(records.drop_last()[i] == records[i]);
        }
        lemma_unnamed_bucket_is_empty(records.drop_last(), layout, bucket);
        assert(records.last() == records[records.len() - 1]);
    }
}

/// One more record is one more line in the buckets, if its bucket is among them, and
/// none otherwise.
proof fn lemma_lines_in_grows(
    records: Seq<Seq<u8>>,
    layout: RecordLayout,
    buckets: Seq<Seq<u8>>,
)
    requires
        records.len() > 0,
        buckets.no_duplicates(),
    ensures
        lines_in(records, layout, buckets) == lines_in(records.drop_last(), layout, buckets) + (
        if buckets.contains(record_prefix(records.last(), layout)) {
            1nat
        } else {
            0nat
        }),
    decreases buckets.len(),
{
    if buckets.len() > 0 {
        let earlier = buckets.drop_last();
        let bucket = record_prefix(records.last(), layout);
        assert forall|i: int, j: int|
            0 <= i < earlier.len() && 0 <= j < earlier.len() && i != j implies earlier[i]
            != earlier[j] by {
            assert(earlier[i] == buckets[i] && earlier[j] == buckets[j]);
        }
        lemma_lines_in_grows(records, layout, earlier);
        if buckets.last() == bucket {
            assert(buckets[buckets.len() - 1] == bucket);
            if earlier.contains(bucket) {
                let at = choose|at: int| 0 <= at < earlier.len() && earlier[at] == bucket;
                assert(buckets[at] == bucket);
            }
        } else {
            if buckets.contains(bucket) {
                let at = choose|at: int| 0 <= at < buckets.len() && buckets[at] == bucket;
                assert(earlier[at] == bucket);
            }
            if earlier.contains(bucket) {
                let at = choose|at: int| 0 <= at < earlier.len() && earlier[at] == bucket;
                assert(buckets[at] == bucket);
            }
        }
    }
}

/// Every record is one line in one bucket: the lines that belong in the buckets that the
/// records name are as many as the records.
pub proof fn lemma_every_record_is_one_line(records: Seq<Seq<u8>>, layout: RecordLayout)
    ensures
        lines_in(records, layout, buckets_of(records, layout)) == records.len(),
    decreases records.len(),
{
    if records.len() > 0 {
        let earlier = records.drop_last();
        let named = buckets_of(earlier, layout);
        let bucket = record_prefix(records.last(), layout);
        lemma_every_record_is_one_line(earlier, layout);
        lemma_buckets_of(earlier, layout);
        lemma_buckets_of(records, layout);
        lemma_lines_in_grows(records, layout, buckets_of(records, layout));
        if named.contains(bucket) {
        } else {
            let all = named.push(bucket);
            assert(all.drop_last() =~= named);
            assert(all.last() == bucket);
            assert forall|i: int| 0 <= i < earlier.len() implies record_prefix(
                #[trigger] earlier[i],
                layout,
            ) != bucket by {
                if record_prefix(earlier[i], layout) == bucket {
                    assert(named.contains(record_prefix(earlier[i], layout)));
                }
            }
            lemma_unnamed_bucket_is_empty(earlier, layout, bucket);
            assert(all[named.len() as int] == bucket);
            assert(all.contains(bucket));
        }
    }
}

/// How many lines the given buckets hold together after a run.
pub open spec fn run_lines_in(
    data: Seq<u8>,
    layout: RecordLayout,
    blocks: Seq<Block>,
    buckets: Seq<Seq<u8>>,
) -> nat
    decreases buckets.len(),
{
    if buckets.len() == 0 {
        0
    } else {
        run_lines_in(data, layout, blocks, buckets.drop_last()) + run_bucket(
            data,
            layout,
            blocks,
            buckets.last(),
        ).len()
    }
}

/// After a run over an aligned cover of well-formed input, the buckets hold as many
/// lines as belong in them.
proof fn lemma_run_lines_in(
    data: Seq<u8>,
    layout: RecordLayout,
    blocks: Seq<Block>,
    buckets: Seq<Seq<u8>>,
)
    requires
        layout.wf(),
        is_aligned_cover(data, blocks),
        all_well_formed(data, layout),
        forall|k: int|
            0 <= k < blocks.len() ==> (#[trigger] blocks[k]).end - blocks[k].start <= usize::MAX,
    ensures
        run_lines_in(data, layout, blocks, buckets) == lines_in(records(data), layout, buckets),
    decreases buckets.len(),
{
    if buckets.len() > 0 {
        lemma_run_lines_in(data, layout, blocks, buckets.drop_last());
        lemma_run_files_suffixes_by_prefix(data, layout, blocks, buckets.last());
    }
}

/// A run keeps the count: after a run over an aligned cover of well-formed input, the
/// lines in all buckets together are as many as the records of the input.
pub proof fn lemma_run_keeps_the_count(data: Seq<u8>, layout: RecordLayout, blocks: Seq<Block>)
    requires
        layout.wf(),
        is_aligned_cover(data, blocks),
        all_well_formed(data, layout),
        forall|k: int|
            0 <= k < blocks.len() ==> (#[trigger] blocks[k]).end - blocks[k].start <= usize::MAX,
    ensures
        run_lines_in(data, layout, blocks, buckets_of(records(data), layout)) == records(
            data,
        ).len(),
{
    lemma_run_lines_in(data, layout, blocks, buckets_of(records(data), layout));
    lemma_every_record_is_one_line(records(data), layout);
}

/// From any cursor on, every cut of a plan can be placed where the input is well-formed,
/// ends with a terminator, and the read-ahead window is longer than a record.
proof fn lemma_plan_from_succeeds(
    data: Seq<u8>,
    layout: RecordLayout,
    cursor: int,
    block_size: int,
    read_ahead: int,
)
    requires
        layout.wf(),
        0 <= cursor <= data.len(),
        0 <= block_size,
        read_ahead > layout.width(),
        all_well_formed(data, layout),
        data.len() > 0 ==> data[data.len() - 1] == TERMINATOR,
    ensures
        plan_from(data, cursor, block_size, read_ahead) is Ok,
    decreases data.len() - cursor,
{
    if data.len() - cursor > block_size {
        let scan = cursor + block_size;
        let start = line_start(data, scan);
        lemma_line_start(data, scan);
        lemma_start_is_listed(data, start);
        assert(well_formed_at(data, layout, start));
        lemma_line_end(data, scan);
        lemma_line_end(data, start);
        let stop = line_end(data, scan);
        assert(cut_after(data, scan, read_ahead) == Some(stop + 1));
        lemma_plan_from_succeeds(data, layout, stop + 1, block_size, read_ahead);
    }
}

/// Planning succeeds on input that keeps to the layout: where every record is as long as
/// the layout says, the last one is terminated, and the read-ahead window is longer than
/// a record, every cut can be placed.
pub proof fn lemma_plan_succeeds(
    data: Seq<u8>,
    layout: RecordLayout,
    block_size: int,
    read_ahead: int,
)
    requires
        layout.wf(),
        0 <= block_size,
        read_ahead > layout.width(),
        all_well_formed(data, layout),
        data.len() > 0 ==> data[data.len() - 1] == TERMINATOR,
    ensures
        plan(data, block_size, read_ahead) is Ok,
{
    lemma_plan_from_succeeds(data, layout, 0, block_size, read_ahead);
}

/// The bytes of a bucket file that has received `lines`: each line, followed by a
/// terminator.
pub open spec fn bucket_file(lines: Seq<Seq<u8>>) -> Seq<u8>
    decreases lines.len(),
{
    if lines.len() == 0 {
        Seq::empty()
    } else {
        bucket_file(lines.drop_last()) + lines.last() + seq![TERMINATOR]
    }
}

/// No byte of the line is a terminator.
pub open spec fn is_one_line(line: Seq<u8>) -> bool {
    forall|k: int| 0 <= k < line.len() ==> line[k] != TERMINATOR
}

/// A line with its terminator is one record: the line.
proof fn lemma_one_line(line: Seq<u8>)
    requires
        is_one_line(line),
    ensures
        records(line + seq![TERMINATOR]) == seq![line],
{
    let buf = line + seq![TERMINATOR];
    assert forall|p: int| 1 <= p < buf.len() implies !is_record_start(buf, p) by {
        assert(buf[p - 1] == line[p - 1]);
    }
    lemma_starts_below_skips(buf, 1, buf.len() as int);
    assert(record_starts_below(buf, 1) =~= seq![0int]) by {
        reveal_with_fuel(record_starts_below, 2);
    }
    assert forall|k: int| 0 <= k < line.len() implies buf[k] != TERMINATOR by {
        assert(buf[k] == line[k]);
    }
    lemma_line_end_is(buf, 0, line.len() as int);
    assert(record_at(buf, 0) =~= line);
    assert(records(buf) =~= seq![line]);
}

/// A bucket file gives back the lines that it has received, where none of them holds a
/// terminator.
pub proof fn lemma_bucket_file_keeps_lines(lines: Seq<Seq<u8>>)
    requires
        forall|i: int| 0 <= i < lines.len() ==> is_one_line(#[trigger] lines[i]),
    ensures
        records(bucket_file(lines)) == lines,
        lines.len() > 0 ==> bucket_file(lines).len() > 0 && bucket_file(lines).last()
            == TERMINATOR,
    decreases lines.len(),
{
    if lines.len() == 0 {
        assert(records(bucket_file(lines)) =~= lines);
    } else {
        let earlier = lines.drop_last();
        let head = bucket_file(earlier);
        let file = bucket_file(lines);
        let cut = head.len() as int;
        assert forall|i: int| 0 <= i < earlier.len() implies is_one_line(#[trigger] earlier[i]) by {
            assert(earlier[i] == lines[i]);
        }
        lemma_bucket_file_keeps_lines(earlier);
        assert(is_one_line(lines[lines.len() - 1]));
        if cut > 0 {
            assert(file[cut - 1] == head[cut - 1]);
        }
        assert(is_boundary(file, cut));
        lemma_records_split(file, cut);
        assert(file.subrange(0, cut) =~= head);
        assert(file.subrange(cut, file.len() as int) =~= lines.last() + seq![TERMINATOR]);
        lemma_one_line(lines.last());
        assert(earlier + seq![lines.last()] =~= lines);
    }
}

/// `line` is the suffix of one of the records that have the prefix `bucket`.
spec fn is_suffix_for(
    records: Seq<Seq<u8>>,
    layout: RecordLayout,
    bucket: Seq<u8>,
    line: Seq<u8>,
) -> bool {
    exists|i: int|
        0 <= i < records.len() && record_prefix(#[trigger] records[i], layout) == bucket
            && record_suffix(records[i], layout) == line
}

/// What belongs in a bucket holds the suffix of every record that has the bucket's
/// prefix, and every line of it is the suffix of such a record.
proof fn lemma_filed_under_holds(
    records: Seq<Seq<u8>>,
    layout: RecordLayout,
    bucket: Seq<u8>,
)
    ensures
        forall|i: int|
            0 <= i < records.len() && record_prefix(#[trigger] records[i], layout) == bucket
                ==> filed_under(records, layout, bucket).contains(
                record_suffix(records[i], layout),
            ),
        forall|k: int|
            0 <= k < filed_under(records, layout, bucket).len() ==> is_suffix_for(
                records,
                layout,
                bucket,
                #[trigger] filed_under(records, layout, bucket)[k],
            ),
    decreases records.len(),
{
    if records.len() > 0 {
        let earlier = records.drop_last();
        let before = filed_under(earlier, layout, bucket);
        let all = filed_under(records, layout, bucket);
        lemma_filed_under_holds(earlier, layout, bucket);
        assert forall|i: int|
            0 <= i < records.len() && record_prefix(
                #[trigger] records[i],
                layout,
            ) == bucket implies all.contains(record_suffix(records[i], layout)) by {
            if i < earlier.len() {
                assert(earlier[i] == records[i]);
                let at = choose|at: int|
                    0 <= at < before.len() && before[at] == record_suffix(records[i], layout);
                assert(all[at] == before[at]);
            } else {
                assert(all[before.len() as int] == record_suffix(records[i], layout));
            }
        }
        assert forall|k: int| 0 <= k < all.len() implies is_suffix_for(
            records,
            layout,
            bucket,
            #[trigger] all[k],
        ) by {
            if k < before.len() {
                assert(all[k] == before[k]);
                assert(is_suffix_for(earlier, layout, bucket, before[k]));
                let i = choose|i: int|
                    0 <= i < earlier.len() && record_prefix(#[trigger] earlier[i], layout)
                        == bucket && record_suffix(earlier[i], layout) == before[k];
                assert(records[i] == earlier[i]);
            } else {
                assert(records[records.len() - 1] == records.last());
            }
        }
    }
}

/// What the splitter files, the consumer finds: after a run over an aligned cover of
/// well-formed input, every record of the input is a record of the layout, and a search
/// of the bucket file that its prefix names finds its suffix.
pub proof fn lemma_consumer_finds_every_record(
    data: Seq<u8>,
    layout: RecordLayout,
    blocks: Seq<Block>,
    i: int,
)
    requires
        layout.wf(),
        is_aligned_cover(data, blocks),
        all_well_formed(data, layout),
        forall|k: int|
            0 <= k < blocks.len() ==> (#[trigger] blocks[k]).end - blocks[k].start <= usize::MAX,
        0 <= i < records(data).len(),
    ensures
        is_record(records(data)[i], layout),
        holds_suffix(
            bucket_file(
                run_bucket(data, layout, blocks, record_prefix(records(data)[i], layout)),
            ),
            record_suffix(records(data)[i], layout),
        ),
{
    let all = records(data);
    let bucket = record_prefix(all[i], layout);
    let lines = filed_under(all, layout, bucket);
    lemma_run_files_suffixes_by_prefix(data, layout, blocks, bucket);
    lemma_filed_under_holds(all, layout, bucket);
    lemma_starts_below(data, data.len() as int);
    layout.lemma_wf();
    assert forall|n: int| 0 <= n < all.len() implies is_one_line(#[trigger] all[n]) && all[n].len()
        == layout.width() by {
        lemma_line_end(data, record_starts(data)[n]);
        assert(well_formed_at(data, layout, record_starts(data)[n]));
    }
    assert(is_record(all[i], layout)) by {
        lemma_line_end_is(all[i], 0, all[i].len() as int);
    }
    assert forall|k: int| 0 <= k < lines.len() implies is_one_line(#[trigger] lines[k]) by {
        assert(is_suffix_for(all, layout, bucket, lines[k]));
        let n = choose|n: int|
            0 <= n < all.len() && record_prefix(#[trigger] all[n], layout) == bucket
                && record_suffix(all[n], layout) == lines[k];
        assert(is_one_line(all[n]));
        assert forall|b: int| 0 <= b < lines[k].len() implies lines[k][b] != TERMINATOR by {
            assert(lines[k][b] == all[n][layout.prefix() + b]);
        }
    }
    lemma_bucket_file_keeps_lines(lines);
    let at = choose|at: int| 0 <= at < lines.len() && lines[at] == record_suffix(all[i], layout);
    assert(records(bucket_file(lines))[at] == record_suffix(all[i], layout));
}

} // verus!
