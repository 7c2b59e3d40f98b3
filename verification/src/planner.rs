//! The block planner: it cuts a file into blocks of a little more than a given size, each
//! cut falling just after a record terminator.

use crate::error::{BoundaryError, ConfigurationError};
use crate::record::{
    lemma_line_end, lemma_line_end_in_subrange, lemma_line_end_is, line_end, RecordLayout,
    TERMINATOR,
};
use vstd::prelude::*;
use vstd::slice::slice_subrange;

verus! {

/// The bytes of the file from `start` up to, not including, `end`.
#[derive(Clone, Copy, Debug, PartialEq, Eq, Structural)]
pub struct Block {
    pub start: u64,
    pub end: u64,
}

/// A stretch of the file that has to be read to place one cut.
#[derive(Clone, Copy, Debug, PartialEq, Eq, Structural)]
pub struct Window {
    pub offset: u64,
    pub len: u64,
}

/// How many bytes a search for a terminator looks at where nothing else is asked for.
pub const DEFAULT_READ_AHEAD: u64 = 150;

/// Whether a read-ahead window of `read_ahead` bytes is longer than a record, so that it
/// holds the terminator of the record in which a search begins.
pub fn check_read_ahead(read_ahead: u64, layout: RecordLayout) -> (result: Result<
    (),
    ConfigurationError,
>)
    ensures
        result is Ok <==> read_ahead > layout.width(),
        result matches Err(error) ==> error == ConfigurationError::ReadAheadTooSmall,
{
    if read_ahead > layout.record_len() as u64 {
        Ok(())
    } else {
        Err(ConfigurationError::ReadAheadTooSmall)
    }
}

/// Where a block ends whose search for a terminator begins at `scan`: just after the
/// first terminator at or after `scan`, if it lies within `read_ahead` bytes.
pub open spec fn cut_after(data: Seq<u8>, scan: int, read_ahead: int) -> Option<int> {
    let stop = line_end(data, scan);
    if stop < data.len() && stop - scan < read_ahead {
        Some(stop + 1)
    } else {
        None
    }
}

/// The blocks of `data` from `cursor` on. While more than `block_size` bytes are left, a
/// block runs from the cursor to the cut found `block_size` bytes further on; what is
/// left at last is one more block. Where a cut cannot be placed, the plan fails with the
/// offset at which the search began.
pub open spec fn plan_from(data: Seq<u8>, cursor: int, block_size: int, read_ahead: int) -> Result<
    Seq<Block>,
    BoundaryError,
>
    decreases data.len() - cursor,
    when 0 <= cursor && 0 <= block_size
{
    if data.len() - cursor > block_size {
        let scan = cursor + block_size;
        match cut_after(data, scan, read_ahead) {
            Some(end) => {
                proof {
                    lemma_line_end(data, scan);
                }
                match plan_from(data, end, block_size, read_ahead) {
                    Ok(rest) => Ok(
                        seq![Block { start: cursor as u64, end: end as u64 }] + rest,
                    ),
                    Err(error) => Err(error),
                }
            },
            None => Err(BoundaryError { offset: scan as u64 }),
        }
    } else {
        Ok(seq![Block { start: cursor as u64, end: data.len() as u64 }])
    }
}

/// The blocks of the whole of `data`.
pub open spec fn plan(data: Seq<u8>, block_size: int, read_ahead: int) -> Result<
    Seq<Block>,
    BoundaryError,
> {
    plan_from(data, 0, block_size, read_ahead)
}

/// The blocks follow one another from `from` to the end of the data without gap or
/// overlap, their starts ascend strictly, and every boundary between two of them stands
/// just after a terminator.
pub open spec fn is_aligned_cover_from(data: Seq<u8>, from: int, blocks: Seq<Block>) -> bool {
    &&& blocks.len() >= 1
    &&& blocks[0].start == from
    &&& blocks[blocks.len() - 1].end == data.len()
    &&& forall|i: int| 0 <= i < blocks.len() ==> (#[trigger] blocks[i]).start <= blocks[i].end
    &&& forall|i: int|
        0 <= i < blocks.len() - 1 ==> (#[trigger] blocks[i]).end == blocks[i + 1].start
    &&& forall|i: int|
        0 <= i < blocks.len() - 1 ==> (#[trigger] blocks[i]).start < blocks[i + 1].start
    &&& forall|i: int|
        0 <= i < blocks.len() - 1 ==> data[(#[trigger] blocks[i]).end - 1] == TERMINATOR
}

/// The blocks cover the whole of the data, from its first byte to its last, in the way
/// that `is_aligned_cover_from` describes.
pub open spec fn is_aligned_cover(data: Seq<u8>, blocks: Seq<Block>) -> bool {
    is_aligned_cover_from(data, 0, blocks)
}

/// Every block but the last holds more than `block_size` bytes and ends within
/// `read_ahead` bytes of that size; the last holds `block_size` bytes at most.
pub open spec fn is_sized(blocks: Seq<Block>, block_size: int, read_ahead: int) -> bool {
    &&& forall|i: int|
        0 <= i < blocks.len() - 1 ==> block_size < (#[trigger] blocks[i]).end - blocks[i].start
            <= block_size + read_ahead
    &&& forall|i: int|
        i == blocks.len() - 1 ==> (#[trigger] blocks[i]).end - blocks[i].start <= block_size
}

/// A plan that succeeds covers the data from the cursor on with aligned blocks of the
/// sizes asked for.
pub proof fn lemma_plan_from_covers(data: Seq<u8>, cursor: int, block_size: int, read_ahead: int)
    requires
        0 <= cursor <= data.len() <= u64::MAX,
        0 <= block_size,
    ensures
        plan_from(data, cursor, block_size, read_ahead) matches Ok(blocks) ==> is_aligned_cover_from(
            data,
            cursor,
            blocks,
        ) && is_sized(blocks, block_size, read_ahead),
    decreases data.len() - cursor,
{
    if data.len() - cursor > block_size {
        let scan = cursor + block_size;
        lemma_line_end(data, scan);
        if let Some(end) = cut_after(data, scan, read_ahead) {
            lemma_plan_from_covers(data, end, block_size, read_ahead);
            if let Ok(rest) = plan_from(data, end, block_size, read_ahead) {
                let first = Block { start: cursor as u64, end: end as u64 };
                let blocks = seq![first] + rest;
                assert(plan_from(data, cursor, block_size, read_ahead) == Ok::<
                    Seq<Block>,
                    BoundaryError,
                >(blocks));
                assert(blocks[0] == first);
                assert forall|i: int| 1 <= i < blocks.len() implies blocks[i] == rest[i - 1] by {}
                assert(is_aligned_cover_from(data, cursor, blocks)) by {
                    assert forall|i: int| 0 <= i < blocks.len() - 1 implies (
                    #[trigger] blocks[i]).end == blocks[i + 1].start by {
                        if i > 0 {
                            assert(rest[i - 1].end == rest[i].start);
                        }
                    }
                    assert forall|i: int| 0 <= i < blocks.len() - 1 implies (
                    #[trigger] blocks[i]).start < blocks[i + 1].start by {
                        if i > 0 {
                            assert(rest[i - 1].start < rest[i].start);
                        }
                    }
                    assert forall|i: int| 0 <= i < blocks.len() - 1 implies data[(
                    #[trigger] blocks[i]).end - 1] == TERMINATOR by {
                        if i > 0 {
                            assert(data[rest[i - 1].end - 1] == TERMINATOR);
                        }
                    }
                    assert forall|i: int| 0 <= i < blocks.len() implies (
                    #[trigger] blocks[i]).start <= blocks[i].end by {
                        if i > 0 {
                            assert(rest[i - 1].start <= rest[i - 1].end);
                        }
                    }
                }
                assert(is_sized(blocks, block_size, read_ahead)) by {
                    assert forall|i: int| 0 <= i < blocks.len() - 1 implies block_size < (
                    #[trigger] blocks[i]).end - blocks[i].start <= block_size + read_ahead by {
                        if i > 0 {
                            assert(block_size < rest[i - 1].end - rest[i - 1].start <= block_size
                                + read_ahead);
                        }
                    }
                    assert forall|i: int| i == blocks.len() - 1 implies (
                    #[trigger] blocks[i]).end - blocks[i].start <= block_size by {
                        assert(rest[i - 1].end - rest[i - 1].start <= block_size);
                    }
                }
            }
        }
    }
}

/// A plan of the whole data that succeeds is an aligned cover of it: the blocks lie end
/// to end from the first byte to the last, in strictly ascending order, and each inner
/// boundary follows a terminator.
pub proof fn lemma_plan_is_aligned_cover(data: Seq<u8>, block_size: int, read_ahead: int)
    requires
        data.len() <= u64::MAX,
        0 <= block_size,
    ensures
        plan(data, block_size, read_ahead) matches Ok(blocks) ==> is_aligned_cover(data, blocks)
            && is_sized(blocks, block_size, read_ahead),
{
    lemma_plan_from_covers(data, 0, block_size, read_ahead);
}

/// Planning is a function of the bytes, the block size and the read-ahead limit: the
/// same input and configuration give the same list of blocks, or the same failure.
pub proof fn lemma_plan_is_deterministic(
    first: Seq<u8>,
    second: Seq<u8>,
    block_size: int,
    read_ahead: int,
)
    requires
        first.len() == second.len(),
        forall|i: int| 0 <= i < first.len() ==> first[i] == second[i],
    ensures
        plan(first, block_size, read_ahead) == plan(second, block_size, read_ahead),
{
    assert(first =~= second);
}

/// A cut that is still to be placed: the block that begins at the cursor ends just after
/// the first terminator that the window holds.
#[derive(Debug)]
pub struct Search {
    file_length: u64,
    block_size: u64,
    read_ahead: u64,
    cursor: u64,
}

/// What the planner asks for next.
#[derive(Debug)]
pub enum PlanStep {
    /// Read the window of this search and place the cut in it.
    Search(Search),
    /// No cut is left to place: this is the last block.
    Last(Block),
}

impl Search {
    /// More than one block size of the file lies beyond the cursor.
    #[verifier::type_invariant]
    pub closed spec fn wf(self) -> bool {
        self.cursor <= self.file_length && self.file_length - self.cursor > self.block_size
    }

    /// Length of the file that is planned.
    pub closed spec fn file_length(self) -> u64 {
        self.file_length
    }

    /// The size that a block has at least.
    pub closed spec fn block_size(self) -> u64 {
        self.block_size
    }

    /// How many bytes a search may look at.
    pub closed spec fn read_ahead(self) -> u64 {
        self.read_ahead
    }

    /// Where the block begins whose end is searched.
    pub closed spec fn cursor(self) -> u64 {
        self.cursor
    }

    /// Where the search begins: one block size past the cursor.
    pub open spec fn scan(self) -> int {
        self.cursor() + self.block_size()
    }

    /// The stretch of the file in which the cut is looked for: `read_ahead` bytes from
    /// the scan position, or as many as the file has left.
    pub open spec fn expected_window(self) -> Window {
        Window {
            offset: self.scan() as u64,
            len: if self.file_length() - self.scan() < self.read_ahead() {
                (self.file_length() - self.scan()) as u64
            } else {
                self.read_ahead()
            },
        }
    }

    /// The stretch of the file to read for this search.
    pub fn window(&self) -> (window: Window)
        ensures
            self.wf(),
            window == self.expected_window(),
            window.offset + window.len <= self.file_length(),
    {
        proof {
            use_type_invariant(self);
        }
        let scan = self.cursor + self.block_size;
        let room = self.file_length - scan;
        Window {
            offset: scan,
            len: if room < self.read_ahead {
                room
            } else {
                self.read_ahead
            },
        }
    }

    /// The bytes of `window` that count for this search: those that lie within the
    /// expected window.
    pub open spec fn seen(self, window: Seq<u8>) -> Seq<u8> {
        if window.len() <= self.expected_window().len {
            window
        } else {
            window.take(self.expected_window().len as int)
        }
    }

    /// Places the cut after the first terminator of the window and says what comes next.
    /// Without a terminator in the window the search fails at its scan position.
    pub fn cut(self, window: &[u8]) -> (result: Result<(Block, PlanStep), BoundaryError>)
        ensures
            self.wf(),
            match result {
                Ok((block, next)) => {
                    &&& line_end(self.seen(window@), 0) < self.seen(window@).len()
                    &&& block.start == self.cursor()
                    &&& block.end == self.scan() + line_end(self.seen(window@), 0) + 1
                    &&& is_step_at(
                        next,
                        self.file_length(),
                        self.block_size(),
                        self.read_ahead(),
                        block.end,
                    )
                },
                Err(error) => {
                    &&& line_end(self.seen(window@), 0) == self.seen(window@).len()
                    &&& error.offset == self.scan()
                },
            },
    {
        proof {
            use_type_invariant(&self);
        }
        let expected = self.window();
        let limit: usize = if (window.len() as u64) < expected.len {
            window.len()
        } else {
            expected.len as usize
        };
        let ghost seen = self.seen(window@);
        assert(seen =~= window@.take(limit as int));
        let mut stop: usize = 0;
        while stop < limit && window[stop] != TERMINATOR
            invariant
                stop <= limit <= window@.len(),
                forall|k: int| 0 <= k < stop ==> window@[k] != TERMINATOR,
            decreases limit - stop,
        {
            stop += 1;
        }
        proof {
            lemma_line_end_is(seen, 0, stop as int);
        }
        if stop < limit {
            let end = expected.offset + stop as u64 + 1;
            let block = Block { start: self.cursor, end };
            Ok((block, step_at(self.file_length, self.block_size, self.read_ahead, end)))
        } else {
            Err(BoundaryError { offset: expected.offset })
        }
    }
}

/// `step` is what the planner asks for when the blocks before `cursor` are placed: a
/// search while more than `block_size` bytes are left, the last block otherwise.
pub open spec fn is_step_at(
    step: PlanStep,
    file_length: u64,
    block_size: u64,
    read_ahead: u64,
    cursor: u64,
) -> bool {
    match step {
        PlanStep::Search(search) => {
            &&& file_length - cursor > block_size
            &&& search.wf()
            &&& search.file_length() == file_length
            &&& search.block_size() == block_size
            &&& search.read_ahead() == read_ahead
            &&& search.cursor() == cursor
        },
        PlanStep::Last(block) => {
            &&& file_length - cursor <= block_size
            &&& block == Block { start: cursor, end: file_length }
        },
    }
}

/// The step at `cursor`, which lies within the file.
fn step_at(file_length: u64, block_size: u64, read_ahead: u64, cursor: u64) -> (step: PlanStep)
    requires
        cursor <= file_length,
    ensures
        is_step_at(step, file_length, block_size, read_ahead, cursor),
{
    if file_length - cursor > block_size {
        PlanStep::Search(Search { file_length, block_size, read_ahead, cursor })
    } else {
        PlanStep::Last(Block { start: cursor, end: file_length })
    }
}

/// The first step of a plan for a file of `file_length` bytes.
pub fn begin(file_length: u64, block_size: u64, read_ahead: u64) -> (step: PlanStep)
    ensures
        is_step_at(step, file_length, block_size, read_ahead, 0),
{
    step_at(file_length, block_size, read_ahead, 0)
}

/// The bytes of the file that lie in the window of a search.
pub open spec fn window_bytes(data: Seq<u8>, search: Search) -> Seq<u8> {
    data.subrange(
        search.expected_window().offset as int,
        search.expected_window().offset + search.expected_window().len,
    )
}

/// A search that is given the bytes of its window places the cut where the plan of the
/// file has it, and fails where the plan fails.
pub proof fn lemma_cut_follows_plan(data: Seq<u8>, search: Search)
    requires
        search.wf(),
        data.len() == search.file_length(),
    ensures
        search.seen(window_bytes(data, search)) == window_bytes(data, search),
        cut_after(data, search.scan(), search.read_ahead() as int) == if line_end(
            window_bytes(data, search),
            0,
        ) < window_bytes(data, search).len() {
            Some(search.scan() + line_end(window_bytes(data, search), 0) + 1)
        } else {
            None
        },
{
    let window = search.expected_window();
    lemma_line_end_in_subrange(data, window.offset as int, window.offset + window.len, 0);
    lemma_line_end(window_bytes(data, search), 0);
    lemma_line_end(data, search.scan());
}

/// The blocks of a file that is held in memory: the plan of its bytes, which is an
/// aligned cover of them, or the offset at which no cut could be placed.
pub fn plan_blocks(data: &[u8], block_size: u64, read_ahead: u64) -> (result: Result<
    Vec<Block>,
    BoundaryError,
>)
    ensures
        match result {
            Ok(blocks) => plan(data@, block_size as int, read_ahead as int) == Ok::<
                Seq<Block>,
                BoundaryError,
            >(blocks@),
            Err(error) => plan(data@, block_size as int, read_ahead as int) == Err::<
                Seq<Block>,
                BoundaryError,
            >(error),
        },
        result matches Ok(blocks) ==> is_aligned_cover(data@, blocks@) && is_sized(
            blocks@,
            block_size as int,
            read_ahead as int,
        ),
{
    let total = data.len();
    let file_length = total as u64;
    let mut blocks: Vec<Block> = Vec::new();
    let mut step = begin(file_length, block_size, read_ahead);
    let ghost mut cursor: int = 0;
    proof {
        lemma_plan_is_aligned_cover(data@, block_size as int, read_ahead as int);
        if let Ok(rest) = plan_from(data@, 0, block_size as int, read_ahead as int) {
            assert(Seq::<Block>::empty() + rest =~= rest);
        }
    }
    loop
        invariant
            total == data@.len(),
            file_length == total,
            0 <= cursor <= file_length,
            is_step_at(step, file_length, block_size, read_ahead, cursor as u64),
            match plan_from(data@, cursor, block_size as int, read_ahead as int) {
                Ok(rest) => plan(data@, block_size as int, read_ahead as int) == Ok::<
                    Seq<Block>,
                    BoundaryError,
                >(blocks@ + rest),
                Err(error) => plan(data@, block_size as int, read_ahead as int) == Err::<
                    Seq<Block>,
                    BoundaryError,
                >(error),
            },
            plan(data@, block_size as int, read_ahead as int) matches Ok(all) ==> is_aligned_cover(
                data@,
                all,
            ) && is_sized(all, block_size as int, read_ahead as int),
        decreases file_length - cursor,
    {
        match step {
            PlanStep::Last(block) => {
                proof {
                    assert(blocks@ + seq![block] =~= blocks@.push(block));
                }
                blocks.push(block);
                return Ok(blocks);
            },
            PlanStep::Search(search) => {
                let window = search.window();
                let bytes = slice_subrange(
                    data,
                    window.offset as usize,
                    (window.offset + window.len) as usize,
                );
                proof {
                    lemma_cut_follows_plan(data@, search);
                    lemma_line_end(bytes@, 0);
                }
                match search.cut(bytes) {
                    Ok((block, next)) => {
                        proof {
                            let rest = plan_from(
                                data@,
                                block.end as int,
                                block_size as int,
                                read_ahead as int,
                            );
                            assert(cut_after(data@, cursor + block_size, read_ahead as int)
                                == Some(block.end as int));
                            if let Ok(tail) = rest {
                                assert(blocks@.push(block) + tail =~= blocks@ + (seq![block]
                                    + tail));
                            }
                            cursor = block.end as int;
                        }
                        blocks.push(block);
                        step = next;
                    },
                    Err(error) => {
                        proof {
                            assert(cut_after(data@, cursor + block_size, read_ahead as int)
                                is None);
                        }
                        return Err(error);
                    },
                }
            },
        }
    }
}

} // verus!
