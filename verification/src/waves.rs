//! The wave schedule: which blocks are worked on together.

use crate::error::ConfigurationError;
use vstd::prelude::*;

verus! {

/// The blocks `first .. first + len` of the plan, which are worked on at the same time.
#[derive(Clone, Copy, Debug, PartialEq, Eq, Structural)]
pub struct Wave {
    pub first: usize,
    pub len: usize,
}

/// The waves take the blocks in order, none twice and none left out; every wave holds a
/// block and no more blocks than there are workers; every wave but the last is full.
pub open spec fn is_schedule(blocks: int, workers: int, waves: Seq<Wave>) -> bool {
    &&& waves.len() == 0 <==> blocks == 0
    &&& waves.len() > 0 ==> waves[0].first == 0 && waves[waves.len() - 1].first + waves[waves.len()
        - 1].len == blocks
    &&& forall|i: int|
        0 <= i < waves.len() - 1 ==> (#[trigger] waves[i]).first + waves[i].len == waves[i
            + 1].first
    &&& forall|i: int| 0 <= i < waves.len() - 1 ==> (#[trigger] waves[i]).len == workers
    &&& forall|i: int| 0 <= i < waves.len() ==> 1 <= (#[trigger] waves[i]).len <= workers
    &&& forall|i: int| 0 <= i < waves.len() ==> (#[trigger] waves[i]).first == i * workers
}

/// The waves in which `block_count` blocks are worked on by `workers` workers. A run
/// without workers is refused.
pub fn plan_waves(block_count: usize, workers: u64) -> (result: Result<
    Vec<Wave>,
    ConfigurationError,
>)
    ensures
        result is Err <==> workers == 0,
        result matches Err(error) ==> error == ConfigurationError::NoWorkers,
        result matches Ok(waves) ==> is_schedule(block_count as int, workers as int, waves@),
{
    if workers == 0 {
        return Err(ConfigurationError::NoWorkers);
    }
    let mut waves: Vec<Wave> = Vec::new();
    let mut first: usize = 0;
    while first < block_count
        invariant
            0 < workers,
            first <= block_count,
            waves@.len() == 0 <==> first == 0,
            waves@.len() > 0 ==> waves@[0].first == 0 && waves@[waves@.len() - 1].first
                + waves@[waves@.len() - 1].len == first,
            forall|i: int|
                0 <= i < waves@.len() - 1 ==> (#[trigger] waves@[i]).first + waves@[i].len
                    == waves@[i + 1].first,
            forall|i: int| 0 <= i < waves@.len() - 1 ==> (#[trigger] waves@[i]).len == workers,
            forall|i: int| 0 <= i < waves@.len() ==> 1 <= (#[trigger] waves@[i]).len <= workers,
            forall|i: int| 0 <= i < waves@.len() ==> (#[trigger] waves@[i]).first == i * workers,
            first < block_count ==> first == waves@.len() * workers,
        decreases block_count - first,
    {
        let left = block_count - first;
        let len = if left as u64 <= workers {
            left
        } else {
            workers as usize
        };
        let ghost before = waves@;
        proof {
            assert((before.len() + 1) * workers == before.len() * workers + workers)
                by (nonlinear_arith);
            if before.len() > 0 {
                assert((before.len() - 1) * workers + workers == before.len() * workers)
                    by (nonlinear_arith);
                assert(before[before.len() - 1].len == workers);
            }
        }
        waves.push(Wave { first, len });
        first = first + len;
        proof {
            assert forall|i: int| 0 <= i < waves@.len() - 1 implies (#[trigger] waves@[i]).first
                + waves@[i].len == waves@[i + 1].first by {
                if i < before.len() - 1 {
                    assert(before[i].first + before[i].len == before[i + 1].first);
                }
            }
            assert forall|i: int| 0 <= i < waves@.len() - 1 implies (#[trigger] waves@[i]).len
                == workers by {
                if i < before.len() - 1 {
                    assert(before[i].len == workers);
                }
            }
        }
    }
    Ok(waves)
}

} // verus!
