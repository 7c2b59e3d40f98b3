//! The capacity planner: from a memory budget and a worker count to the size of a block.

use crate::error::ConfigurationError;
use vstd::prelude::*;

verus! {

/// Bytes in one gibibyte.
pub const GIBIBYTE: u64 = 1073741824;

/// The memory budget that is taken where none is given, in gibibytes.
pub const DEFAULT_MEMORY_GIB: u64 = 4;

/// How full the last wave has to be, in percent of the worker count, for the block size
/// to be left as it is.
pub const DEFAULT_MIN_FILL_PERCENT: u64 = 80;

/// What a run is given: how many bytes the blocks in work may take together, how many
/// workers run at a time, and how full the last wave has to be.
#[derive(Clone, Copy, Debug, PartialEq, Eq, Structural)]
pub struct Configuration {
    pub memory_budget: u64,
    pub workers: u64,
    pub min_fill_percent: u64,
}

/// `a / b`, rounded up.
pub open spec fn ceil_div(a: int, b: int) -> int {
    if a % b == 0 {
        a / b
    } else {
        a / b + 1
    }
}

/// The last wave is short of the fill asked for: it holds some blocks, but fewer than
/// `min_fill_percent` of a hundred workers' worth.
pub open spec fn is_underfilled(last_wave: int, workers: int, min_fill_percent: int) -> bool {
    last_wave != 0 && last_wave * 100 < min_fill_percent * workers
}

/// The block size after the last wave is filled up: where the block count that the first
/// size gives leaves the last wave underfilled, the file is divided by the next multiple
/// of the worker count.
pub open spec fn balanced_block_size(
    first_size: int,
    workers: int,
    min_fill_percent: int,
    file_size: int,
) -> int {
    let count = ceil_div(file_size, first_size);
    let last_wave = count % workers;
    if is_underfilled(last_wave, workers, min_fill_percent) {
        file_size / (count - last_wave + workers)
    } else {
        first_size
    }
}

/// The block size after the clamp: where one wave of blocks would be larger than the
/// file, the file and one byte are shared out among the workers.
pub open spec fn clamped_block_size(size: int, workers: int, file_size: int) -> int {
    if size * workers > file_size {
        (file_size + 1) / workers
    } else {
        size
    }
}

/// The block size for a file: the budget shared among the workers, balanced, clamped.
pub open spec fn planned_block_size(
    memory_budget: int,
    workers: int,
    min_fill_percent: int,
    file_size: int,
) -> int {
    clamped_block_size(
        balanced_block_size(memory_budget / workers, workers, min_fill_percent, file_size),
        workers,
        file_size,
    )
}

/// A quotient, taken back times its divisor, does not exceed the dividend.
proof fn lemma_quotient_fits(a: int, b: int)
    requires
        0 <= a,
        0 < b,
    ensures
        0 <= a / b,
        (a / b) * b <= a,
        0 <= a % b < b,
        a == (a / b) * b + a % b,
{
    vstd::arithmetic::div_mod::lemma_fundamental_div_mod(a, b);
    vstd::arithmetic::div_mod::lemma_mod_bound(a, b);
    vstd::arithmetic::div_mod::lemma_div_pos_is_pos(a, b);
    assert(b * (a / b) == (a / b) * b) by (nonlinear_arith);
}

/// A dividend that does not exceed `bound` times the divisor has a quotient of `bound`
/// at most.
proof fn lemma_quotient_bounded(a: int, b: int, bound: int)
    requires
        0 <= a,
        0 < b,
        a <= bound * b,
    ensures
        a / b <= bound,
{
    lemma_quotient_fits(a, b);
    assert(a / b <= bound) by (nonlinear_arith)
        requires
            0 < b,
            (a / b) * b <= a,
            a <= bound * b,
    ;
}

/// The block count that `ceil_div` gives holds the whole file.
proof fn lemma_ceil_div_covers(a: int, b: int)
    requires
        0 <= a,
        0 < b,
    ensures
        0 <= ceil_div(a, b),
        a <= ceil_div(a, b) * b,
{
    lemma_quotient_fits(a, b);
    assert((a / b + 1) * b == (a / b) * b + b) by (nonlinear_arith);
}

/// One wave of blocks never takes more than the memory budget: the planned block size
/// times the worker count is the budget at most.
pub proof fn lemma_block_size_within_budget(
    memory_budget: int,
    workers: int,
    min_fill_percent: int,
    file_size: int,
)
    requires
        0 < workers <= memory_budget,
        0 <= file_size,
    ensures
        0 <= planned_block_size(memory_budget, workers, min_fill_percent, file_size),
        planned_block_size(memory_budget, workers, min_fill_percent, file_size) * workers
            <= memory_budget,
        balanced_block_size(memory_budget / workers, workers, min_fill_percent, file_size)
            <= memory_budget / workers,
        planned_block_size(memory_budget, workers, min_fill_percent, file_size) <= memory_budget
            / workers,
{
    let first = memory_budget / workers;
    lemma_quotient_fits(memory_budget, workers);
    assert(first >= 1) by {
        if first <= 0 {
            assert(first * workers == 0) by (nonlinear_arith)
                requires
                    first == 0,
            ;
        }
    }
    let count = ceil_div(file_size, first);
    lemma_ceil_div_covers(file_size, first);
    let last_wave = count % workers;
    lemma_quotient_fits(count, workers);
    let balanced = balanced_block_size(first, workers, min_fill_percent, file_size);
    assert(0 <= balanced <= first) by {
        if is_underfilled(last_wave, workers, min_fill_percent) {
            let more = count - last_wave + workers;
            assert(file_size <= first * more) by (nonlinear_arith)
                requires
                    file_size <= count * first,
                    count < more,
                    0 < first,
            ;
            lemma_quotient_bounded(file_size, more, first);
            lemma_quotient_fits(file_size, more);
        }
    }
    assert(balanced * workers <= memory_budget) by (nonlinear_arith)
        requires
            0 <= balanced <= first,
            0 < workers,
            first * workers <= memory_budget,
    ;
    if balanced * workers > file_size {
        let clamped = (file_size + 1) / workers;
        lemma_quotient_fits(file_size + 1, workers);
        lemma_quotient_bounded(file_size + 1, workers, balanced);
    }
}

/// The configuration for the arguments of a run: the memory budget in gibibytes, or the
/// default where none is given, and the worker count, or `available` where none is given.
/// A budget that cannot be counted in bytes is refused.
pub open spec fn resolved(memory_gib: Option<u64>, workers: Option<u64>, available: u64) -> Result<
    Configuration,
    ConfigurationError,
> {
    let gibibytes = match memory_gib {
        Some(given) => given,
        None => DEFAULT_MEMORY_GIB,
    };
    if gibibytes * GIBIBYTE > u64::MAX {
        Err(ConfigurationError::BudgetOverflow)
    } else {
        Ok(
            Configuration {
                memory_budget: (gibibytes * GIBIBYTE) as u64,
                workers: match workers {
                    Some(given) => given,
                    None => available,
                },
                min_fill_percent: DEFAULT_MIN_FILL_PERCENT,
            },
        )
    }
}

/// Calls `num_cpus::get`, which counts the logical processors that this process may run
/// on. The count differs from machine to machine, so the contract claims nothing of it.
#[verifier::external_body]
fn logical_processors() -> (count: usize) {
    num_cpus::get()
}

impl Configuration {
    /// The configuration for the arguments of a run, with `available` workers where no
    /// worker count is given.
    pub fn resolve(memory_gib: Option<u64>, workers: Option<u64>, available: u64) -> (result:
        Result<Configuration, ConfigurationError>)
        ensures
            result == resolved(memory_gib, workers, available),
    {
        let gibibytes = match memory_gib {
            Some(given) => given,
            None => DEFAULT_MEMORY_GIB,
        };
        match gibibytes.checked_mul(GIBIBYTE) {
            None => Err(ConfigurationError::BudgetOverflow),
            Some(memory_budget) => Ok(
                Configuration {
                    memory_budget,
                    workers: match workers {
                        Some(given) => given,
                        None => available,
                    },
                    min_fill_percent: DEFAULT_MIN_FILL_PERCENT,
                },
            ),
        }
    }

    /// The configuration for the arguments of a run, with one worker for each logical
    /// processor where no worker count is given.
    pub fn detect(memory_gib: Option<u64>, workers: Option<u64>) -> (result: Result<
        Configuration,
        ConfigurationError,
    >)
        ensures
            exists|available: u64| result == resolved(memory_gib, workers, available),
            workers is Some ==> result == resolved(memory_gib, workers, 0),
    {
        let available = match workers {
            Some(_) => 0,
            None => logical_processors() as u64,
        };
        Configuration::resolve(memory_gib, workers, available)
    }

    /// The size of a block for a file of `file_size` bytes. A run without workers, or
    /// with less than a byte of budget for each, is refused.
    pub fn block_size(&self, file_size: u64) -> (result: Result<u64, ConfigurationError>)
        ensures
            result is Err <==> self.workers == 0 || self.memory_budget < self.workers,
            result matches Err(error) ==> error == if self.workers == 0 {
                ConfigurationError::NoWorkers
            } else {
                ConfigurationError::BudgetTooSmall
            },
            result matches Ok(size) ==> size == planned_block_size(
                self.memory_budget as int,
                self.workers as int,
                self.min_fill_percent as int,
                file_size as int,
            ) && size * self.workers <= self.memory_budget,
    {
        if self.workers == 0 {
            return Err(ConfigurationError::NoWorkers);
        }
        if self.memory_budget < self.workers {
            return Err(ConfigurationError::BudgetTooSmall);
        }
        let first = self.memory_budget / self.workers;
        proof {
            lemma_block_size_within_budget(
                self.memory_budget as int,
                self.workers as int,
                self.min_fill_percent as int,
                file_size as int,
            );
            lemma_quotient_fits(self.memory_budget as int, self.workers as int);
            if first == 0 {
                assert(first * self.workers == 0) by (nonlinear_arith)
                    requires
                        first == 0,
                ;
            }
        }
        let workers = self.workers as u128;
        let whole = file_size / first;
        let count: u128 = if file_size % first == 0 {
            whole as u128
        } else {
            whole as u128 + 1
        };
        let last_wave = count % workers;
        proof {
            lemma_quotient_fits(count as int, workers as int);
            assert(last_wave * 100 <= u128::MAX);
            assert(self.min_fill_percent * workers <= u128::MAX) by (nonlinear_arith)
                requires
                    self.min_fill_percent <= u64::MAX,
                    workers <= u64::MAX,
            ;
        }
        let mut size = first;
        if last_wave != 0 && last_wave * 100 < (self.min_fill_percent as u128) * workers {
            let balanced = file_size as u128 / (count - last_wave + workers);
            size = balanced as u64;
        }
        proof {
            assert(size * workers <= u128::MAX) by (nonlinear_arith)
                requires
                    size <= u64::MAX,
                    workers <= u64::MAX,
            ;
        }
        if (size as u128) * workers > file_size as u128 {
            let clamped = (file_size as u128 + 1) / workers;
            size = clamped as u64;
        }
        Ok(size)
    }
}

} // verus!
