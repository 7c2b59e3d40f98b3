use split_hashes::capacity::{
    Configuration, DEFAULT_MEMORY_GIB, DEFAULT_MIN_FILL_PERCENT, GIBIBYTE,
};
use split_hashes::error::ConfigurationError;

fn config(memory_budget: u64, workers: u64) -> Configuration {
    Configuration { memory_budget, workers, min_fill_percent: 80 }
}

#[test]
fn budget_is_shared_among_the_workers() {
    assert_eq!(config(4000, 4).block_size(1_000_000), Ok(1000));
    assert_eq!(config(4001, 4).block_size(1_000_000), Ok(1000));
    assert_eq!(config(4 * GIBIBYTE, 8).block_size(1 << 40), Ok(GIBIBYTE / 2));
}

#[test]
fn underfilled_last_wave_is_filled_up() {
    // 5600 / 1000 rounds up to 6 blocks; 6 mod 4 = 2, and 2/4 is less than 80%:
    // 6 - 2 + 4 = 8 blocks of 5600 / 8 bytes.
    assert_eq!(config(4000, 4).block_size(5600), Ok(700));
    // 5 blocks; 5 mod 4 = 1: 8 blocks of 4500 / 8 bytes, rounded down.
    assert_eq!(config(4000, 4).block_size(4500), Ok(562));
}

#[test]
fn balanced_block_count_is_a_multiple_of_the_workers() {
    let size = config(4000, 4).block_size(5600).unwrap();
    let count = (5600 + size - 1) / size;
    assert_eq!(count, 8);
    assert_eq!(count % 4, 0);
}

#[test]
fn full_enough_last_wave_is_left_alone() {
    // 10 blocks for 10 workers: the last wave is full.
    assert_eq!(config(1000, 10).block_size(1000), Ok(100));
    // 19 blocks for 10 workers: 9 of 10 is 90%.
    assert_eq!(config(1000, 10).block_size(1900), Ok(100));
    // 18 blocks for 10 workers: 8 of 10 is not less than 80%.
    assert_eq!(config(1000, 10).block_size(1800), Ok(100));
    // 17 blocks for 10 workers: 70% is, so 20 blocks are made.
    assert_eq!(config(1000, 10).block_size(1700), Ok(85));
}

#[test]
fn fill_threshold_can_be_set() {
    let lenient = Configuration { memory_budget: 1000, workers: 10, min_fill_percent: 50 };
    assert_eq!(lenient.block_size(1700), Ok(100));
    assert_eq!(lenient.block_size(1400), Ok(70));
    let never = Configuration { memory_budget: 1000, workers: 10, min_fill_percent: 0 };
    assert_eq!(never.block_size(1100), Ok(100));
    let always = Configuration { memory_budget: 1000, workers: 10, min_fill_percent: 101 };
    assert_eq!(always.block_size(1900), Ok(95));
}

#[test]
fn oversized_blocks_are_clamped_to_the_file() {
    // 4 blocks of 1000 bytes are more than the file: (3500 + 1) / 4.
    assert_eq!(config(4000, 4).block_size(3500), Ok(875));
    // 9 blocks for 10 workers is full enough, but 10 * 100 is more than the file.
    assert_eq!(config(1000, 10).block_size(850), Ok(85));
    // No block at all: (0 + 1) / 1 and (0 + 1) / 4.
    assert_eq!(config(4000, 1).block_size(0), Ok(1));
    assert_eq!(config(4000, 4).block_size(0), Ok(0));
}

#[test]
fn small_files_are_shared_out_by_the_balancing() {
    // One block for 4 workers is underfilled: the file is divided by 4.
    assert_eq!(config(4000, 4).block_size(100), Ok(25));
    assert_eq!(config(4000, 4).block_size(3), Ok(0));
    assert_eq!(config(4000, 4).block_size(2), Ok(0));
}

#[test]
fn one_wave_never_exceeds_the_budget() {
    for memory_budget in [1u64, 7, 64, 1000, 4096, 1 << 32, u64::MAX] {
        for workers in [1u64, 2, 3, 4, 7, 16, 1000] {
            for file_size in [0u64, 1, 5, 41, 999, 1000, 1001, 123_456, 1 << 33, u64::MAX] {
                for min_fill_percent in [0u64, 50, 80, 100, 200] {
                    let configuration = Configuration { memory_budget, workers, min_fill_percent };
                    match configuration.block_size(file_size) {
                        Ok(size) => {
                            assert!(workers <= memory_budget);
                            assert!(size as u128 * workers as u128 <= memory_budget as u128);
                        }
                        Err(error) => {
                            assert!(memory_budget < workers);
                            assert_eq!(error, ConfigurationError::BudgetTooSmall);
                        }
                    }
                }
            }
        }
    }
}

#[test]
fn run_without_workers_is_refused() {
    assert_eq!(config(4000, 0).block_size(100), Err(ConfigurationError::NoWorkers));
    assert_eq!(config(0, 0).block_size(100), Err(ConfigurationError::NoWorkers));
}

#[test]
fn budget_of_less_than_a_byte_for_each_worker_is_refused() {
    assert_eq!(config(3, 4).block_size(100), Err(ConfigurationError::BudgetTooSmall));
    assert_eq!(config(0, 1).block_size(100), Err(ConfigurationError::BudgetTooSmall));
    assert_eq!(config(4, 4).block_size(100), Ok(1));
}

#[test]
fn extreme_values_do_not_overflow() {
    assert_eq!(config(u64::MAX, 1).block_size(u64::MAX), Ok(u64::MAX));
    assert_eq!(config(u64::MAX, u64::MAX).block_size(u64::MAX), Ok(1));
    assert_eq!(config(u64::MAX, u64::MAX).block_size(u64::MAX - 1), Ok(1));
    // Three blocks of half the budget: the last wave is half full, so four are made.
    assert_eq!(config(u64::MAX, 2).block_size(u64::MAX), Ok(u64::MAX / 4));
    assert_eq!(config(u64::MAX, 2).block_size(u64::MAX - 1), Ok(u64::MAX / 2));
}

#[test]
fn arguments_are_taken_in_gibibytes() {
    assert_eq!(
        Configuration::resolve(Some(2), Some(3), 8),
        Ok(Configuration {
            memory_budget: 2 * GIBIBYTE,
            workers: 3,
            min_fill_percent: DEFAULT_MIN_FILL_PERCENT,
        })
    );
}

#[test]
fn missing_arguments_take_the_defaults() {
    assert_eq!(DEFAULT_MEMORY_GIB, 4);
    assert_eq!(DEFAULT_MIN_FILL_PERCENT, 80);
    assert_eq!(
        Configuration::resolve(None, None, 8),
        Ok(Configuration { memory_budget: 4 * GIBIBYTE, workers: 8, min_fill_percent: 80 })
    );
    assert_eq!(
        Configuration::resolve(None, Some(2), 8),
        Ok(Configuration { memory_budget: 4 * GIBIBYTE, workers: 2, min_fill_percent: 80 })
    );
}

#[test]
fn budget_that_does_not_fit_is_refused() {
    assert_eq!(
        Configuration::resolve(Some(1 << 34), Some(2), 8),
        Err(ConfigurationError::BudgetOverflow)
    );
    assert_eq!(
        Configuration::resolve(Some((1 << 34) - 1), Some(2), 8).map(|c| c.memory_budget),
        Ok(u64::MAX - GIBIBYTE + 1)
    );
}

#[test]
fn detected_configuration_keeps_given_arguments() {
    assert_eq!(Configuration::detect(Some(1), Some(3)), Configuration::resolve(Some(1), Some(3), 0));
    assert_eq!(
        Configuration::detect(Some(1 << 40), None),
        Err(ConfigurationError::BudgetOverflow)
    );
}

#[test]
fn detected_configuration_counts_the_processors() {
    let detected = Configuration::detect(None, None).unwrap();
    assert_eq!(detected.memory_budget, 4 * GIBIBYTE);
    assert_eq!(detected.min_fill_percent, 80);
    assert_eq!(detected.workers, num_cpus::get() as u64);
    assert_eq!(Configuration::detect(None, None), Configuration::resolve(None, None, detected.workers));
}
