use std::collections::BTreeMap;

use split_hashes::capacity::Configuration;
use split_hashes::error::BoundaryError;
use split_hashes::lookup::{bucket_contains, hash_password, locate};
use split_hashes::planner::{plan_blocks, Block};
use split_hashes::record::{bucket_path, RecordLayout};
use split_hashes::waves::plan_waves;
use split_hashes::writer::{prefix_of, suffix_of, BucketWriter};

type Buckets = BTreeMap<(Vec<u8>, Vec<u8>), Vec<u8>>;

fn input(prefixes: &[&str]) -> Vec<u8> {
    let mut data = Vec::new();
    for (serial, prefix) in prefixes.iter().enumerate() {
        data.extend_from_slice(format!("{}{:036X}\n", prefix, serial).as_bytes());
    }
    data
}

fn sorted_input(records: usize) -> Vec<u8> {
    let mut data = Vec::new();
    for i in 0..records {
        data.extend_from_slice(format!("{:04X}{:036X}\n", i / 5, i).as_bytes());
    }
    data
}

/// Carries out the writes of one block on buckets held in memory; returns how often a
/// bucket was opened.
fn write_block(data: &[u8], block: Block, layout: RecordLayout, buckets: &mut Buckets) -> usize {
    let bytes = &data[block.start as usize..block.end as usize];
    let mut writer = BucketWriter::new(bytes, layout);
    let mut current: Option<(Vec<u8>, Vec<u8>)> = None;
    let mut opened = 0;
    while let Some(append) = writer.step().unwrap() {
        if append.opens {
            let (directory, file) = bucket_path(prefix_of(bytes, layout, append.start).unwrap());
            current = Some((directory.to_vec(), file.to_vec()));
            opened += 1;
        }
        let lines = buckets.entry(current.clone().unwrap()).or_default();
        lines.extend_from_slice(suffix_of(bytes, layout, append.start).unwrap());
        lines.push(b'\n');
    }
    opened
}

fn run(data: &[u8], block_size: u64, workers: u64) -> Buckets {
    let layout = RecordLayout::hex_digest();
    let blocks = plan_blocks(data, block_size, 150).unwrap();
    let mut buckets = Buckets::new();
    for wave in plan_waves(blocks.len(), workers).unwrap() {
        for block in &blocks[wave.first..wave.first + wave.len] {
            write_block(data, *block, layout, &mut buckets);
        }
    }
    buckets
}

fn line_count(bucket: &[u8]) -> usize {
    bucket.iter().filter(|byte| **byte == b'\n').count()
}

fn key(directory: &str, file: &str) -> (Vec<u8>, Vec<u8>) {
    (directory.as_bytes().to_vec(), file.as_bytes().to_vec())
}

#[test]
fn five_records_in_one_block_fill_three_buckets() {
    let data = input(&["AAAA", "AAAA", "AABB", "FFFF", "FFFF"]);
    let layout = RecordLayout::hex_digest();
    let blocks = plan_blocks(&data, data.len() as u64, 150).unwrap();
    assert_eq!(blocks, vec![Block { start: 0, end: 205 }]);
    let waves = plan_waves(blocks.len(), 1).unwrap();
    assert_eq!(waves.len(), 1);
    let mut buckets = Buckets::new();
    let opened = write_block(&data, blocks[0], layout, &mut buckets);
    assert_eq!(opened, 3);
    assert_eq!(buckets.len(), 3);
    assert_eq!(line_count(&buckets[&key("AA", "AA")]), 2);
    assert_eq!(line_count(&buckets[&key("AA", "BB")]), 1);
    assert_eq!(line_count(&buckets[&key("FF", "FF")]), 2);
    assert_eq!(
        buckets[&key("AA", "AA")],
        format!("{:036X}\n{:036X}\n", 0, 1).into_bytes()
    );
    assert_eq!(buckets[&key("AA", "BB")], format!("{:036X}\n", 2).into_bytes());
    assert_eq!(
        buckets[&key("FF", "FF")],
        format!("{:036X}\n{:036X}\n", 3, 4).into_bytes()
    );
}

#[test]
fn every_suffix_is_in_the_bucket_of_its_prefix_alone() {
    let data = sorted_input(300);
    for block_size in [0u64, 41, 100, 1000, 100_000] {
        let buckets = run(&data, block_size, 4);
        for i in 0..300usize {
            let prefix = format!("{:04X}", i / 5);
            let suffix = format!("{:036X}", i).into_bytes();
            for ((directory, file), lines) in &buckets {
                let own = [directory.as_slice(), file.as_slice()].concat() == prefix.as_bytes();
                assert_eq!(bucket_contains(lines, &suffix), own);
            }
        }
    }
}

#[test]
fn lines_in_all_buckets_are_as_many_as_the_records() {
    let data = sorted_input(257);
    for block_size in [0u64, 1, 40, 41, 333, 5000, 1 << 20] {
        for workers in [1u64, 3, 8] {
            let buckets = run(&data, block_size, workers);
            let total: usize = buckets.values().map(|lines| line_count(lines)).sum();
            assert_eq!(total, 257);
            assert_eq!(buckets.len(), 52);
        }
    }
}

#[test]
fn buckets_do_not_depend_on_the_block_size() {
    let data = sorted_input(120);
    let whole = run(&data, 1 << 20, 1);
    for block_size in [0u64, 17, 41, 82, 500] {
        assert_eq!(run(&data, block_size, 4), whole);
    }
}

#[test]
fn sorted_block_opens_each_bucket_once() {
    let data = sorted_input(100);
    let layout = RecordLayout::hex_digest();
    let mut buckets = Buckets::new();
    let opened = write_block(&data, Block { start: 0, end: data.len() as u64 }, layout, &mut buckets);
    assert_eq!(opened, 20);
    assert_eq!(buckets.len(), 20);
}

#[test]
fn blocks_end_at_terminators_past_the_nominal_cut() {
    let data = sorted_input(10);
    let blocks = plan_blocks(&data, 100, 150).unwrap();
    assert_eq!(
        blocks,
        vec![
            Block { start: 0, end: 123 },
            Block { start: 123, end: 246 },
            Block { start: 246, end: 369 },
            Block { start: 369, end: 410 },
        ]
    );
    for block in &blocks[..3] {
        assert!(block.end > block.start + 100);
        assert_eq!(data[block.end as usize - 1], b'\n');
        assert_eq!(block.end % 41, 0);
    }
}

#[test]
fn window_shorter_than_a_line_stops_the_run() {
    let data = sorted_input(10);
    assert_eq!(plan_blocks(&data, 100, 22), Err(BoundaryError { offset: 100 }));
    assert_eq!(plan_blocks(&data, 100, 23).map(|blocks| blocks.len()), Ok(4));
}

#[test]
fn four_workers_get_a_multiple_of_four_blocks() {
    let records = 1000u64;
    let file_size = records * 41;
    let configuration = Configuration { memory_budget: 40_000, workers: 4, min_fill_percent: 80 };
    // 41000 / 10000 rounds up to 5 blocks, which would leave one block in the last wave;
    // 5 - 1 + 4 = 8 blocks are made instead.
    let size = configuration.block_size(file_size).unwrap();
    assert_eq!(size, 41_000 / 8);
    assert_eq!(size, 5125);
    assert_eq!((file_size + size - 1) / size, 8);
    assert!(size * 4 <= 40_000);
}

#[test]
fn known_password_is_found_after_a_run() {
    let mut records: Vec<Vec<u8>> = ["password", "hunter2", "abc", "letmein", "qwerty"]
        .iter()
        .map(|password| hash_password(password).unwrap())
        .collect();
    records.sort();
    let mut data = Vec::new();
    for record in &records {
        data.extend_from_slice(record);
        data.push(b'\n');
    }
    let buckets = run(&data, 50, 2);
    let layout = RecordLayout::hex_digest();
    for (password, known) in [("password", true), ("abc", true), ("Password", false), ("", false)] {
        let record = hash_password(password).unwrap();
        let lookup = locate(&record, layout).unwrap();
        let found = match buckets.get(&(lookup.directory.to_vec(), lookup.file.to_vec())) {
            Some(lines) => bucket_contains(lines, lookup.suffix),
            None => false,
        };
        assert_eq!(found, known);
    }
}
