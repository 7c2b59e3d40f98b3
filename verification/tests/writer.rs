use split_hashes::error::InputError;
use split_hashes::record::{bucket_path, equal_bytes, find_line_end, RecordLayout, TERMINATOR};
use split_hashes::writer::{prefix_of, route_block, suffix_of, Append, BucketWriter};

fn record(prefix: &str, serial: u64) -> Vec<u8> {
    format!("{}{:036X}\n", prefix, serial).into_bytes()
}

fn block(prefixes: &[&str]) -> Vec<u8> {
    let mut data = Vec::new();
    for (serial, prefix) in prefixes.iter().enumerate() {
        data.extend_from_slice(&record(prefix, serial as u64));
    }
    data
}

#[test]
fn layout_of_a_digest_is_four_and_thirty_six() {
    let layout = RecordLayout::hex_digest();
    assert_eq!(layout.prefix_len(), 4);
    assert_eq!(layout.suffix_len(), 36);
    assert_eq!(layout.record_len(), 40);
    assert_eq!(TERMINATOR, b'\n');
}

#[test]
fn layout_needs_a_prefix_of_two_bytes() {
    assert!(RecordLayout::new(0, 36).is_none());
    assert!(RecordLayout::new(1, 36).is_none());
    let layout = RecordLayout::new(2, 0).unwrap();
    assert_eq!((layout.prefix_len(), layout.suffix_len(), layout.record_len()), (2, 0, 2));
    assert!(RecordLayout::new(2, usize::MAX - 2).is_none());
    assert!(RecordLayout::new(usize::MAX, 1).is_none());
    assert_eq!(RecordLayout::new(2, usize::MAX - 3).unwrap().record_len(), usize::MAX - 1);
}

#[test]
fn empty_block_has_no_writes() {
    assert_eq!(route_block(b"", RecordLayout::hex_digest()), Ok(vec![]));
}

#[test]
fn bucket_is_opened_when_the_prefix_changes() {
    let data = block(&["AAAA", "AAAA", "AABB", "FFFF", "FFFF"]);
    assert_eq!(
        route_block(&data, RecordLayout::hex_digest()),
        Ok(vec![
            Append { start: 0, opens: true },
            Append { start: 41, opens: false },
            Append { start: 82, opens: true },
            Append { start: 123, opens: true },
            Append { start: 164, opens: false },
        ])
    );
}

#[test]
fn prefix_that_comes_back_is_opened_again() {
    let data = block(&["AAAA", "BBBB", "AAAA"]);
    assert_eq!(
        route_block(&data, RecordLayout::hex_digest()),
        Ok(vec![
            Append { start: 0, opens: true },
            Append { start: 41, opens: true },
            Append { start: 82, opens: true },
        ])
    );
}

#[test]
fn every_record_is_written_once() {
    let prefixes: Vec<String> = (0..200).map(|i| format!("{:04X}", i / 7)).collect();
    let names: Vec<&str> = prefixes.iter().map(|p| p.as_str()).collect();
    let data = block(&names);
    let layout = RecordLayout::hex_digest();
    let appends = route_block(&data, layout).unwrap();
    assert_eq!(appends.len(), 200);
    for (i, append) in appends.iter().enumerate() {
        assert_eq!(append.start, i * 41);
        assert_eq!(prefix_of(&data, layout, append.start).unwrap(), names[i].as_bytes());
        assert_eq!(
            suffix_of(&data, layout, append.start).unwrap(),
            format!("{:036X}", i).as_bytes()
        );
        assert_eq!(append.opens, i % 7 == 0);
    }
    assert_eq!(appends.iter().filter(|a| a.opens).count(), 29);
}

#[test]
fn last_record_may_lack_its_terminator() {
    let mut data = block(&["AAAA", "AAAB"]);
    data.pop();
    assert_eq!(
        route_block(&data, RecordLayout::hex_digest()),
        Ok(vec![Append { start: 0, opens: true }, Append { start: 41, opens: true }])
    );
}

#[test]
fn short_record_is_undersized() {
    let mut data = block(&["AAAA"]);
    data.extend_from_slice(b"AAAB0123\n");
    data.extend_from_slice(&record("AAAC", 3));
    assert_eq!(
        route_block(&data, RecordLayout::hex_digest()),
        Err(InputError::UndersizedRecord { offset: 41 })
    );
}

#[test]
fn empty_line_is_undersized() {
    let mut data = block(&["AAAA", "AAAB"]);
    data.push(b'\n');
    assert_eq!(
        route_block(&data, RecordLayout::hex_digest()),
        Err(InputError::UndersizedRecord { offset: 82 })
    );
    assert_eq!(
        route_block(b"\n", RecordLayout::hex_digest()),
        Err(InputError::UndersizedRecord { offset: 0 })
    );
}

#[test]
fn record_cut_short_by_the_end_is_undersized() {
    let mut data = block(&["AAAA", "AAAB"]);
    data.truncate(70);
    assert_eq!(
        route_block(&data, RecordLayout::hex_digest()),
        Err(InputError::UndersizedRecord { offset: 41 })
    );
}

#[test]
fn long_record_is_malformed() {
    let mut data = block(&["AAAA"]);
    data.extend_from_slice(b"AAAB000000000000000000000000000000000001:17\n");
    assert_eq!(
        route_block(&data, RecordLayout::hex_digest()),
        Err(InputError::MalformedRecord { offset: 41 })
    );
    let mut data = block(&["AAAA"]);
    data.pop();
    data.push(b'0');
    assert_eq!(
        route_block(&data, RecordLayout::hex_digest()),
        Err(InputError::MalformedRecord { offset: 0 })
    );
}

#[test]
fn first_fault_is_the_one_reported() {
    let mut data = block(&["AAAA"]);
    data.extend_from_slice(b"AAAB000000000000000000000000000000000001:17\n");
    data.extend_from_slice(b"AAAC\n");
    assert_eq!(
        route_block(&data, RecordLayout::hex_digest()),
        Err(InputError::MalformedRecord { offset: 41 })
    );
}

#[test]
fn other_layouts_are_routed_alike() {
    let layout = RecordLayout::new(2, 3).unwrap();
    assert_eq!(
        route_block(b"aaxyz\naaxyz\nabxyz\n", layout),
        Ok(vec![
            Append { start: 0, opens: true },
            Append { start: 6, opens: false },
            Append { start: 12, opens: true },
        ])
    );
    assert_eq!(
        route_block(b"aaxyz\naaxy\n", layout),
        Err(InputError::UndersizedRecord { offset: 6 })
    );
}

#[test]
fn walk_hands_out_one_record_at_a_time() {
    let data = block(&["AAAA", "AAAA", "AAAB"]);
    let mut writer = BucketWriter::new(&data, RecordLayout::hex_digest());
    assert_eq!(writer.step(), Ok(Some(Append { start: 0, opens: true })));
    assert_eq!(writer.step(), Ok(Some(Append { start: 41, opens: false })));
    assert_eq!(writer.step(), Ok(Some(Append { start: 82, opens: true })));
    assert_eq!(writer.step(), Ok(None));
    assert_eq!(writer.step(), Ok(None));
}

#[test]
fn walk_stays_before_a_faulty_record() {
    let mut data = block(&["AAAA"]);
    data.extend_from_slice(b"AAAB\n");
    let mut writer = BucketWriter::new(&data, RecordLayout::hex_digest());
    assert_eq!(writer.step(), Ok(Some(Append { start: 0, opens: true })));
    assert_eq!(writer.step(), Err(InputError::UndersizedRecord { offset: 41 }));
    assert_eq!(writer.step(), Err(InputError::UndersizedRecord { offset: 41 }));
}

#[test]
fn walk_gives_the_writes_of_the_block() {
    let data = block(&["0001", "0001", "0002", "00A0", "00A0", "00A0", "FFFF"]);
    let layout = RecordLayout::hex_digest();
    let mut writer = BucketWriter::new(&data, layout);
    let mut appends = Vec::new();
    while let Some(append) = writer.step().unwrap() {
        appends.push(append);
    }
    assert_eq!(Ok(appends), route_block(&data, layout));
}

#[test]
fn prefix_and_suffix_need_a_whole_record() {
    let data = block(&["AAAA"]);
    let layout = RecordLayout::hex_digest();
    assert_eq!(prefix_of(&data, layout, 0), Some(&b"AAAA"[..]));
    assert_eq!(prefix_of(&data, layout, 37), Some(&b"000\n"[..]));
    assert_eq!(prefix_of(&data, layout, 38), None);
    assert_eq!(prefix_of(&data, layout, 1000), None);
    assert_eq!(suffix_of(&data, layout, 0), Some(&data[4..40]));
    assert_eq!(suffix_of(&data, layout, 1), Some(&data[5..41]));
    assert_eq!(suffix_of(&data, layout, 2), None);
    assert_eq!(suffix_of(&data, layout, usize::MAX), None);
}

#[test]
fn prefix_is_split_in_directory_and_file() {
    assert_eq!(bucket_path(b"AABB"), (&b"AA"[..], &b"BB"[..]));
    assert_eq!(bucket_path(b"ABCDE"), (&b"AB"[..], &b"CDE"[..]));
    assert_eq!(bucket_path(b"AB"), (&b"A"[..], &b"B"[..]));
    assert_eq!(bucket_path(b""), (&b""[..], &b""[..]));
}

#[test]
fn line_ends_at_the_next_terminator() {
    let data = b"ab\n\ncd";
    assert_eq!(find_line_end(data, 0), 2);
    assert_eq!(find_line_end(data, 1), 2);
    assert_eq!(find_line_end(data, 2), 2);
    assert_eq!(find_line_end(data, 3), 3);
    assert_eq!(find_line_end(data, 4), 6);
    assert_eq!(find_line_end(data, 6), 6);
    assert_eq!(find_line_end(data, 60), 6);
}

#[test]
fn bytes_are_compared_one_by_one() {
    assert!(equal_bytes(b"", b""));
    assert!(equal_bytes(b"abc", b"abc"));
    assert!(!equal_bytes(b"abc", b"abd"));
    assert!(!equal_bytes(b"abc", b"ab"));
    assert!(!equal_bytes(b"", b"a"));
}
