use split_hashes::lookup::{bucket_contains, hash_password, locate, to_ascii_upper};
use split_hashes::record::RecordLayout;

#[test]
fn password_is_filed_under_its_digest_in_upper_case() {
    assert_eq!(
        hash_password("password"),
        Some(b"5BAA61E4C9B93F3F0682250B6CF8331B7EE68FD8".to_vec())
    );
    assert_eq!(hash_password("abc"), Some(b"A9993E364706816ABA3E25717850C26C9CD0D89D".to_vec()));
    assert_eq!(hash_password(""), Some(b"DA39A3EE5E6B4B0D3255BFEF95601890AFD80709".to_vec()));
}

#[test]
fn digest_is_taken_of_the_bytes_of_the_text() {
    assert_eq!(
        hash_password("p\u{e4}ssw\u{f6}rd"),
        Some(b"F517DDF1D32A112FF1AD55C66D1B12CB38E7E8F7".to_vec())
    );
    assert_eq!(
        hash_password("hunter2"),
        Some(b"F3BBBD66A63D4BF1747940578EC3D0103530E21D".to_vec())
    );
}

#[test]
fn letters_are_raised_and_other_bytes_kept() {
    assert_eq!(to_ascii_upper(b"0123456789abcdef"), b"0123456789ABCDEF".to_vec());
    assert_eq!(to_ascii_upper(b"az`{AZ@[\n\xe4\xff"), b"AZ`{AZ@[\n\xe4\xff".to_vec());
    assert_eq!(to_ascii_upper(b""), Vec::<u8>::new());
}

#[test]
fn record_is_split_in_directory_file_and_suffix() {
    let record = hash_password("password").unwrap();
    let lookup = locate(&record, RecordLayout::hex_digest()).unwrap();
    assert_eq!(lookup.directory, b"5B");
    assert_eq!(lookup.file, b"AA");
    assert_eq!(lookup.suffix, b"61E4C9B93F3F0682250B6CF8331B7EE68FD8");
}

#[test]
fn bytes_of_another_length_are_no_record() {
    let layout = RecordLayout::hex_digest();
    assert!(locate(b"5BAA61E4C9B93F3F0682250B6CF8331B7EE68FD", layout).is_none());
    assert!(locate(b"5BAA61E4C9B93F3F0682250B6CF8331B7EE68FD80", layout).is_none());
    assert!(locate(b"", layout).is_none());
    assert!(locate(b"abcde", RecordLayout::new(2, 3).unwrap()).is_some());
}

#[test]
fn bytes_with_a_terminator_are_no_record() {
    let layout = RecordLayout::hex_digest();
    assert!(locate(b"5BAA61E4C9B93F3F0682250B6CF8331B7EE68FD\n", layout).is_none());
    assert!(locate(b"5B\nA61E4C9B93F3F0682250B6CF8331B7EE68FD8", layout).is_none());
}

#[test]
fn suffix_is_found_among_the_lines_of_its_bucket() {
    let bucket = b"0000AAAA\n61E4C9B9\nFFFF0000\n";
    assert!(bucket_contains(bucket, b"0000AAAA"));
    assert!(bucket_contains(bucket, b"61E4C9B9"));
    assert!(bucket_contains(bucket, b"FFFF0000"));
    assert!(!bucket_contains(bucket, b"61E4C9B8"));
}

#[test]
fn suffix_has_to_be_a_whole_line() {
    let bucket = b"0000AAAA\n61E4C9B9\nFFFF0000\n";
    assert!(!bucket_contains(bucket, b"61E4C9B"));
    assert!(!bucket_contains(bucket, b"1E4C9B9"));
    assert!(!bucket_contains(bucket, b"61E4C9B9\n"));
    assert!(!bucket_contains(bucket, b"0000AAAA\n61E4C9B9"));
    assert!(!bucket_contains(bucket, b""));
}

#[test]
fn last_line_counts_without_its_terminator() {
    assert!(bucket_contains(b"0000AAAA\n61E4C9B9", b"61E4C9B9"));
    assert!(bucket_contains(b"61E4C9B9", b"61E4C9B9"));
}

#[test]
fn empty_bucket_holds_nothing() {
    assert!(!bucket_contains(b"", b"61E4C9B9"));
    assert!(!bucket_contains(b"", b""));
}

#[test]
fn empty_line_is_found_only_where_there_is_one() {
    assert!(bucket_contains(b"\n", b""));
    assert!(bucket_contains(b"ab\n\ncd\n", b""));
    assert!(!bucket_contains(b"ab\ncd\n", b""));
}

#[test]
fn record_of_a_password_is_forty_digits_in_upper_case() {
    for password in ["", "password", "correct horse battery staple", "\n", "\u{1F525}"] {
        let record = hash_password(password).unwrap();
        assert_eq!(record.len(), 40);
        assert!(record.iter().all(|byte| b"0123456789ABCDEF".contains(byte)));
        assert!(locate(&record, RecordLayout::hex_digest()).is_some());
    }
}
