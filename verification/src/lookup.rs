//! The consumer's side: from a password to the bucket that would hold it, and the search
//! of that bucket for its suffix.

use crate::record::{
    bucket_path, directory_part, equal_bytes, file_part, find_line_end, is_record_start,
    lemma_line_end_is, lemma_next_start, lemma_start_is_listed, line_end, record_at,
    record_starts,
    record_starts_below, records, RecordLayout,
};
use crypto::digest::Digest;
use crypto::sha1::Sha1;
use vstd::prelude::*;
use vstd::slice::slice_subrange;
use vstd::string::StringSliceAdditionalSpecFns;

verus! {

/// The longest message, in bytes, that the digest takes: its length in bits has to fit
/// in 64 bits.
pub const MESSAGE_LIMIT: u64 = 0x2000_0000_0000_0000;

/// The SHA-1 digest of a text, written as hexadecimal digits in lower case.
pub uninterp spec fn sha1_hex(text: Seq<char>) -> Seq<u8>;

/// A hexadecimal digit in lower case.
pub open spec fn is_lower_hex(byte: u8) -> bool {
    0x30 <= byte <= 0x39 || 0x61 <= byte <= 0x66
}

/// Calls `Sha1::new`, `Digest::input_str` and `Digest::result_str` of the crate `crypto`
/// and hands the digest out as bytes. The contract names the digest, and claims of it
/// what the crate's code shows: twenty bytes are written as forty digits, each taken from
/// `0123456789abcdef`. Texts whose length in bits overflows 64 bits are left out, since
/// the crate panics on them.
#[verifier::external_body]
fn sha1_digest(text: &str) -> (digest: Vec<u8>)
    requires
        text.spec_bytes().len() < MESSAGE_LIMIT,
    ensures
        digest@ == sha1_hex(text@),
        digest@.len() == 40,
        forall|i: int| 0 <= i < digest@.len() ==> is_lower_hex(#[trigger] digest@[i]),
{
    let mut hasher = Sha1::new();
    hasher.input_str(text);
    hasher.result_str().into_bytes()
}

/// An ASCII letter in upper case, any other byte as it is.
pub open spec fn ascii_upper(byte: u8) -> u8 {
    if 0x61 <= byte <= 0x7a {
        (byte - 0x20) as u8
    } else {
        byte
    }
}

/// The bytes with every ASCII letter in upper case.
pub fn to_ascii_upper(bytes: &[u8]) -> (upper: Vec<u8>)
    ensures
        upper@.len() == bytes@.len(),
        forall|i: int| 0 <= i < bytes@.len() ==> upper@[i] == ascii_upper(#[trigger] bytes@[i]),
{
    let len = bytes.len();
    let mut upper: Vec<u8> = Vec::with_capacity(len);
    let mut k: usize = 0;
    while k < len
        invariant
            k <= len,
            len == bytes@.len(),
            upper@.len() == k,
            forall|i: int| 0 <= i < k ==> upper@[i] == ascii_upper(#[trigger] bytes@[i]),
        decreases len - k,
    {
        let byte = bytes[k];
        upper.push(
            if 0x61 <= byte && byte <= 0x7a {
                byte - 0x20
            } else {
                byte
            },
        );
        k += 1;
    }
    upper
}

/// The record that stands for a password: its SHA-1 digest in hexadecimal, upper case.
pub open spec fn password_record(password: Seq<char>) -> Seq<u8> {
    Seq::new(sha1_hex(password).len(), |i: int| ascii_upper(sha1_hex(password)[i]))
}

/// A hexadecimal digit in upper case.
pub open spec fn is_upper_hex(byte: u8) -> bool {
    0x30 <= byte <= 0x39 || 0x41 <= byte <= 0x46
}

/// The record under which a password is filed: forty hexadecimal digits in upper case,
/// which are one record of the digest layout. A password too long to be digested has
/// none.
pub fn hash_password(password: &str) -> (record: Option<Vec<u8>>)
    ensures
        record is Some <==> password.spec_bytes().len() < MESSAGE_LIMIT,
        record matches Some(bytes) ==> {
            &&& bytes@ == password_record(password@)
            &&& bytes@.len() == 40
            &&& forall|i: int| 0 <= i < 40 ==> is_upper_hex(#[trigger] bytes@[i])
            &&& line_end(bytes@, 0) == 40
        },
{
    if password.as_bytes().len() as u64 >= MESSAGE_LIMIT {
        return None;
    }
    let digest = sha1_digest(password);
    let upper = to_ascii_upper(digest.as_slice());
    proof {
        assert(upper@ =~= password_record(password@));
        assert forall|i: int| 0 <= i < 40 implies is_upper_hex(#[trigger] upper@[i]) by {
            assert(is_lower_hex(digest@[i]));
        }
        lemma_line_end_is(upper@, 0, 40);
    }
    Some(upper)
}

/// Where a record is looked for: the directory and the file of its bucket, and the
/// suffix that the bucket holds if the record is known.
#[derive(Clone, Copy, Debug)]
pub struct Lookup<'a> {
    pub directory: &'a [u8],
    pub file: &'a [u8],
    pub suffix: &'a [u8],
}

/// The bytes are one record of the layout: as long as the layout says, with no
/// terminator among them.
pub open spec fn is_record(bytes: Seq<u8>, layout: RecordLayout) -> bool {
    bytes.len() == layout.width() && line_end(bytes, 0) == bytes.len()
}

/// Splits a record in the directory and file of its bucket and its suffix. Bytes that are
/// no record of the layout have no bucket.
pub fn locate<'a>(record: &'a [u8], layout: RecordLayout) -> (lookup: Option<Lookup<'a>>)
    ensures
        lookup is Some <==> is_record(record@, layout),
        lookup matches Some(found) ==> {
            &&& found.directory@ == directory_part(record@.subrange(0, layout.prefix()))
            &&& found.file@ == file_part(record@.subrange(0, layout.prefix()))
            &&& found.suffix@ == record@.subrange(layout.prefix(), layout.width())
            &&& found.directory@ + found.file@ + found.suffix@ == record@
        },
{
    let width = layout.record_len();
    let prefix_len = layout.prefix_len();
    proof {
        layout.lemma_wf();
    }
    if record.len() != width || find_line_end(record, 0) != width {
        return None;
    }
    let prefix = slice_subrange(record, 0, prefix_len);
    let suffix = slice_subrange(record, prefix_len, width);
    let (directory, file) = bucket_path(prefix);
    proof {
        assert(directory@ + file@ + suffix@ =~= record@);
    }
    Some(Lookup { directory, file, suffix })
}

/// One of the records of `bucket` is `suffix`.
pub open spec fn holds_suffix(bucket: Seq<u8>, suffix: Seq<u8>) -> bool {
    exists|i: int| 0 <= i < records(bucket).len() && #[trigger] records(bucket)[i] == suffix
}

/// Searches the lines of a bucket, one after the other, for one that is exactly `suffix`.
pub fn bucket_contains(bucket: &[u8], suffix: &[u8]) -> (found: bool)
    ensures
        found == holds_suffix(bucket@, suffix@),
{
    let total = bucket.len();
    let mut start: usize = 0;
    while start < total
        invariant
            start <= total,
            total == bucket@.len(),
            start < total ==> is_record_start(bucket@, start as int),
            forall|i: int|
                0 <= i < record_starts_below(bucket@, start as int).len() ==> record_at(
                    bucket@,
                    #[trigger] record_starts_below(bucket@, start as int)[i],
                ) != suffix@,
        decreases total - start,
    {
        let end = find_line_end(bucket, start);
        proof {
            lemma_next_start(bucket@, start as int);
            lemma_start_is_listed(bucket@, start as int);
        }
        if equal_bytes(slice_subrange(bucket, start, end), suffix) {
            proof {
                let at = record_starts_below(bucket@, start as int).len() as int;
                assert(records(bucket@)[at] == suffix@);
            }
            return true;
        }
        let ghost before = record_starts_below(bucket@, start as int);
        start = if end < total {
            end + 1
        } else {
            end
        };
        proof {
            let now = record_starts_below(bucket@, start as int);
            assert forall|i: int| 0 <= i < now.len() implies record_at(bucket@, #[trigger] now[i])
                != suffix@ by {
                if i < before.len() {
                    assert(now[i] == before[i]);
                }
            }
        }
    }
    proof {
        assert(record_starts_below(bucket@, start as int) == record_starts(bucket@));
        assert forall|i: int| 0 <= i < records(bucket@).len() implies #[trigger] records(
            bucket@,
        )[i] != suffix@ by {
            assert(records(bucket@)[i] == record_at(bucket@, record_starts(bucket@)[i]));
        }
    }
    false
}

} // verus!
