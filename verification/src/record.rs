//! The change record of a file: its size, the digest of its content and
//! the time it was captured at, with the text form it is stored in.

use vstd::prelude::*;
use vstd::slice::slice_subrange;
use vstd::utf8::valid_utf8;
use crate::clock::{current_timestamp, utc_seconds, valid_timestamp};
use crate::hashing::{compute_xxhash, digest_text};
use crate::text::{
    after_first_line, bytes_equal, copy_range, decimal, first_line, is_ascii_bytes,
    is_digit, is_hex_digit, lemma_ascii_is_utf8, lemma_decimal_is_digits,
    lemma_first_line_of_joined, lemma_hex_fixed_shape, next_line, parse_i64, parse_i64_spec,
    parse_u64, parse_u64_spec, push_decimal, push_signed_decimal, signed_body, signed_decimal,
    unsigned_body, utf8_check, NEWLINE,
};

verus! {

/// Why stored metadata could not be read back as a change record.
#[derive(Debug, Clone, Copy, PartialEq, Eq)]
pub enum MetaError {
    /// The metadata is not UTF-8 text.
    NotText,
    /// There is no first line.
    MissingSize,
    /// The first line is not an unsigned 64-bit decimal number.
    InvalidSize,
    /// There is no second line.
    MissingHash,
    /// There is no third line.
    MissingTimestamp,
    /// The third line is not a signed 64-bit decimal number, or names no
    /// moment within the range of timestamps.
    InvalidTimestamp,
}

/// A change record as a mathematical value.
pub struct RecordView {
    /// The size of the file in bytes.
    pub size: nat,
    /// The text of the digest of the file's content.
    pub hash: Seq<u8>,
    /// When the record was captured, in seconds since the epoch.
    pub captured_at: int,
}

/// The change record of one tracked file.
#[derive(Debug, Clone)]
pub struct FileInfo {
    /// The size of the file in bytes.
    pub size: u64,
    /// The text of the digest of the file's content.
    pub hash: Vec<u8>,
    /// When the record was captured, in seconds since the epoch.
    pub time_stamp: i64,
}

impl View for FileInfo {
    type V = RecordView;

    open spec fn view(&self) -> RecordView {
        RecordView {
            size: self.size as nat,
            hash: self.hash@,
            captured_at: self.time_stamp as int,
        }
    }
}

/// Whether two records tell of the same content: the sizes and the digests
/// agree. The times of capture play no part.
pub open spec fn unchanged(a: RecordView, b: RecordView) -> bool {
    a.size == b.size && a.hash == b.hash
}

/// The stored form of a record: its size in decimal, its digest and its
/// time of capture in decimal, each on a line of its own, in that order.
pub open spec fn serialized(r: RecordView) -> Seq<u8> {
    decimal(r.size) + seq![10u8] + r.hash + seq![10u8] + signed_decimal(r.captured_at)
        + seq![10u8]
}

/// The record that stored metadata holds, or why it holds none. Lines
/// after the third are not looked at.
pub open spec fn parsed(text: Seq<u8>) -> Result<RecordView, MetaError> {
    let second = after_first_line(text);
    let third = after_first_line(second);
    if !valid_utf8(text) {
        Err(MetaError::NotText)
    } else if text.len() == 0 {
        Err(MetaError::MissingSize)
    } else if parse_u64_spec(first_line(text)) is None {
        Err(MetaError::InvalidSize)
    } else if second.len() == 0 {
        Err(MetaError::MissingHash)
    } else if third.len() == 0 {
        Err(MetaError::MissingTimestamp)
    } else if parse_i64_spec(first_line(third)) is None {
        Err(MetaError::InvalidTimestamp)
    } else if !valid_timestamp(parse_i64_spec(first_line(third))->0 as int) {
        Err(MetaError::InvalidTimestamp)
    } else {
        Ok(
            RecordView {
                size: parse_u64_spec(first_line(text))->0 as nat,
                hash: first_line(second),
                captured_at: parse_i64_spec(first_line(third))->0 as int,
            },
        )
    }
}

/// The record of a file with the given content, captured at `now`.
pub open spec fn captured(content: Seq<u8>, now: int) -> RecordView {
    RecordView { size: content.len(), hash: digest_text(content), captured_at: now }
}

/// Whether `hash` has the shape of a digest: sixteen lowercase hexadecimal
/// digits.
pub open spec fn is_digest(hash: Seq<u8>) -> bool {
    hash.len() == 16 && forall|i: int| 0 <= i < hash.len() ==> is_hex_digit(#[trigger] hash[i])
}

/// Whether a record can be held: its size fits in 64 bits and its time of
/// capture is within the range of timestamps.
pub open spec fn valid_record(r: RecordView) -> bool {
    r.size <= u64::MAX && valid_timestamp(r.captured_at)
}

impl FileInfo {
    /// Whether the time of capture is within the range of timestamps.
    pub open spec fn wf(&self) -> bool {
        valid_timestamp(self.time_stamp as int)
    }

    /// A record of the given size and digest. Without a time of capture the
    /// record is stamped with the current time.
    pub fn new(size: u64, hash: Vec<u8>, time_stamp: Option<i64>) -> (r: FileInfo)
        requires
            time_stamp matches Some(t) ==> valid_timestamp(t as int),
        ensures
            r.wf(),
            r.size == size,
            r.hash@ == hash@,
            time_stamp matches Some(t) ==> r.time_stamp == t,
    {
        let stamp: i64 = match time_stamp {
            Some(t) => t,
            None => current_timestamp(),
        };
        FileInfo { size, hash, time_stamp: stamp }
    }

    /// The record of a file with the given content, captured at `now`.
    pub fn capture_at(content: &[u8], now: i64) -> (r: FileInfo)
        requires
            valid_timestamp(now as int),
        ensures
            r.wf(),
            r@ == captured(content@, now as int),
    {
        let hash = compute_xxhash(content);
        FileInfo::new(content.len() as u64, hash, Some(now))
    }

    /// The record of a file with the given content, captured now.
    pub fn capture(content: &[u8]) -> (r: FileInfo)
        ensures
            r.wf(),
            r@ == captured(content@, r.time_stamp as int),
    {
        let hash = compute_xxhash(content);
        FileInfo::new(content.len() as u64, hash, None)
    }

    /// Whether `self` and `other` tell of the same content.
    pub fn unchanged(&self, other: &FileInfo) -> (same: bool)
        ensures
            same == unchanged(self@, other@),
    {
        self.size == other.size && bytes_equal(self.hash.as_slice(), other.hash.as_slice())
    }

    /// The stored form of the record.
    pub fn serialize(&self) -> (out: Vec<u8>)
        ensures
            out@ == serialized(self@),
    {
        let mut out: Vec<u8> = Vec::new();
        push_decimal(&mut out, self.size);
        out.push(NEWLINE);
        let mut i: usize = 0;
        let ghost head = out@;
        while i < self.hash.len()
            invariant
                i <= self.hash.len(),
                out@ == head + self.hash@.take(i as int),
            decreases self.hash.len() - i,
        {
            out.push(self.hash[i]);
            assert(out@ =~= head + self.hash@.take(i + 1));
            i += 1;
        }
        assert(self.hash@.take(i as int) =~= self.hash@);
        out.push(NEWLINE);
        push_signed_decimal(&mut out, self.time_stamp);
        out.push(NEWLINE);
        assert(out@ =~= serialized(self@));
        out
    }

    /// Reads stored metadata back as a record.
    pub fn deserialize(text: &[u8]) -> (r: Result<FileInfo, MetaError>)
        ensures
            match parsed(text@) {
                Ok(v) => r is Ok && r->Ok_0@ == v && r->Ok_0.wf(),
                Err(e) => r == Err::<FileInfo, MetaError>(e),
            },
    {
        if !utf8_check(text) {
            return Err(MetaError::NotText);
        }
        assert(text@.skip(0) =~= text@);
        let size_line = match next_line(text, 0) {
            Some(bounds) => bounds,
            None => {
                return Err(MetaError::MissingSize);
            },
        };
        let size: u64 = match parse_u64(slice_subrange(text, size_line.start, size_line.end)) {
            Some(size) => size,
            None => {
                return Err(MetaError::InvalidSize);
            },
        };
        let hash_line = match next_line(text, size_line.next) {
            Some(bounds) => bounds,
            None => {
                return Err(MetaError::MissingHash);
            },
        };
        let stamp_line = match next_line(text, hash_line.next) {
            Some(bounds) => bounds,
            None => {
                return Err(MetaError::MissingTimestamp);
            },
        };
        let seconds: i64 = match parse_i64(slice_subrange(text, stamp_line.start, stamp_line.end)) {
            Some(seconds) => seconds,
            None => {
                return Err(MetaError::InvalidTimestamp);
            },
        };
        let stamp: i64 = match utc_seconds(seconds) {
            Some(stamp) => stamp,
            None => {
                return Err(MetaError::InvalidTimestamp);
            },
        };
        let hash = copy_range(text, hash_line.start, hash_line.end);
        Ok(FileInfo { size, hash, time_stamp: stamp })
    }
}

/// The decimal spelling of a number is ASCII text without a line ending.
pub proof fn lemma_decimal_is_plain(n: nat)
    ensures
        is_ascii_bytes(decimal(n)),
        forall|i: int| 0 <= i < decimal(n).len() ==> #[trigger] decimal(n)[i] != 10,
        decimal(n).last() != 13,
        decimal(n)[0] != 43,
        decimal(n)[0] != 45,
{
    lemma_decimal_is_digits(n);
    let s = decimal(n);
    assert forall|i: int| 0 <= i < s.len() implies #[trigger] s[i] < 128 && s[i] != 10 by {
        assert(is_digit(s[i]));
    }
    assert(is_digit(s[s.len() - 1]));
    assert(is_digit(s[0]));
}

/// Reading the decimal spelling of a 64-bit number gives the number back.
pub proof fn lemma_parse_decimal(n: u64)
    ensures
        parse_u64_spec(decimal(n as nat)) == Some(n),
{
    lemma_decimal_is_digits(n as nat);
    lemma_decimal_is_plain(n as nat);
    assert(unsigned_body(decimal(n as nat)) == decimal(n as nat));
}

/// Reading the decimal spelling of a signed 64-bit number gives the number
/// back.
pub proof fn lemma_parse_signed_decimal(v: i64)
    ensures
        parse_i64_spec(signed_decimal(v as int)) == Some(v),
{
    let s = signed_decimal(v as int);
    if v < 0 {
        let m = (-v) as nat;
        lemma_decimal_is_digits(m);
        assert(s[0] == 45);
        assert(signed_body(s) =~= decimal(m));
    } else {
        lemma_decimal_is_digits(v as nat);
        lemma_decimal_is_plain(v as nat);
        assert(signed_body(s) == s);
    }
}

/// Storing a record and reading it back gives the same record: for every
/// size that fits in 64 bits, every digest of sixteen lowercase hexadecimal
/// digits and every time of capture within the range of timestamps.
pub proof fn lemma_record_round_trip(r: RecordView)
    requires
        valid_record(r),
        is_digest(r.hash),
    ensures
        parsed(serialized(r)) == Ok::<RecordView, MetaError>(r),
{
    let size_text = decimal(r.size);
    let stamp_text = signed_decimal(r.captured_at);
    let newline = seq![10u8];
    let third = stamp_text + newline;
    let second = r.hash + newline + third;
    let text = size_text + newline + second;
    assert(text =~= serialized(r));
    lemma_decimal_is_plain(r.size);
    lemma_parse_decimal(r.size as u64);
    lemma_parse_signed_decimal(r.captured_at as i64);
    if r.captured_at < 0 {
        lemma_decimal_is_plain((-r.captured_at) as nat);
    } else {
        lemma_decimal_is_plain(r.captured_at as nat);
    }
    assert forall|i: int| 0 <= i < stamp_text.len() implies #[trigger] stamp_text[i] < 128
        && stamp_text[i] != 10 by {
        if r.captured_at < 0 && i > 0 {
            assert(stamp_text[i] == decimal((-r.captured_at) as nat)[i - 1]);
        }
    }
    assert(stamp_text.last() != 13) by {
        if r.captured_at < 0 {
            let digits = decimal((-r.captured_at) as nat);
            assert(stamp_text.last() == digits.last());
        }
    }
    assert forall|i: int| 0 <= i < r.hash.len() implies #[trigger] r.hash[i] < 128 && r.hash[i]
        != 10 by {
        assert(is_hex_digit(r.hash[i]));
    }
    assert(is_hex_digit(r.hash[r.hash.len() - 1]));
    assert(is_ascii_bytes(text)) by {
        assert forall|i: int| 0 <= i < text.len() implies #[trigger] text[i] < 128 by {
            let a = size_text.len() as int;
            let b = a + 1 + r.hash.len();
            if i < a {
                assert(text[i] == size_text[i]);
            } else if i == a {
            } else if i < b {
                assert(text[i] == r.hash[i - a - 1]);
            } else if i == b {
            } else if i < b + 1 + stamp_text.len() {
                assert(text[i] == stamp_text[i - b - 1]);
            } else {
            }
        }
    }
    lemma_ascii_is_utf8(text);
    lemma_first_line_of_joined(size_text, second);
    lemma_first_line_of_joined(r.hash, third);
    lemma_first_line_of_joined(stamp_text, Seq::<u8>::empty());
    assert(third =~= stamp_text + newline + Seq::<u8>::empty());
}

/// The digest of any content has the shape of a digest.
pub proof fn lemma_digest_text_is_digest(content: Seq<u8>)
    ensures
        is_digest(digest_text(content)),
{
    lemma_hex_fixed_shape(crate::hashing::xxh3_64(content) as nat, 16);
}

} // verus!
