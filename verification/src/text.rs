//! Plain-text building blocks of the metadata format: decimal numbers,
//! fixed-width hexadecimal numbers and lines, all as ASCII bytes.

use vstd::prelude::*;
use vstd::utf8::{encode_utf8, encode_utf8_valid_utf8, is_ascii_chars, is_ascii_chars_encode_utf8, valid_utf8};

verus! {

/// The byte `\n`.
pub const NEWLINE: u8 = 10;

/// The byte `\r`.
pub const CARRIAGE_RETURN: u8 = 13;

/// The byte `+`.
pub const PLUS: u8 = 43;

/// The byte `-`.
pub const MINUS: u8 = 45;

/// The byte `0`.
pub const ZERO: u8 = 48;

/// Whether `b` is one of the bytes `0` to `9`.
pub open spec fn is_digit(b: u8) -> bool {
    48 <= b <= 57
}

/// Whether every byte of `s` is a decimal digit.
pub open spec fn all_digits(s: Seq<u8>) -> bool {
    forall|i: int| 0 <= i < s.len() ==> is_digit(#[trigger] s[i])
}

/// The number that the decimal digits `s` spell, most significant digit first.
pub open spec fn digits_value(s: Seq<u8>) -> nat
    decreases s.len(),
{
    if s.len() == 0 {
        0
    } else {
        10 * digits_value(s.drop_last()) + (s.last() - 48) as nat
    }
}

/// The shortest decimal spelling of `n`.
pub open spec fn decimal(n: nat) -> Seq<u8>
    decreases n,
{
    if n < 10 {
        seq![(48 + n) as u8]
    } else {
        decimal(n / 10).push((48 + n % 10) as u8)
    }
}

/// The decimal spelling of `v`, with a leading `-` when it is negative.
pub open spec fn signed_decimal(v: int) -> Seq<u8> {
    if v < 0 {
        seq![45u8] + decimal((-v) as nat)
    } else {
        decimal(v as nat)
    }
}

/// What is left of a number's text once a leading `+` is taken off.
pub open spec fn unsigned_body(s: Seq<u8>) -> Seq<u8> {
    if s.len() > 0 && s[0] == 43 {
        s.skip(1)
    } else {
        s
    }
}

/// The value of the text `s` read as an unsigned 64-bit number: an optional
/// `+`, then one or more digits, the whole no larger than `u64::MAX`.
pub open spec fn parse_u64_spec(s: Seq<u8>) -> Option<u64> {
    let body = unsigned_body(s);
    if body.len() > 0 && all_digits(body) && digits_value(body) <= u64::MAX {
        Some(digits_value(body) as u64)
    } else {
        None
    }
}

/// Whether the text `s` starts with a minus sign.
pub open spec fn has_minus(s: Seq<u8>) -> bool {
    s.len() > 0 && s[0] == 45
}

/// What is left of a number's text once a leading `+` or `-` is taken off.
pub open spec fn signed_body(s: Seq<u8>) -> Seq<u8> {
    if s.len() > 0 && (s[0] == 43 || s[0] == 45) {
        s.skip(1)
    } else {
        s
    }
}

/// The value of the text `s` read as a signed 64-bit number: an optional
/// `+` or `-`, then one or more digits, the whole within the range of `i64`.
pub open spec fn parse_i64_spec(s: Seq<u8>) -> Option<i64> {
    let body = signed_body(s);
    if body.len() > 0 && all_digits(body) {
        let magnitude = digits_value(body) as int;
        let value = if has_minus(s) {
            -magnitude
        } else {
            magnitude
        };
        if i64::MIN <= value <= i64::MAX {
            Some(value as i64)
        } else {
            None
        }
    } else {
        None
    }
}

/// The lowercase hexadecimal digit for `n`, which is below 16.
pub open spec fn hex_digit(n: nat) -> u8 {
    if n < 10 {
        (48 + n) as u8
    } else {
        (87 + n) as u8
    }
}

/// The `width` lowest hexadecimal digits of `n`, most significant first,
/// padded with zeros on the left.
pub open spec fn hex_fixed(n: nat, width: nat) -> Seq<u8>
    decreases width,
{
    if width == 0 {
        Seq::<u8>::empty()
    } else {
        hex_fixed(n / 16, (width - 1) as nat).push(hex_digit(n % 16))
    }
}

/// Whether `b` is a lowercase hexadecimal digit.
pub open spec fn is_hex_digit(b: u8) -> bool {
    48 <= b <= 57 || 97 <= b <= 102
}

/// Whether every byte of `s` is below 128.
pub open spec fn is_ascii_bytes(s: Seq<u8>) -> bool {
    forall|i: int| 0 <= i < s.len() ==> #[trigger] s[i] < 128
}

/// The decimal spelling of a number is made of digits, is not empty and
/// spells that number.
pub proof fn lemma_decimal_is_digits(n: nat)
    ensures
        decimal(n).len() > 0,
        all_digits(decimal(n)),
        digits_value(decimal(n)) == n,
        n > 0 ==> decimal(n)[0] != 48,
    decreases n,
{
    if n < 10 {
        let s = decimal(n);
        assert(s.drop_last() =~= Seq::<u8>::empty());
        assert(digits_value(s.drop_last()) == 0);
    } else {
        lemma_decimal_is_digits(n / 10);
        let head = decimal(n / 10);
        let s = decimal(n);
        assert(s.drop_last() =~= head);
        assert(s.last() == (48 + n % 10) as u8);
        assert forall|i: int| 0 <= i < s.len() implies is_digit(#[trigger] s[i]) by {
            if i < head.len() {
                assert(s[i] == head[i]);
            }
        }
        assert(s[0] == head[0]);
    }
}

/// Fixed-width hexadecimal text has the width asked for and only holds
/// lowercase hexadecimal digits.
pub proof fn lemma_hex_fixed_shape(n: nat, width: nat)
    ensures
        hex_fixed(n, width).len() == width,
        forall|i: int| 0 <= i < width ==> is_hex_digit(#[trigger] hex_fixed(n, width)[i]),
    decreases width,
{
    if width > 0 {
        lemma_hex_fixed_shape(n / 16, (width - 1) as nat);
        let head = hex_fixed(n / 16, (width - 1) as nat);
        let s = hex_fixed(n, width);
        assert forall|i: int| 0 <= i < width implies is_hex_digit(#[trigger] s[i]) by {
            if i < head.len() {
                assert(s[i] == head[i]);
            }
        }
    }
}

/// The value of a run of digits is at least the value of any of its prefixes.
pub proof fn lemma_digits_value_prefix(s: Seq<u8>, k: int)
    requires
        all_digits(s),
        0 <= k <= s.len(),
    ensures
        digits_value(s.take(k)) <= digits_value(s),
    decreases s.len() - k,
{
    if k == s.len() {
        assert(s.take(k) =~= s);
    } else {
        lemma_digits_value_prefix(s, k + 1);
        let longer = s.take(k + 1);
        assert(longer.drop_last() =~= s.take(k));
        assert(is_digit(s[k]));
        assert(longer.last() == s[k]);
    }
}

/// Appends the decimal spelling of `n` to `out`.
pub fn push_decimal(out: &mut Vec<u8>, n: u64)
    ensures
        final(out)@ == old(out)@ + decimal(n as nat),
    decreases n,
{
    if n >= 10 {
        push_decimal(out, n / 10);
    }
    let d: u8 = (n % 10) as u8;
    out.push(ZERO + d);
    assert(out@ =~= old(out)@ + decimal(n as nat));
}

/// Appends the decimal spelling of `v` to `out`, with a `-` in front when
/// `v` is negative.
pub fn push_signed_decimal(out: &mut Vec<u8>, v: i64)
    ensures
        final(out)@ == old(out)@ + signed_decimal(v as int),
{
    if v < 0 {
        out.push(MINUS);
        let magnitude: u64 = (-(v + 1)) as u64 + 1;
        push_decimal(out, magnitude);
        assert(out@ =~= old(out)@ + signed_decimal(v as int));
    } else {
        push_decimal(out, v as u64);
    }
}

/// Appends the `width` lowest hexadecimal digits of `n` to `out`.
pub fn push_hex_fixed(out: &mut Vec<u8>, n: u64, width: u8)
    ensures
        final(out)@ == old(out)@ + hex_fixed(n as nat, width as nat),
    decreases width,
{
    if width > 0 {
        push_hex_fixed(out, n / 16, width - 1);
        let d: u8 = (n % 16) as u8;
        let c: u8 = if d < 10 {
            ZERO + d
        } else {
            87 + d
        };
        out.push(c);
    }
    assert(out@ =~= old(out)@ + hex_fixed(n as nat, width as nat));
}

/// Reads a run of digits as a number, or says that it is no such run or
/// does not fit in 64 bits.
fn parse_digits(s: &[u8], start: usize) -> (r: Option<u64>)
    requires
        start <= s.len(),
    ensures
        r == (if s@.skip(start as int).len() > 0 && all_digits(s@.skip(start as int))
            && digits_value(s@.skip(start as int)) <= u64::MAX {
            Some(digits_value(s@.skip(start as int)) as u64)
        } else {
            None
        }),
{
    let ghost body = s@.skip(start as int);
    if start == s.len() {
        return None;
    }
    let mut acc: u64 = 0;
    let mut i: usize = start;
    proof {
        assert(body.take(0) =~= Seq::<u8>::empty());
    }
    while i < s.len()
        invariant
            start <= i <= s.len(),
            body == s@.skip(start as int),
            all_digits(body.take(i - start)),
            acc == digits_value(body.take(i - start)),
        decreases s.len() - i,
    {
        let b: u8 = s[i];
        let ghost k = i - start;
        assert(body[k] == b);
        if b < 48 || b > 57 {
            assert(!is_digit(body[k]));
            return None;
        }
        let d: u64 = (b - 48) as u64;
        proof {
            let longer = body.take(k + 1);
            assert(longer.drop_last() =~= body.take(k));
            assert(longer.last() == b);
            assert forall|j: int| 0 <= j < longer.len() implies is_digit(#[trigger] longer[j]) by {
                if j < k {
                    assert(longer[j] == body.take(k)[j]);
                }
            }
            assert(digits_value(longer) == 10 * acc + d);
        }
        if acc > (u64::MAX - d) / 10 {
            proof {
                if all_digits(body) {
                    lemma_digits_value_prefix(body, k + 1);
                }
            }
            return None;
        }
        acc = acc * 10 + d;
        i += 1;
    }
    proof {
        assert(body.take(i - start) =~= body);
    }
    Some(acc)
}

/// Reads `s` as an unsigned 64-bit decimal number.
pub fn parse_u64(s: &[u8]) -> (r: Option<u64>)
    ensures
        r == parse_u64_spec(s@),
{
    let start: usize = if s.len() > 0 && s[0] == PLUS {
        1
    } else {
        0
    };
    assert(unsigned_body(s@) =~= s@.skip(start as int));
    parse_digits(s, start)
}

/// Reads `s` as a signed 64-bit decimal number.
pub fn parse_i64(s: &[u8]) -> (r: Option<i64>)
    ensures
        r == parse_i64_spec(s@),
{
    let negative: bool = s.len() > 0 && s[0] == MINUS;
    let start: usize = if s.len() > 0 && (s[0] == PLUS || s[0] == MINUS) {
        1
    } else {
        0
    };
    let ghost body = signed_body(s@);
    assert(body =~= s@.skip(start as int));
    match parse_digits(s, start) {
        None => {
            proof {
                if body.len() > 0 && all_digits(body) {
                    assert(digits_value(body) > u64::MAX);
                }
            }
            None
        },
        Some(magnitude) => {
            if negative {
                if magnitude <= 9223372036854775807 {
                    Some(-(magnitude as i64))
                } else if magnitude == 9223372036854775808 {
                    Some(i64::MIN)
                } else {
                    None
                }
            } else {
                if magnitude <= 9223372036854775807 {
                    Some(magnitude as i64)
                } else {
                    None
                }
            }
        },
    }
}

/// The index of the first newline byte of `s`, or the length of `s` when it
/// holds none.
pub open spec fn newline_index(s: Seq<u8>) -> int
    decreases s.len(),
{
    if s.len() == 0 || s[0] == 10 {
        0
    } else {
        1 + newline_index(s.skip(1))
    }
}

/// The first line of `s`, without its line ending: what stands before the
/// first newline, less one carriage return right before that newline. Text
/// that no newline ends keeps a trailing carriage return.
pub open spec fn first_line(s: Seq<u8>) -> Seq<u8> {
    let p = newline_index(s);
    if p < s.len() && p > 0 && s[p - 1] == 13 {
        s.take(p - 1)
    } else {
        s.take(p)
    }
}

/// What follows the first line of `s` and its newline.
pub open spec fn after_first_line(s: Seq<u8>) -> Seq<u8> {
    let p = newline_index(s);
    if p < s.len() {
        s.skip(p + 1)
    } else {
        Seq::<u8>::empty()
    }
}

/// Where the first newline stands: nothing before it is a newline.
pub proof fn lemma_newline_index(s: Seq<u8>)
    ensures
        0 <= newline_index(s) <= s.len(),
        forall|i: int| 0 <= i < newline_index(s) ==> #[trigger] s[i] != 10,
        newline_index(s) < s.len() ==> s[newline_index(s)] == 10,
    decreases s.len(),
{
    if s.len() == 0 || s[0] == 10 {
    } else {
        let rest = s.skip(1);
        lemma_newline_index(rest);
        let p = newline_index(s);
        assert forall|i: int| 0 <= i < p implies #[trigger] s[i] != 10 by {
            if i > 0 {
                assert(s[i] == rest[i - 1]);
            }
        }
        if p < s.len() {
            assert(s[p] == rest[p - 1]);
        }
    }
}

/// An index with no newline before it, which holds a newline or is the
/// length of the text, is the index of the first newline.
pub proof fn lemma_newline_index_is(s: Seq<u8>, p: int)
    requires
        0 <= p <= s.len(),
        forall|i: int| 0 <= i < p ==> #[trigger] s[i] != 10,
        p < s.len() ==> s[p] == 10,
    ensures
        newline_index(s) == p,
{
    lemma_newline_index(s);
    let q = newline_index(s);
    if q < p {
        assert(s[q] != 10);
    } else if p < q {
        assert(s[p] != 10);
    }
}

/// A line followed by a newline and more text splits back into that line
/// and that text, when the line holds no newline and does not end in a
/// carriage return.
pub proof fn lemma_first_line_of_joined(line: Seq<u8>, rest: Seq<u8>)
    requires
        forall|i: int| 0 <= i < line.len() ==> #[trigger] line[i] != 10,
        line.len() > 0 ==> line.last() != 13,
    ensures
        (line + seq![10u8] + rest).len() > 0,
        first_line(line + seq![10u8] + rest) == line,
        after_first_line(line + seq![10u8] + rest) == rest,
{
    let s = line + seq![10u8] + rest;
    let p = line.len() as int;
    assert(s[p] == 10);
    assert forall|i: int| 0 <= i < p implies #[trigger] s[i] != 10 by {
        assert(s[i] == line[i]);
    }
    lemma_newline_index_is(s, p);
    if p > 0 {
        assert(s[p - 1] == line.last());
    }
    assert(s.take(p) =~= line);
    assert(s.skip(p + 1) =~= rest);
}

/// The bounds of a line inside a text: the line is the bytes from `start`
/// up to `end`, and the next line, if any, begins at `next`.
pub struct LineBounds {
    pub start: usize,
    pub end: usize,
    pub next: usize,
}

/// Finds the line of `s` that begins at `start`, if any text is left there.
pub fn next_line(s: &[u8], start: usize) -> (r: Option<LineBounds>)
    requires
        start <= s.len(),
    ensures
        r is None <==> start == s.len(),
        r matches Some(b) ==> {
            &&& b.start == start
            &&& b.start <= b.end <= b.next <= s.len()
            &&& s@.subrange(b.start as int, b.end as int) == first_line(s@.skip(start as int))
            &&& s@.skip(b.next as int) == after_first_line(s@.skip(start as int))
        },
{
    if start == s.len() {
        return None;
    }
    let ghost tail = s@.skip(start as int);
    let mut p: usize = start;
    while p < s.len() && s[p] != NEWLINE
        invariant
            start <= p <= s.len(),
            tail == s@.skip(start as int),
            forall|i: int| 0 <= i < p - start ==> #[trigger] tail[i] != 10,
        decreases s.len() - p,
    {
        p += 1;
    }
    proof {
        lemma_newline_index_is(tail, p - start);
    }
    let terminated: bool = p < s.len();
    let end: usize = if terminated && p > start && s[p - 1] == CARRIAGE_RETURN {
        p - 1
    } else {
        p
    };
    let next: usize = if terminated {
        p + 1
    } else {
        p
    };
    proof {
        assert(s@.subrange(start as int, end as int) =~= first_line(tail));
        assert(s@.skip(next as int) =~= after_first_line(tail));
    }
    Some(LineBounds { start, end, next })
}

/// Trusted: `core::str::from_utf8`, of which only success or failure is
/// kept. The contract claims that it accepts exactly the well-formed UTF-8
/// encodings.
#[verifier::external_body]
pub(crate) fn utf8_check(bytes: &[u8]) -> (ok: bool)
    ensures
        ok == valid_utf8(bytes@),
{
    core::str::from_utf8(bytes).is_ok()
}

/// Whether two runs of bytes are the same.
pub fn bytes_equal(a: &[u8], b: &[u8]) -> (same: bool)
    ensures
        same == (a@ == b@),
{
    if a.len() != b.len() {
        return false;
    }
    let mut i: usize = 0;
    while i < a.len()
        invariant
            i <= a.len(),
            a.len() == b.len(),
            forall|j: int| 0 <= j < i ==> a@[j] == b@[j],
        decreases a.len() - i,
    {
        if a[i] != b[i] {
            return false;
        }
        i += 1;
    }
    assert(a@ =~= b@);
    true
}

/// A copy of the bytes of `s` from `start` up to `end`.
pub fn copy_range(s: &[u8], start: usize, end: usize) -> (out: Vec<u8>)
    requires
        start <= end <= s.len(),
    ensures
        out@ == s@.subrange(start as int, end as int),
{
    let mut out: Vec<u8> = Vec::new();
    let mut i: usize = start;
    while i < end
        invariant
            start <= i <= end <= s.len(),
            out@ == s@.subrange(start as int, i as int),
        decreases end - i,
    {
        out.push(s[i]);
        assert(out@ =~= s@.subrange(start as int, i + 1));
        i += 1;
    }
    out
}

/// Text made of bytes below 128 is well-formed UTF-8.
pub proof fn lemma_ascii_is_utf8(s: Seq<u8>)
    requires
        is_ascii_bytes(s),
    ensures
        valid_utf8(s),
{
    let chars = Seq::new(s.len(), |i: int| s[i] as char);
    assert(is_ascii_chars(chars)) by {
        assert forall|i: int| 0 <= i < chars.len() implies '\0' <= #[trigger] chars[i]
            <= '\u{7f}' by {
            assert(s[i] < 128);
        }
    }
    is_ascii_chars_encode_utf8(chars);
    let encoded = encode_utf8(chars);
    assert(encoded =~= s) by {
        assert forall|i: int| 0 <= i < s.len() implies encoded[i] == s[i] by {
            assert(s[i] < 128);
            assert(chars[i] as u8 == encoded[i]);
        }
    }
    encode_utf8_valid_utf8(chars);
}

/// Sixteen to the power of `width`.
pub open spec fn pow16(width: nat) -> nat
    decreases width,
{
    if width == 0 {
        1
    } else {
        16 * pow16((width - 1) as nat)
    }
}

/// Two numbers that fit in `width` hexadecimal digits and have the same
/// fixed-width text are the same number.
pub proof fn lemma_hex_fixed_injective(a: nat, b: nat, width: nat)
    requires
        a < pow16(width),
        b < pow16(width),
        hex_fixed(a, width) == hex_fixed(b, width),
    ensures
        a == b,
    decreases width,
{
    if width > 0 {
        let lower = (width - 1) as nat;
        let left = hex_fixed(a / 16, lower);
        let right = hex_fixed(b / 16, lower);
        lemma_hex_fixed_shape(a / 16, lower);
        lemma_hex_fixed_shape(b / 16, lower);
        assert(left.push(hex_digit(a % 16)) == right.push(hex_digit(b % 16)));
        assert(left.push(hex_digit(a % 16)).last() == hex_digit(a % 16));
        assert(right.push(hex_digit(b % 16)).last() == hex_digit(b % 16));
        assert(left =~= left.push(hex_digit(a % 16)).drop_last());
        assert(right =~= right.push(hex_digit(b % 16)).drop_last());
        assert(a % 16 == b % 16);
        lemma_hex_fixed_injective(a / 16, b / 16, lower);
    }
}

/// Two 64-bit numbers with the same sixteen hexadecimal digits are the
/// same number.
pub proof fn lemma_hex16_injective(a: u64, b: u64)
    requires
        hex_fixed(a as nat, 16) == hex_fixed(b as nat, 16),
    ensures
        a == b,
{
    assert(pow16(16) == 0x1_0000_0000_0000_0000) by {
        reveal_with_fuel(pow16, 17);
    }
    lemma_hex_fixed_injective(a as nat, b as nat, 16);
}

} // verus!
