//! Parsing of decompressed frame bytes into key/value records.
//!
//! A frame's payload is split on newlines; each line with a tab separator
//! yields one record: the bytes before the first tab are the key (decoded
//! permissively), the bytes after it are an unsigned decimal value.  A line
//! without a separator is skipped.  A value that does not parse is reported
//! and the record is kept with value `0`.

use vstd::prelude::*;

use crate::CodecError;

verus! {

/// The whitespace bytes trimmed around a record's value field.
pub open spec fn is_ws_byte(b: u8) -> bool {
    b == 32 || (9 <= b && b <= 13)
}

/// An ASCII decimal digit.
pub open spec fn is_digit_byte(b: u8) -> bool {
    48 <= b && b <= 57
}

/// The first position at or after `i` whose byte is not whitespace.
pub open spec fn first_non_ws(s: Seq<u8>, i: int) -> int
    decreases s.len() - i,
    when 0 <= i <= s.len()
{
    if i < s.len() && is_ws_byte(s[i]) {
        first_non_ws(s, i + 1)
    } else {
        i
    }
}

/// The position just after the last byte before `j` that is not whitespace.
pub open spec fn last_non_ws(s: Seq<u8>, j: int) -> int
    decreases j,
    when 0 <= j <= s.len()
{
    if j > 0 && is_ws_byte(s[j - 1]) {
        last_non_ws(s, j - 1)
    } else {
        j
    }
}

/// `s` with surrounding whitespace removed.
pub open spec fn trim_spec(s: Seq<u8>) -> Seq<u8> {
    let lo = first_non_ws(s, 0);
    let hi = last_non_ws(s, s.len() as int);
    if lo <= hi {
        s.subrange(lo, hi)
    } else {
        Seq::empty()
    }
}

/// True when every byte of `s` is a decimal digit.
pub open spec fn all_digits(s: Seq<u8>) -> bool {
    forall|i: int| 0 <= i < s.len() ==> is_digit_byte(s[i])
}

/// The value of a string of decimal digit bytes, most significant first.
pub open spec fn digits_value(s: Seq<u8>) -> int
    decreases s.len(),
{
    if s.len() == 0 {
        0
    } else {
        digits_value(s.drop_last()) * 10 + (s.last() - 48)
    }
}

/// `s` with one leading plus sign removed, as the integer parser accepts.
pub open spec fn strip_plus(s: Seq<u8>) -> Seq<u8> {
    if s.len() > 0 && s[0] == 43 {
        s.drop_first()
    } else {
        s
    }
}

/// What parsing `s` as an unsigned 64-bit decimal integer yields: after an
/// optional leading plus sign, at least one digit and nothing else, with a
/// value that fits in 64 bits.
pub open spec fn parse_u64_spec(s: Seq<u8>) -> Option<u64> {
    let d = strip_plus(s);
    if d.len() > 0 && all_digits(d) && digits_value(d) <= u64::MAX {
        Some(digits_value(d) as u64)
    } else {
        None
    }
}

/// The value a record keeps for a value field: the parsed integer, or `0`
/// when the field does not parse.
pub open spec fn numeric_or_zero(s: Seq<u8>) -> u64 {
    match parse_u64_spec(trim_spec(s)) {
        Some(v) => v,
        None => 0,
    }
}

/// A string of digits has a non-negative value.
pub proof fn lemma_digits_value_nonneg(s: Seq<u8>)
    requires
        all_digits(s),
    ensures
        digits_value(s) >= 0,
    decreases s.len(),
{
    if s.len() > 0 {
        lemma_digits_value_nonneg(s.drop_last());
    }
}

/// Dropping trailing digits can only lower the value.
pub proof fn lemma_digits_value_mono(s: Seq<u8>, k: int)
    requires
        all_digits(s),
        0 <= k <= s.len(),
    ensures
        digits_value(s) >= digits_value(s.take(k)),
    decreases s.len(),
{
    if k == s.len() {
        assert(s.take(k) =~= s);
    } else {
        lemma_digits_value_nonneg(s.drop_last());
        lemma_digits_value_mono(s.drop_last(), k);
        assert(s.drop_last().take(k) =~= s.take(k));
    }
}

/// Parses a record's value field as an unsigned decimal integer, trimming
/// surrounding whitespace; reports a non-numeric field instead of guessing.
pub fn parse_bytes_to_numeric(bytes: &[u8]) -> (r: Result<u64, CodecError>)
    ensures
        (match parse_u64_spec(trim_spec(bytes@)) {
            Some(v) => r == Ok::<u64, CodecError>(v),
            None => r == Err::<u64, CodecError>(CodecError::NotNumeric),
        }),
{
    let n: usize = bytes.len();
    let mut lo: usize = 0;
    loop
        invariant_except_break
            lo <= n,
            n == bytes@.len(),
            first_non_ws(bytes@, 0) == first_non_ws(bytes@, lo as int),
        ensures
            lo <= n,
            n == bytes@.len(),
            lo == first_non_ws(bytes@, 0),
            lo < n ==> !is_ws_byte(bytes@[lo as int]),
        decreases n - lo,
    {
        if lo == n {
            break;
        }
        let b = bytes[lo];
        if !(b == 32 || (9 <= b && b <= 13)) {
            break;
        }
        lo = lo + 1;
    }
    let mut hi: usize = n;
    loop
        invariant_except_break
            hi <= n,
            n == bytes@.len(),
            last_non_ws(bytes@, n as int) == last_non_ws(bytes@, hi as int),
        ensures
            hi <= n,
            n == bytes@.len(),
            hi == last_non_ws(bytes@, n as int),
            hi > 0 ==> !is_ws_byte(bytes@[hi - 1]),
        decreases hi,
    {
        if hi == 0 {
            break;
        }
        let b = bytes[hi - 1];
        if !(b == 32 || (9 <= b && b <= 13)) {
            break;
        }
        hi = hi - 1;
    }
    if lo >= hi {
        assert(trim_spec(bytes@).len() == 0);
        return Err(CodecError::NotNumeric);
    }
    let ghost trimmed = bytes@.subrange(lo as int, hi as int);
    assert(trim_spec(bytes@) == trimmed);
    let mut p: usize = lo;
    if bytes[p] == 43 {
        p = p + 1;
        assert(strip_plus(trimmed) =~= bytes@.subrange(p as int, hi as int));
    } else {
        assert(strip_plus(trimmed) =~= bytes@.subrange(p as int, hi as int));
    }
    let ghost digits = bytes@.subrange(p as int, hi as int);
    if p == hi {
        return Err(CodecError::NotNumeric);
    }
    let mut v: u64 = 0;
    let mut i: usize = p;
    loop
        invariant_except_break
            p <= i <= hi <= n,
            p < hi,
            n == bytes@.len(),
            trimmed == trim_spec(bytes@),
            digits == strip_plus(trimmed),
            digits == bytes@.subrange(p as int, hi as int),
            forall|k: int| p <= k < i ==> is_digit_byte(bytes@[k]),
            v == digits_value(bytes@.subrange(p as int, i as int)),
        ensures
            digits.len() > 0 && all_digits(digits) && digits_value(digits) == v,
        decreases hi - i,
    {
        if i == hi {
            assert forall|k: int| 0 <= k < digits.len() implies is_digit_byte(digits[k]) by {
                assert(digits[k] == bytes@[p + k]);
            }
            assert(bytes@.subrange(p as int, i as int) == digits);
            break;
        }
        let b = bytes[i];
        if !(48 <= b && b <= 57) {
            assert(digits[i - p] == bytes@[i as int]);
            assert(!all_digits(digits));
            return Err(CodecError::NotNumeric);
        }
        let d = b - 48;
        let ghost prev = bytes@.subrange(p as int, i as int);
        let ghost cur = bytes@.subrange(p as int, i + 1);
        assert(cur.drop_last() =~= prev);
        assert(cur.last() == bytes@[i as int]);
        if v > (u64::MAX - d as u64) / 10 {
            proof {
                assert(digits_value(cur) > u64::MAX) by (nonlinear_arith)
                    requires
                        digits_value(cur) == digits_value(prev) * 10 + (bytes@[i as int] - 48),
                        bytes@[i as int] - 48 == d,
                        v == digits_value(prev),
                        v > (u64::MAX - d as u64) / 10,
                        0 <= d <= 9,
                ;
                if all_digits(digits) {
                    lemma_digits_value_mono(digits, i + 1 - p);
                    assert(digits.take(i + 1 - p) =~= cur);
                }
            }
            return Err(CodecError::NotNumeric);
        }
        proof {
            assert(digits_value(prev) * 10 + (bytes@[i as int] - 48) <= u64::MAX)
                by (nonlinear_arith)
                requires
                    v == digits_value(prev),
                    v <= (u64::MAX - d as u64) / 10,
                    bytes@[i as int] - 48 == d,
                    0 <= d <= 9,
            ;
        }
        v = v * 10 + d as u64;
        i = i + 1;
    }
    Ok(v)
}

/// The first position at or after `i` whose byte is `b`, or the length of
/// `s` when no such byte exists.
pub open spec fn find_byte(s: Seq<u8>, b: u8, i: int) -> int
    decreases s.len() - i,
    when 0 <= i <= s.len()
{
    if i >= s.len() {
        i
    } else if s[i] == b {
        i
    } else {
        find_byte(s, b, i + 1)
    }
}

/// Where a byte search lands: within bounds, on the byte when one exists,
/// and past no earlier occurrence.
pub proof fn lemma_find_byte(s: Seq<u8>, b: u8, i: int)
    requires
        0 <= i <= s.len(),
    ensures
        i <= find_byte(s, b, i) <= s.len(),
        find_byte(s, b, i) < s.len() ==> s[find_byte(s, b, i)] == b,
        forall|k: int| i <= k < find_byte(s, b, i) ==> s[k] != b,
    decreases s.len() - i,
{
    if i < s.len() && s[i] != b {
        lemma_find_byte(s, b, i + 1);
    }
}

/// Finds the first occurrence of `b` in `s` at or after `i`.
fn find_byte_from(s: &[u8], b: u8, i: usize) -> (r: usize)
    requires
        i <= s@.len(),
    ensures
        r == find_byte(s@, b, i as int),
        i <= r <= s@.len(),
    {
    let n: usize = s.len();
    let mut j: usize = i;
    loop
        invariant_except_break
            i <= j <= n,
            n == s@.len(),
            find_byte(s@, b, i as int) == find_byte(s@, b, j as int),
        ensures
            i <= j <= n,
            j == find_byte(s@, b, i as int),
        decreases n - j,
    {
        if j == n {
            break;
        }
        if s[j] == b {
            break;
        }
        j = j + 1;
    }
    j
}

/// What permissive decoding of a byte string yields.  The result depends on
/// the bytes alone; no further description of it is assumed here beyond the
/// fact that purely ASCII input decodes to its own characters.
pub uninterp spec fn lossy_of(bytes: Seq<u8>) -> Seq<char>;

/// True when every byte of `s` is ASCII.
pub open spec fn is_ascii_bytes(s: Seq<u8>) -> bool {
    forall|i: int| 0 <= i < s.len() ==> s[i] < 128
}

/// The characters of a byte string of ASCII bytes, one per byte.
pub open spec fn ascii_chars_of(s: Seq<u8>) -> Seq<char> {
    Seq::new(s.len(), |i: int| s[i] as char)
}

/// Relies on `String::from_utf8_lossy`: the decoding is a function of the
/// bytes alone, and bytes that already are valid UTF-8 — in particular pure
/// ASCII — decode to themselves.
#[verifier::external_body]
fn lossy_decode(bytes: &[u8]) -> (r: String)
    ensures
        r@ == lossy_of(bytes@),
        is_ascii_bytes(bytes@) ==> r@ == ascii_chars_of(bytes@),
{
    String::from_utf8_lossy(bytes).into_owned()
}

/// True when the line starting at `i` carries a record: it has a tab
/// separator before the line's end.
pub open spec fn line_has_record(buf: Seq<u8>, i: int) -> bool {
    find_byte(buf, 9, i) < find_byte(buf, 10, i)
}

/// The record of the line starting at `i`: the permissively decoded key
/// before the first tab, and the numeric value after it (`0` when the value
/// field does not parse).
pub open spec fn record_at(buf: Seq<u8>, i: int) -> (Seq<char>, u64) {
    let t = find_byte(buf, 9, i);
    let e = find_byte(buf, 10, i);
    (lossy_of(buf.subrange(i, t)), numeric_or_zero(buf.subrange(t + 1, e)))
}

/// True when the value field of the record at `i` does not parse as an
/// unsigned decimal integer.
pub open spec fn record_bad_value(buf: Seq<u8>, i: int) -> bool {
    let t = find_byte(buf, 9, i);
    let e = find_byte(buf, 10, i);
    parse_u64_spec(trim_spec(buf.subrange(t + 1, e))) is None
}

/// The records of the lines of `buf` from position `i` on, in line order.
/// Lines without a tab separator yield nothing.
pub open spec fn records_from(buf: Seq<u8>, i: int) -> Seq<(Seq<char>, u64)>
    decreases buf.len() - i,
    when 0 <= i <= buf.len()
{
    let e = find_byte(buf, 10, i);
    let rec: Seq<(Seq<char>, u64)> = if line_has_record(buf, i) {
        seq![record_at(buf, i)]
    } else {
        Seq::empty()
    };
    if e >= buf.len() {
        rec
    } else {
        proof {
            lemma_find_byte(buf, 10, i);
        }
        rec + records_from(buf, e + 1)
    }
}

/// The keys of the records of `buf` from position `i` on whose value field
/// does not parse; these records are kept with value `0` and reported.
pub open spec fn malformed_from(buf: Seq<u8>, i: int) -> Seq<Seq<char>>
    decreases buf.len() - i,
    when 0 <= i <= buf.len()
{
    let e = find_byte(buf, 10, i);
    let bad: Seq<Seq<char>> = if line_has_record(buf, i) && record_bad_value(buf, i) {
        seq![record_at(buf, i).0]
    } else {
        Seq::empty()
    };
    if e >= buf.len() {
        bad
    } else {
        proof {
            lemma_find_byte(buf, 10, i);
        }
        bad + malformed_from(buf, e + 1)
    }
}

/// The key/value view of a list of parsed records.
pub open spec fn pairs_view(s: Seq<(String, u64)>) -> Seq<(Seq<char>, u64)> {
    s.map_values(|p: (String, u64)| (p.0@, p.1))
}

/// The character-sequence view of a list of keys.
pub open spec fn keys_view(s: Seq<String>) -> Seq<Seq<char>> {
    s.map_values(|k: String| k@)
}

/// Splits decompressed frame bytes into records and also reports the keys
/// whose value field did not parse (those records are kept with value `0`).
pub fn parse_lines_with_report(buf: &[u8]) -> (r: (Vec<(String, u64)>, Vec<String>))
    ensures
        pairs_view(r.0@) == records_from(buf@, 0),
        keys_view(r.1@) == malformed_from(buf@, 0),
{
    let n: usize = buf.len();
    let mut out: Vec<(String, u64)> = Vec::new();
    let mut bad: Vec<String> = Vec::new();
    let mut i: usize = 0;
    loop
        invariant_except_break
            i <= n,
            n == buf@.len(),
            records_from(buf@, 0) == pairs_view(out@) + records_from(buf@, i as int),
            malformed_from(buf@, 0) == keys_view(bad@) + malformed_from(buf@, i as int),
        ensures
            records_from(buf@, 0) == pairs_view(out@),
            malformed_from(buf@, 0) == keys_view(bad@),
        decreases n - i,
    {
        let e = find_byte_from(buf, 10, i);
        let t = find_byte_from(buf, 9, i);
        let ghost prev_out = out@;
        let ghost prev_bad = bad@;
        if t < e {
            proof {
                lemma_find_byte(buf@, 9, i as int);
                lemma_find_byte(buf@, 10, i as int);
            }
            let key = lossy_decode(&buf[i..t]);
            let value = match parse_bytes_to_numeric(&buf[t + 1..e]) {
                Ok(v) => v,
                Err(_) => {
                    bad.push(key.clone());
                    0
                },
            };
            out.push((key, value));
            proof {
                assert(pairs_view(out@) =~= pairs_view(prev_out) + seq![record_at(buf@, i as int)]);
                if record_bad_value(buf@, i as int) {
                    assert(keys_view(bad@) =~= keys_view(prev_bad) + seq![
                        record_at(buf@, i as int).0,
                    ]);
                } else {
                    assert(keys_view(bad@) =~= keys_view(prev_bad));
                }
            }
        }
        proof {
            assert(records_from(buf@, 0) =~= pairs_view(out@) + (if e < n {
                records_from(buf@, e + 1)
            } else {
                Seq::empty()
            }));
            assert(malformed_from(buf@, 0) =~= keys_view(bad@) + (if e < n {
                malformed_from(buf@, e + 1)
            } else {
                Seq::empty()
            }));
        }
        if e == n {
            break;
        }
        i = e + 1;
    }
    (out, bad)
}

/// Splits decompressed frame bytes into `(key, value)` records, one per
/// line that carries a tab separator, in line order.
pub fn parse_lines_to_map(buf: &[u8]) -> (r: Vec<(String, u64)>)
    ensures
        pairs_view(r@) == records_from(buf@, 0),
{
    let (out, _) = parse_lines_with_report(buf);
    out
}

} // verus!
