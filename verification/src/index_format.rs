//! The persisted frame index: a human-inspectable structured text document
//! holding an array of frame descriptor records, each with the members
//! `position`, `length` and `order`.
//!
//! The writer emits the document; the loader parses it back, accepting
//! arbitrary whitespace between tokens and the three members of a record
//! in any order, each exactly once.  A document that is not well formed is
//! a fatal error for the read path; no partial recovery is attempted.

use vstd::prelude::*;

use crate::records::{digits_value, is_digit_byte, lemma_digits_value_mono};
use crate::{CodecError, FrameMeta};

verus! {

/// The whitespace accepted between tokens of the index document.
pub open spec fn is_json_ws(b: u8) -> bool {
    b == 32 || b == 9 || b == 10 || b == 13
}

/// The first position at or after `i` whose byte is not whitespace.
pub open spec fn skip_ws_from(s: Seq<u8>, i: int) -> int
    decreases s.len() - i,
    when 0 <= i <= s.len()
{
    if i < s.len() && is_json_ws(s[i]) {
        skip_ws_from(s, i + 1)
    } else {
        i
    }
}

/// Where a whitespace skip lands: within bounds and on a non-whitespace
/// byte (or the end), with only whitespace before it.
pub proof fn lemma_skip_ws(s: Seq<u8>, i: int)
    requires
        0 <= i <= s.len(),
    ensures
        i <= skip_ws_from(s, i) <= s.len(),
        skip_ws_from(s, i) < s.len() ==> !is_json_ws(s[skip_ws_from(s, i)]),
        forall|k: int| i <= k < skip_ws_from(s, i) ==> is_json_ws(s[k]),
    decreases s.len() - i,
{
    if i < s.len() && is_json_ws(s[i]) {
        lemma_skip_ws(s, i + 1);
    }
}

/// The first position at or after `i` whose byte is not a decimal digit.
pub open spec fn digits_end(s: Seq<u8>, i: int) -> int
    decreases s.len() - i,
    when 0 <= i <= s.len()
{
    if i < s.len() && is_digit_byte(s[i]) {
        digits_end(s, i + 1)
    } else {
        i
    }
}

/// Where a digit run ends: within bounds, with digits before it and a
/// non-digit (or the end) at it.
pub proof fn lemma_digits_end(s: Seq<u8>, i: int)
    requires
        0 <= i <= s.len(),
    ensures
        i <= digits_end(s, i) <= s.len(),
        digits_end(s, i) < s.len() ==> !is_digit_byte(s[digits_end(s, i)]),
        forall|k: int| i <= k < digits_end(s, i) ==> is_digit_byte(s[k]),
    decreases s.len() - i,
{
    if i < s.len() && is_digit_byte(s[i]) {
        lemma_digits_end(s, i + 1);
    }
}

/// What parsing an unsigned decimal number at `i` yields: the value of the
/// digit run starting there, if the run is non-empty and the value fits in
/// 64 bits, and the position just after the run.
pub open spec fn parse_num_at(s: Seq<u8>, i: int) -> Option<(u64, int)> {
    let j = digits_end(s, i);
    if j == i {
        None
    } else if digits_value(s.subrange(i, j)) <= u64::MAX {
        Some((digits_value(s.subrange(i, j)) as u64, j))
    } else {
        None
    }
}

/// The quoted member name introducing a frame's byte position.
pub open spec fn key_position_bytes() -> Seq<u8> {
    seq![34u8, 112u8, 111u8, 115u8, 105u8, 116u8, 105u8, 111u8, 110u8, 34u8]
}

/// The quoted member name introducing a frame's byte length.
pub open spec fn key_length_bytes() -> Seq<u8> {
    seq![34u8, 108u8, 101u8, 110u8, 103u8, 116u8, 104u8, 34u8]
}

/// The quoted member name introducing a frame's write order.
pub open spec fn key_order_bytes() -> Seq<u8> {
    seq![34u8, 111u8, 114u8, 100u8, 101u8, 114u8, 34u8]
}

/// True when `s` holds exactly `w` starting at `i`.
pub open spec fn match_at(s: Seq<u8>, i: int, w: Seq<u8>) -> bool {
    i + w.len() <= s.len() && s.subrange(i, i + w.len()) == w
}

/// What parsing one `"name": value` member at `i` yields: which of the
/// three member names it is (`0` position, `1` length, `2` order), the
/// member's numeric value, and the position just after it.
pub open spec fn parse_member_at(s: Seq<u8>, i: int) -> Option<((u8, u64), int)> {
    let (w, j): (u8, int) = if match_at(s, i, key_position_bytes()) {
        (0u8, i + 10)
    } else if match_at(s, i, key_length_bytes()) {
        (1u8, i + 8)
    } else if match_at(s, i, key_order_bytes()) {
        (2u8, i + 7)
    } else {
        (3u8, i)
    };
    if w == 3 {
        None
    } else {
        let c = skip_ws_from(s, j);
        if c < s.len() && s[c] == 58 {
            let v = skip_ws_from(s, c + 1);
            match parse_num_at(s, v) {
                Some((x, e)) => Some(((w, x), e)),
                None => None,
            }
        } else {
            None
        }
    }
}

/// Builds a descriptor from three members carrying distinct names; three
/// distinct names out of three possible means each member occurs exactly
/// once.
pub open spec fn fields_to_meta(m1: (u8, u64), m2: (u8, u64), m3: (u8, u64)) -> Option<FrameMeta> {
    if m1.0 != m2.0 && m1.0 != m3.0 && m2.0 != m3.0 {
        Some(
            FrameMeta {
                position: if m1.0 == 0 {
                    m1.1
                } else if m2.0 == 0 {
                    m2.1
                } else {
                    m3.1
                },
                length: if m1.0 == 1 {
                    m1.1
                } else if m2.0 == 1 {
                    m2.1
                } else {
                    m3.1
                },
                order: if m1.0 == 2 {
                    m1.1
                } else if m2.0 == 2 {
                    m2.1
                } else {
                    m3.1
                },
            },
        )
    } else {
        None
    }
}

/// What parsing one descriptor record at `i` yields: a brace-delimited
/// object of exactly the three members, in any order, each exactly once.
pub open spec fn parse_obj_at(s: Seq<u8>, i: int) -> Option<(FrameMeta, int)> {
    if 0 <= i && i < s.len() && s[i] == 123 {
        let i1 = skip_ws_from(s, i + 1);
        match parse_member_at(s, i1) {
            Some((m1, j1)) => {
                let c1 = skip_ws_from(s, j1);
                if c1 < s.len() && s[c1] == 44 {
                    let i2 = skip_ws_from(s, c1 + 1);
                    match parse_member_at(s, i2) {
                        Some((m2, j2)) => {
                            let c2 = skip_ws_from(s, j2);
                            if c2 < s.len() && s[c2] == 44 {
                                let i3 = skip_ws_from(s, c2 + 1);
                                match parse_member_at(s, i3) {
                                    Some((m3, j3)) => {
                                        let c3 = skip_ws_from(s, j3);
                                        if c3 < s.len() && s[c3] == 125 {
                                            match fields_to_meta(m1, m2, m3) {
                                                Some(f) => Some((f, c3 + 1)),
                                                None => None,
                                            }
                                        } else {
                                            None
                                        }
                                    },
                                    None => None,
                                }
                            } else {
                                None
                            }
                        },
                        None => None,
                    }
                } else {
                    None
                }
            },
            None => None,
        }
    } else {
        None
    }
}

/// A parsed number ends after at least one digit, within the input.
pub proof fn lemma_parse_num_bounds(s: Seq<u8>, i: int)
    requires
        0 <= i <= s.len(),
    ensures
        (match parse_num_at(s, i) {
            Some((x, j)) => i < j <= s.len(),
            None => true,
        }),
{
    lemma_digits_end(s, i);
}

/// A parsed member ends after its name, colon and value, within the input.
pub proof fn lemma_parse_member_bounds(s: Seq<u8>, i: int)
    requires
        0 <= i <= s.len(),
    ensures
        (match parse_member_at(s, i) {
            Some((m, j)) => i < j <= s.len(),
            None => true,
        }),
{
    if match_at(s, i, key_position_bytes()) {
        lemma_skip_ws(s, i + 10);
        let c = skip_ws_from(s, i + 10);
        if c < s.len() && s[c] == 58 {
            lemma_skip_ws(s, c + 1);
            lemma_parse_num_bounds(s, skip_ws_from(s, c + 1));
        }
    } else if match_at(s, i, key_length_bytes()) {
        lemma_skip_ws(s, i + 8);
        let c = skip_ws_from(s, i + 8);
        if c < s.len() && s[c] == 58 {
            lemma_skip_ws(s, c + 1);
            lemma_parse_num_bounds(s, skip_ws_from(s, c + 1));
        }
    } else if match_at(s, i, key_order_bytes()) {
        lemma_skip_ws(s, i + 7);
        let c = skip_ws_from(s, i + 7);
        if c < s.len() && s[c] == 58 {
            lemma_skip_ws(s, c + 1);
            lemma_parse_num_bounds(s, skip_ws_from(s, c + 1));
        }
    }
}

/// A parsed record ends after its closing brace, within the input.
pub proof fn lemma_parse_obj_bounds(s: Seq<u8>, i: int)
    requires
        0 <= i <= s.len(),
    ensures
        (match parse_obj_at(s, i) {
            Some((f, j)) => i < j <= s.len(),
            None => true,
        }),
{
    if i < s.len() && s[i] == 123 {
        lemma_skip_ws(s, i + 1);
        let i1 = skip_ws_from(s, i + 1);
        lemma_parse_member_bounds(s, i1);
        if parse_member_at(s, i1) is Some {
            let (m1, j1) = parse_member_at(s, i1)->Some_0;
            lemma_skip_ws(s, j1);
            let c1 = skip_ws_from(s, j1);
            if c1 < s.len() && s[c1] == 44 {
                let i2 = skip_ws_from(s, c1 + 1);
                lemma_skip_ws(s, c1 + 1);
                lemma_parse_member_bounds(s, i2);
                if parse_member_at(s, i2) is Some {
                    let (m2, j2) = parse_member_at(s, i2)->Some_0;
                    lemma_skip_ws(s, j2);
                    let c2 = skip_ws_from(s, j2);
                    if c2 < s.len() && s[c2] == 44 {
                        let i3 = skip_ws_from(s, c2 + 1);
                        lemma_skip_ws(s, c2 + 1);
                        lemma_parse_member_bounds(s, i3);
                        if parse_member_at(s, i3) is Some {
                            let (m3, j3) = parse_member_at(s, i3)->Some_0;
                            lemma_skip_ws(s, j3);
                        }
                    }
                }
            }
        }
    }
}

/// What parsing the rest of the record array yields, after the records in
/// `acc` have been read: either a closing bracket, or a comma and one more
/// record, repeatedly.
pub open spec fn parse_rest_at(s: Seq<u8>, i: int, acc: Seq<FrameMeta>) -> Option<
    (Seq<FrameMeta>, int),
>
    decreases s.len() - i,
    when 0 <= i <= s.len()
{
    let j = skip_ws_from(s, i);
    if j < s.len() && s[j] == 93 {
        Some((acc, j + 1))
    } else if j < s.len() && s[j] == 44 {
        let k = skip_ws_from(s, j + 1);
        match parse_obj_at(s, k) {
            Some((f, e)) => {
                proof {
                    lemma_skip_ws(s, i);
                    lemma_skip_ws(s, j + 1);
                    lemma_parse_obj_bounds(s, k);
                }
                parse_rest_at(s, e, acc.push(f))
            },
            None => None,
        }
    } else {
        None
    }
}

fn skip_ws(s: &[u8], i: usize) -> (r: usize)
    requires
        i <= s@.len(),
    ensures
        r == skip_ws_from(s@, i as int),
        i <= r <= s@.len(),
{
    let n: usize = s.len();
    let mut j: usize = i;
    loop
        invariant_except_break
            i <= j <= n,
            n == s@.len(),
            skip_ws_from(s@, i as int) == skip_ws_from(s@, j as int),
        ensures
            i <= j <= n,
            n == s@.len(),
            j == skip_ws_from(s@, i as int),
        decreases n - j,
    {
        if j == n {
            break;
        }
        let b = s[j];
        if !(b == 32 || b == 9 || b == 10 || b == 13) {
            break;
        }
        j = j + 1;
    }
    j
}

fn parse_num(s: &[u8], i: usize) -> (r: Option<(u64, usize)>)
    requires
        i <= s@.len(),
    ensures
        r is Some <==> parse_num_at(s@, i as int) is Some,
        r matches Some(p) ==> parse_num_at(s@, i as int) == Some((p.0, p.1 as int)),
{
    let n: usize = s.len();
    let mut j: usize = i;
    loop
        invariant_except_break
            i <= j <= n,
            n == s@.len(),
            digits_end(s@, i as int) == digits_end(s@, j as int),
        ensures
            i <= j <= n,
            n == s@.len(),
            j == digits_end(s@, i as int),
        decreases n - j,
    {
        if j == n {
            break;
        }
        let b = s[j];
        if !(48 <= b && b <= 57) {
            break;
        }
        j = j + 1;
    }
    if j == i {
        return None;
    }
    proof {
        lemma_digits_end(s@, i as int);
    }
    let ghost digits = s@.subrange(i as int, j as int);
    let mut v: u64 = 0;
    let mut k: usize = i;
    loop
        invariant_except_break
            i <= k <= j <= n,
            i < j,
            n == s@.len(),
            digits == s@.subrange(i as int, j as int),
            j == digits_end(s@, i as int),
            forall|t: int| i <= t < j ==> is_digit_byte(s@[t]),
            v == digits_value(s@.subrange(i as int, k as int)),
        ensures
            v == digits_value(digits),
            digits == s@.subrange(i as int, j as int),
            j == digits_end(s@, i as int),
            i < j <= n,
            n == s@.len(),
        decreases j - k,
    {
        if k == j {
            assert(s@.subrange(i as int, k as int) == digits);
            break;
        }
        let b = s[k];
        let d = b - 48;
        let ghost prev = s@.subrange(i as int, k as int);
        let ghost cur = s@.subrange(i as int, k + 1);
        assert(cur.drop_last() =~= prev);
        assert(cur.last() == s@[k as int]);
        if v > (u64::MAX - d as u64) / 10 {
            proof {
                assert(digits_value(cur) > u64::MAX) by (nonlinear_arith)
                    requires
                        digits_value(cur) == digits_value(prev) * 10 + (s@[k as int] - 48),
                        s@[k as int] - 48 == d,
                        v == digits_value(prev),
                        v > (u64::MAX - d as u64) / 10,
                        0 <= d <= 9,
                ;
                assert(crate::records::all_digits(digits));
                lemma_digits_value_mono(digits, k + 1 - i);
                assert(digits.take(k + 1 - i) =~= cur);
            }
            return None;
        }
        proof {
            assert(digits_value(prev) * 10 + (s@[k as int] - 48) <= u64::MAX) by (nonlinear_arith)
                requires
                    v == digits_value(prev),
                    v <= (u64::MAX - d as u64) / 10,
                    s@[k as int] - 48 == d,
                    0 <= d <= 9,
            ;
        }
        v = v * 10 + d as u64;
        k = k + 1;
    }
    proof {
        assert(crate::records::all_digits(digits));
    }
    Some((v, j))
}

fn match_bytes(s: &[u8], i: usize, w: &[u8]) -> (r: bool)
    requires
        i <= s@.len(),
    ensures
        r == match_at(s@, i as int, w@),
{
    let n: usize = s.len();
    let wn: usize = w.len();
    if wn > n - i {
        return false;
    }
    let mut k: usize = 0;
    loop
        invariant_except_break
            k <= wn,
            i + wn <= n,
            n == s@.len(),
            wn == w@.len(),
            forall|t: int| 0 <= t < k ==> s@[i + t] == w@[t],
        ensures
            k == wn,
            i + wn <= n,
            n == s@.len(),
            wn == w@.len(),
            forall|t: int| 0 <= t < wn ==> s@[i + t] == w@[t],
        decreases wn - k,
    {
        if k == wn {
            break;
        }
        if s[i + k] != w[k] {
            proof {
                assert(s@.subrange(i as int, i + w@.len())[k as int] != w@[k as int]);
            }
            return false;
        }
        k = k + 1;
    }
    proof {
        assert(s@.subrange(i as int, i + w@.len()) =~= w@);
    }
    true
}

fn kw_position() -> (v: Vec<u8>)
    ensures
        v@ == key_position_bytes(),
{
    let mut v: Vec<u8> = Vec::new();
    v.push(34);
    v.push(112);
    v.push(111);
    v.push(115);
    v.push(105);
    v.push(116);
    v.push(105);
    v.push(111);
    v.push(110);
    v.push(34);
    proof {
        assert(v@ =~= key_position_bytes());
    }
    v
}

fn kw_length() -> (v: Vec<u8>)
    ensures
        v@ == key_length_bytes(),
{
    let mut v: Vec<u8> = Vec::new();
    v.push(34);
    v.push(108);
    v.push(101);
    v.push(110);
    v.push(103);
    v.push(116);
    v.push(104);
    v.push(34);
    proof {
        assert(v@ =~= key_length_bytes());
    }
    v
}

fn kw_order() -> (v: Vec<u8>)
    ensures
        v@ == key_order_bytes(),
{
    let mut v: Vec<u8> = Vec::new();
    v.push(34);
    v.push(111);
    v.push(114);
    v.push(100);
    v.push(101);
    v.push(114);
    v.push(34);
    proof {
        assert(v@ =~= key_order_bytes());
    }
    v
}

fn parse_member(s: &[u8], i: usize) -> (r: Option<((u8, u64), usize)>)
    requires
        i <= s@.len(),
    ensures
        r is Some <==> parse_member_at(s@, i as int) is Some,
        r matches Some(p) ==> parse_member_at(s@, i as int) == Some(((p.0.0, p.0.1), p.1 as int)),
{
    let n: usize = s.len();
    let kwp = kw_position();
    let kwl = kw_length();
    let kwo = kw_order();
    let mp = match_bytes(s, i, kwp.as_slice());
    let ml = match_bytes(s, i, kwl.as_slice());
    let mo = match_bytes(s, i, kwo.as_slice());
    proof {
        assert(key_position_bytes().len() == 10);
        assert(key_length_bytes().len() == 8);
        assert(key_order_bytes().len() == 7);
    }
    let (w, j): (u8, usize) = if mp {
        (0, i + 10)
    } else if ml {
        (1, i + 8)
    } else if mo {
        (2, i + 7)
    } else {
        return None;
    };
    let c = skip_ws(s, j);
    if c == s.len() {
        return None;
    }
    if s[c] != 58 {
        return None;
    }
    let v = skip_ws(s, c + 1);
    match parse_num(s, v) {
        Some((x, e)) => Some(((w, x), e)),
        None => None,
    }
}

fn fields_meta(m1: (u8, u64), m2: (u8, u64), m3: (u8, u64)) -> (r: Option<FrameMeta>)
    ensures
        r == fields_to_meta(m1, m2, m3),
{
    if m1.0 != m2.0 && m1.0 != m3.0 && m2.0 != m3.0 {
        Some(
            FrameMeta {
                position: if m1.0 == 0 {
                    m1.1
                } else if m2.0 == 0 {
                    m2.1
                } else {
                    m3.1
                },
                length: if m1.0 == 1 {
                    m1.1
                } else if m2.0 == 1 {
                    m2.1
                } else {
                    m3.1
                },
                order: if m1.0 == 2 {
                    m1.1
                } else if m2.0 == 2 {
                    m2.1
                } else {
                    m3.1
                },
            },
        )
    } else {
        None
    }
}

fn parse_obj(s: &[u8], i: usize) -> (r: Option<(FrameMeta, usize)>)
    requires
        i <= s@.len(),
    ensures
        r is Some <==> parse_obj_at(s@, i as int) is Some,
        r matches Some(p) ==> parse_obj_at(s@, i as int) == Some((p.0, p.1 as int)),
{
    let n: usize = s.len();
    if i == n {
        return None;
    }
    if s[i] != 123 {
        return None;
    }
    let i1 = skip_ws(s, i + 1);
    let m1 = match parse_member(s, i1) {
        Some(m) => m,
        None => return None,
    };
    proof {
        lemma_parse_member_bounds(s@, i1 as int);
    }
    let c1 = skip_ws(s, m1.1);
    if c1 == n {
        return None;
    }
    if s[c1] != 44 {
        return None;
    }
    let i2 = skip_ws(s, c1 + 1);
    let m2 = match parse_member(s, i2) {
        Some(m) => m,
        None => return None,
    };
    proof {
        lemma_parse_member_bounds(s@, i2 as int);
    }
    let c2 = skip_ws(s, m2.1);
    if c2 == n {
        return None;
    }
    if s[c2] != 44 {
        return None;
    }
    let i3 = skip_ws(s, c2 + 1);
    let m3 = match parse_member(s, i3) {
        Some(m) => m,
        None => return None,
    };
    proof {
        lemma_parse_member_bounds(s@, i3 as int);
    }
    let c3 = skip_ws(s, m3.1);
    if c3 == n {
        return None;
    }
    if s[c3] != 125 {
        return None;
    }
    match fields_meta(m1.0, m2.0, m3.0) {
        Some(f) => Some((f, c3 + 1)),
        None => None,
    }
}

/// What the remainder of a successful array parse contributes to the whole
/// document's value.
spec fn rest_doc(s: Seq<u8>, i: int, acc: Seq<FrameMeta>) -> Option<Seq<FrameMeta>> {
    match parse_rest_at(s, i, acc) {
        Some((fs, e)) => if skip_ws_from(s, e) == s.len() {
            Some(fs)
        } else {
            None
        },
        None => None,
    }
}

/// Deserializes the index document into its ordered frame descriptors.  A
/// document that is not well formed is reported as a malformed index; no
/// partial recovery is attempted.
pub fn load_frame_index(bytes: &[u8]) -> (r: Result<Vec<FrameMeta>, CodecError>)
    ensures
        (match parse_index_doc(bytes@) {
            Some(fs) => r matches Ok(v) && v@ == fs,
            None => r == Err::<Vec<FrameMeta>, CodecError>(CodecError::MalformedIndex),
        }),
{
    let n: usize = bytes.len();
    let i = skip_ws(bytes, 0);
    if i == n {
        return Err(CodecError::MalformedIndex);
    }
    if bytes[i] != 91 {
        return Err(CodecError::MalformedIndex);
    }
    let j = skip_ws(bytes, i + 1);
    if j < n && bytes[j] == 93 {
        if skip_ws(bytes, j + 1) == n {
            let v: Vec<FrameMeta> = Vec::new();
            proof {
                assert(v@ =~= Seq::<FrameMeta>::empty());
            }
            return Ok(v);
        }
        return Err(CodecError::MalformedIndex);
    }
    let first = match parse_obj(bytes, j) {
        Some(p) => p,
        None => return Err(CodecError::MalformedIndex),
    };
    proof {
        lemma_parse_obj_bounds(bytes@, j as int);
    }
    let mut acc: Vec<FrameMeta> = Vec::new();
    acc.push(first.0);
    let mut pos: usize = first.1;
    proof {
        assert(acc@ =~= seq![first.0]);
    }
    let mut end: usize = 0;
    loop
        invariant_except_break
            pos <= n,
            n == bytes@.len(),
            parse_index_doc(bytes@) == rest_doc(bytes@, pos as int, acc@),
        ensures
            n == bytes@.len(),
            end <= n,
            parse_index_doc(bytes@) == (if skip_ws_from(bytes@, end as int) == n {
                Some(acc@)
            } else {
                None::<Seq<FrameMeta>>
            }),
        decreases n - pos,
    {
        let j2 = skip_ws(bytes, pos);
        if j2 < n && bytes[j2] == 93 {
            end = j2 + 1;
            break;
        }
        if j2 == n {
            return Err(CodecError::MalformedIndex);
        }
        if bytes[j2] != 44 {
            return Err(CodecError::MalformedIndex);
        }
        let k = skip_ws(bytes, j2 + 1);
        let ob = match parse_obj(bytes, k) {
            Some(p) => p,
            None => return Err(CodecError::MalformedIndex),
        };
        proof {
            lemma_parse_obj_bounds(bytes@, k as int);
        }
        let ghost prev_acc = acc@;
        acc.push(ob.0);
        pos = ob.1;
        proof {
            assert(acc@ =~= prev_acc.push(ob.0));
        }
    }
    if skip_ws(bytes, end) == n {
        Ok(acc)
    } else {
        Err(CodecError::MalformedIndex)
    }
}

/// What parsing the whole index document yields: a bracket-delimited array
/// of descriptor records and nothing but trailing whitespace after it.
pub open spec fn parse_index_doc(s: Seq<u8>) -> Option<Seq<FrameMeta>> {
    let i = skip_ws_from(s, 0);
    if i < s.len() && s[i] == 91 {
        let j = skip_ws_from(s, i + 1);
        if j < s.len() && s[j] == 93 {
            if skip_ws_from(s, j + 1) == s.len() {
                Some(Seq::empty())
            } else {
                None
            }
        } else {
            match parse_obj_at(s, j) {
                Some((f, e)) => match parse_rest_at(s, e, seq![f]) {
                    Some((fs, e2)) => if skip_ws_from(s, e2) == s.len() {
                        Some(fs)
                    } else {
                        None
                    },
                    None => None,
                },
                None => None,
            }
        }
    } else {
        None
    }
}

/// The decimal digits of `n`, most significant first.
pub open spec fn dec_digits(n: int) -> Seq<u8>
    decreases n,
    when n >= 0
{
    if n < 10 {
        seq![(48 + n) as u8]
    } else {
        dec_digits(n / 10).push((48 + n % 10) as u8)
    }
}

fn push_dec_digits(out: &mut Vec<u8>, n: u64)
    ensures
        final(out)@ == old(out)@ + dec_digits(n as int),
    decreases n,
{
    if n >= 10 {
        push_dec_digits(out, n / 10);
    }
    out.push(48 + (n % 10) as u8);
    proof {
        assert(out@ =~= old(out)@ + dec_digits(n as int));
    }
}

/// The text of one descriptor record: the three members in a fixed order,
/// without inner whitespace.
pub open spec fn emit_obj(f: FrameMeta) -> Seq<u8> {
    seq![123u8] + key_position_bytes() + seq![58u8] + dec_digits(f.position as int) + seq![44u8]
        + key_length_bytes() + seq![58u8] + dec_digits(f.length as int) + seq![44u8]
        + key_order_bytes() + seq![58u8] + dec_digits(f.order as int) + seq![125u8]
}

/// The records of the array, one per line, separated by commas.
pub open spec fn emit_objs(frames: Seq<FrameMeta>) -> Seq<u8>
    decreases frames.len(),
{
    if frames.len() == 0 {
        Seq::empty()
    } else if frames.len() == 1 {
        emit_obj(frames[0])
    } else {
        emit_objs(frames.drop_last()) + seq![44u8, 10u8] + emit_obj(frames.last())
    }
}

/// The whole persisted index document.
pub open spec fn emit_doc(frames: Seq<FrameMeta>) -> Seq<u8> {
    seq![91u8, 10u8] + emit_objs(frames) + seq![10u8, 93u8, 10u8]
}

fn push_obj(out: &mut Vec<u8>, f: &FrameMeta)
    ensures
        final(out)@ == old(out)@ + emit_obj(*f),
{
    out.push(123);
    let mut kw = kw_position();
    out.append(&mut kw);
    out.push(58);
    push_dec_digits(out, f.position);
    out.push(44);
    let mut kw2 = kw_length();
    out.append(&mut kw2);
    out.push(58);
    push_dec_digits(out, f.length);
    out.push(44);
    let mut kw3 = kw_order();
    out.append(&mut kw3);
    out.push(58);
    push_dec_digits(out, f.order);
    out.push(125);
    proof {
        assert(out@ =~= old(out)@ + emit_obj(*f));
    }
}

/// Serializes the frame index as its persisted text document, one
/// descriptor record per line, in index order.
pub fn emit_frame_index(frames: &Vec<FrameMeta>) -> (r: Vec<u8>)
    ensures
        r@ == emit_doc(frames@),
{
    let mut out: Vec<u8> = Vec::new();
    out.push(91);
    out.push(10);
    let n = frames.len();
    let mut j: usize = 0;
    while j < n
        invariant
            j <= n,
            n == frames@.len(),
            out@ == seq![91u8, 10u8] + emit_objs(frames@.take(j as int)),
        decreases n - j,
    {
        if j > 0 {
            out.push(44);
            out.push(10);
        }
        push_obj(&mut out, &frames[j]);
        proof {
            let fv = frames@;
            assert(fv.take(j + 1).drop_last() =~= fv.take(j as int));
            assert(fv.take(j + 1).last() == fv[j as int]);
            if j == 0 {
                assert(fv.take(1)[0] == fv[0]);
                assert(out@ =~= seq![91u8, 10u8] + emit_objs(fv.take(1)));
            } else {
                assert(out@ =~= seq![91u8, 10u8] + emit_objs(fv.take(j + 1)));
            }
        }
        j = j + 1;
    }
    proof {
        assert(frames@.take(n as int) =~= frames@);
    }
    out.push(10);
    out.push(93);
    out.push(10);
    proof {
        assert(out@ =~= emit_doc(frames@));
    }
    out
}

/// The emitted digits of `n` are digits, and they read back as `n`.
proof fn lemma_dec_digits(n: int)
    requires
        n >= 0,
    ensures
        dec_digits(n).len() >= 1,
        forall|k: int| 0 <= k < dec_digits(n).len() ==> is_digit_byte(#[trigger] dec_digits(n)[k]),
        digits_value(dec_digits(n)) == n,
    decreases n,
{
    if n < 10 {
        let d = dec_digits(n);
        assert(d =~= seq![(48 + n) as u8]);
        assert(d.len() == 1);
        assert(d.last() == (48 + n) as u8);
        assert(d.drop_last() =~= Seq::<u8>::empty());
        assert(digits_value(d.drop_last()) == 0);
        assert((48 + n) as u8 == 48 + n);
        assert(digits_value(d) == digits_value(d.drop_last()) * 10 + (d.last() - 48));
        assert(digits_value(d) == n);
    } else {
        lemma_dec_digits(n / 10);
        let d = dec_digits(n);
        assert(d.len() >= 2);
        assert(d.drop_last() =~= dec_digits(n / 10));
        assert(d.last() == (48 + n % 10) as u8);
        assert(0 <= n % 10 < 10);
        assert((48 + n % 10) as u8 == 48 + n % 10);
        assert(n == (n / 10) * 10 + n % 10) by (nonlinear_arith);
        assert(digits_value(d) == digits_value(d.drop_last()) * 10 + (d.last() - 48));
        assert(digits_value(d.drop_last()) == n / 10);
        assert(digits_value(d) == n);
        assert forall|k: int| 0 <= k < d.len() implies is_digit_byte(#[trigger] d[k]) by {
            if k < d.len() - 1 {
                assert(d[k] == dec_digits(n / 10)[k]);
            }
        }
    }
}

/// A run of digits closed off by a non-digit ends exactly at the closer.
proof fn lemma_digits_end_of_run(s: Seq<u8>, i: int, j: int)
    requires
        0 <= i <= j <= s.len(),
        forall|k: int| i <= k < j ==> is_digit_byte(s[k]),
        j == s.len() || !is_digit_byte(s[j]),
    ensures
        digits_end(s, i) == j,
    decreases j - i,
{
    if i < j {
        lemma_digits_end_of_run(s, i + 1, j);
    }
}

/// A number planted in the input, closed off by a non-digit, parses to
/// itself.
proof fn lemma_parse_num_planted(s: Seq<u8>, i: int, n: u64)
    requires
        0 <= i,
        i + dec_digits(n as int).len() <= s.len(),
        s.subrange(i, i + dec_digits(n as int).len()) == dec_digits(n as int),
        i + dec_digits(n as int).len() == s.len() || !is_digit_byte(
            s[i + dec_digits(n as int).len()],
        ),
    ensures
        parse_num_at(s, i) == Some((n, i + dec_digits(n as int).len())),
{
    lemma_dec_digits(n as int);
    let len = dec_digits(n as int).len() as int;
    assert forall|k: int| i <= k < i + len implies is_digit_byte(s[k]) by {
        assert(s.subrange(i, i + len)[k - i] == s[k]);
        assert(dec_digits(n as int)[k - i] == s[k]);
    }
    lemma_digits_end_of_run(s, i, i + len);
}

/// The member name bytes for each of the three member ids.
spec fn kw_of(which: u8) -> Seq<u8> {
    if which == 0 {
        key_position_bytes()
    } else if which == 1 {
        key_length_bytes()
    } else {
        key_order_bytes()
    }
}

/// A member planted in the input — name, colon, digits, closed off by a
/// non-digit — parses to its id and value.
proof fn lemma_parse_member_planted(s: Seq<u8>, i: int, which: u8, n: u64)
    requires
        which < 3,
        0 <= i,
        i + kw_of(which).len() + 1 + dec_digits(n as int).len() <= s.len(),
        s.subrange(i, i + kw_of(which).len()) == kw_of(which),
        s[i + kw_of(which).len()] == 58,
        s.subrange(
            i + kw_of(which).len() + 1,
            i + kw_of(which).len() + 1 + dec_digits(n as int).len(),
        ) == dec_digits(n as int),
        i + kw_of(which).len() + 1 + dec_digits(n as int).len() == s.len() || !is_digit_byte(
            s[i + kw_of(which).len() + 1 + dec_digits(n as int).len()],
        ),
    ensures
        parse_member_at(s, i) == Some(
            ((which, n), i + kw_of(which).len() + 1 + dec_digits(n as int).len()),
        ),
{
    let kw = kw_of(which);
    let kl = kw.len() as int;
    assert(match_at(s, i, kw));
    assert(s[i + 1] == kw[1]) by {
        assert(s.subrange(i, i + kl)[1] == s[i + 1]);
    }
    if which == 1 {
        assert(kw[1] == 108);
        if match_at(s, i, key_position_bytes()) {
            assert(s.subrange(i, i + 10)[1] == s[i + 1]);
            assert(s[i + 1] == 112);
        }
        assert(!match_at(s, i, key_position_bytes()));
    }
    if which == 2 {
        assert(kw[1] == 111) by {
            assert(key_order_bytes()[1] == 111);
        }
        if match_at(s, i, key_position_bytes()) {
            assert(s.subrange(i, i + 10)[1] == s[i + 1]);
            assert(s[i + 1] == 112);
        }
        assert(!match_at(s, i, key_position_bytes()));
        if match_at(s, i, key_length_bytes()) {
            assert(s.subrange(i, i + 8)[1] == s[i + 1]);
            assert(s[i + 1] == 108);
        }
        assert(!match_at(s, i, key_length_bytes()));
    }
    assert(skip_ws_from(s, i + kl) == i + kl);
    lemma_dec_digits(n as int);
    let dlen = dec_digits(n as int).len() as int;
    assert(s[i + kl + 1] == dec_digits(n as int)[0]) by {
        assert(s.subrange(i + kl + 1, i + kl + 1 + dlen)[0] == s[i + kl + 1]);
    }
    assert(is_digit_byte(s[i + kl + 1]));
    assert(skip_ws_from(s, i + kl + 1) == i + kl + 1);
    lemma_parse_num_planted(s, i + kl + 1, n);
}

/// A descriptor record planted in the input parses to its descriptor and
/// ends just after its closing brace.
#[verifier::rlimit(50)]
proof fn lemma_parse_obj_planted(s: Seq<u8>, i: int, f: FrameMeta)
    requires
        0 <= i,
        i + emit_obj(f).len() <= s.len(),
        s.subrange(i, i + emit_obj(f).len()) == emit_obj(f),
    ensures
        parse_obj_at(s, i) == Some((f, i + emit_obj(f).len())),
{
    let ob = emit_obj(f);
    let l1 = dec_digits(f.position as int).len() as int;
    let l2 = dec_digits(f.length as int).len() as int;
    let l3 = dec_digits(f.order as int).len() as int;
    lemma_dec_digits(f.position as int);
    lemma_dec_digits(f.length as int);
    lemma_dec_digits(f.order as int);
    assert(key_position_bytes().len() == 10);
    assert(key_length_bytes().len() == 8);
    assert(key_order_bytes().len() == 7);
    assert(ob == seq![123u8] + key_position_bytes() + seq![58u8] + dec_digits(f.position as int)
        + seq![44u8] + key_length_bytes() + seq![58u8] + dec_digits(f.length as int) + seq![44u8]
        + key_order_bytes() + seq![58u8] + dec_digits(f.order as int) + seq![125u8]);
    assert(ob.len() == 32 + l1 + l2 + l3);
    assert forall|k: int| 0 <= k < ob.len() implies #[trigger] s[i + k] == ob[k] by {
        assert(s.subrange(i, i + ob.len())[k] == s[i + k]);
    }
    assert(s[i + 0] == 123) by {
        assert(ob[0] == 123);
    }
    assert(s[i] == 123);
    assert(s[i + 1] == 34) by {
        assert(ob[1] == key_position_bytes()[0]);
    }
    assert(skip_ws_from(s, i + 1) == i + 1);
    assert(s.subrange(i + 1, i + 11) =~= key_position_bytes()) by {
        assert forall|t: int| 0 <= t < 10 implies s.subrange(i + 1, i + 11)[t]
            == key_position_bytes()[t] by {
            assert(s[i + (1 + t)] == ob[1 + t]);
            assert(ob[1 + t] == key_position_bytes()[t]);
        }
    }
    assert(s[i + 11] == 58) by {
        assert(ob[11] == 58);
    }
    assert(s.subrange(i + 12, i + 12 + l1) =~= dec_digits(f.position as int)) by {
        assert forall|t: int| 0 <= t < l1 implies s.subrange(i + 12, i + 12 + l1)[t] == dec_digits(
            f.position as int,
        )[t] by {
            assert(s[i + (12 + t)] == ob[12 + t]);
            assert(ob[12 + t] == dec_digits(f.position as int)[t]);
        }
    }
    assert(s[i + (12 + l1)] == 44) by {
        assert(ob[12 + l1] == 44);
    }
    lemma_parse_member_planted(s, i + 1, 0, f.position);
    assert(parse_member_at(s, i + 1) == Some(((0u8, f.position), i + 12 + l1)));
    assert(skip_ws_from(s, i + 12 + l1) == i + 12 + l1);
    assert(s[i + (13 + l1)] == 34) by {
        assert(ob[13 + l1] == key_length_bytes()[0]);
    }
    assert(skip_ws_from(s, i + 13 + l1) == i + 13 + l1);
    assert(s.subrange(i + 13 + l1, i + 21 + l1) =~= key_length_bytes()) by {
        assert forall|t: int| 0 <= t < 8 implies s.subrange(i + 13 + l1, i + 21 + l1)[t]
            == key_length_bytes()[t] by {
            assert(s[i + (13 + l1 + t)] == ob[13 + l1 + t]);
            assert(ob[13 + l1 + t] == key_length_bytes()[t]);
        }
    }
    assert(s[i + (21 + l1)] == 58) by {
        assert(ob[21 + l1] == 58);
    }
    assert(s.subrange(i + 22 + l1, i + 22 + l1 + l2) =~= dec_digits(f.length as int)) by {
        assert forall|t: int| 0 <= t < l2 implies s.subrange(i + 22 + l1, i + 22 + l1 + l2)[t]
            == dec_digits(f.length as int)[t] by {
            assert(s[i + (22 + l1 + t)] == ob[22 + l1 + t]);
            assert(ob[22 + l1 + t] == dec_digits(f.length as int)[t]);
        }
    }
    assert(s[i + (22 + l1 + l2)] == 44) by {
        assert(ob[22 + l1 + l2] == 44);
    }
    lemma_parse_member_planted(s, i + 13 + l1, 1, f.length);
    assert(parse_member_at(s, i + 13 + l1) == Some(((1u8, f.length), i + 22 + l1 + l2)));
    assert(skip_ws_from(s, i + 22 + l1 + l2) == i + 22 + l1 + l2);
    assert(s[i + (23 + l1 + l2)] == 34) by {
        assert(ob[23 + l1 + l2] == key_order_bytes()[0]);
    }
    assert(skip_ws_from(s, i + 23 + l1 + l2) == i + 23 + l1 + l2);
    assert(s.subrange(i + 23 + l1 + l2, i + 30 + l1 + l2) =~= key_order_bytes()) by {
        assert forall|t: int| 0 <= t < 7 implies s.subrange(i + 23 + l1 + l2, i + 30 + l1 + l2)[t]
            == key_order_bytes()[t] by {
            assert(s[i + (23 + l1 + l2 + t)] == ob[23 + l1 + l2 + t]);
            assert(ob[23 + l1 + l2 + t] == key_order_bytes()[t]);
        }
    }
    assert(s[i + (30 + l1 + l2)] == 58) by {
        assert(ob[30 + l1 + l2] == 58);
    }
    assert(s.subrange(i + 31 + l1 + l2, i + 31 + l1 + l2 + l3) =~= dec_digits(f.order as int))
        by {
        assert forall|t: int| 0 <= t < l3 implies s.subrange(
            i + 31 + l1 + l2,
            i + 31 + l1 + l2 + l3,
        )[t] == dec_digits(f.order as int)[t] by {
            assert(s[i + (31 + l1 + l2 + t)] == ob[31 + l1 + l2 + t]);
            assert(ob[31 + l1 + l2 + t] == dec_digits(f.order as int)[t]);
        }
    }
    assert(s[i + (31 + l1 + l2 + l3)] == 125) by {
        assert(ob[31 + l1 + l2 + l3] == 125);
    }
    lemma_parse_member_planted(s, i + 23 + l1 + l2, 2, f.order);
    assert(parse_member_at(s, i + 23 + l1 + l2) == Some(
        ((2u8, f.order), i + 31 + l1 + l2 + l3),
    ));
    assert(skip_ws_from(s, i + 31 + l1 + l2 + l3) == i + 31 + l1 + l2 + l3);
    assert(fields_to_meta((0u8, f.position), (1u8, f.length), (2u8, f.order)) == Some(f));
}

/// The emitted records after the first one: a separator and a record,
/// repeatedly.
spec fn sep_objs(rest: Seq<FrameMeta>) -> Seq<u8>
    decreases rest.len(),
{
    if rest.len() == 0 {
        Seq::empty()
    } else {
        seq![44u8, 10u8] + emit_obj(rest[0]) + sep_objs(rest.drop_first())
    }
}

proof fn lemma_sep_objs_push(rest: Seq<FrameMeta>, f: FrameMeta)
    ensures
        sep_objs(rest.push(f)) == sep_objs(rest) + seq![44u8, 10u8] + emit_obj(f),
    decreases rest.len(),
{
    if rest.len() == 0 {
        assert(rest.push(f)[0] == f);
        assert(rest.push(f).drop_first() =~= Seq::<FrameMeta>::empty());
        assert(sep_objs(Seq::<FrameMeta>::empty()) =~= Seq::<u8>::empty());
        assert(sep_objs(rest.push(f)) =~= sep_objs(rest) + seq![44u8, 10u8] + emit_obj(f));
    } else {
        assert(rest.push(f).drop_first() =~= rest.drop_first().push(f));
        lemma_sep_objs_push(rest.drop_first(), f);
        assert(rest.push(f)[0] == rest[0]);
        assert(sep_objs(rest.push(f)) =~= sep_objs(rest) + seq![44u8, 10u8] + emit_obj(f));
    }
}

/// The emitted array read from the front: the first record, then the rest
/// with their separators.
proof fn lemma_emit_objs_front(frames: Seq<FrameMeta>)
    requires
        frames.len() >= 1,
    ensures
        emit_objs(frames) == emit_obj(frames[0]) + sep_objs(frames.drop_first()),
    decreases frames.len(),
{
    if frames.len() == 1 {
        assert(frames.drop_first() =~= Seq::<FrameMeta>::empty());
        assert(emit_objs(frames) =~= emit_obj(frames[0]) + sep_objs(frames.drop_first()));
    } else {
        let dl = frames.drop_last();
        lemma_emit_objs_front(dl);
        lemma_sep_objs_push(dl.drop_first(), frames.last());
        assert(dl[0] == frames[0]);
        assert(dl.drop_first().push(frames.last()) =~= frames.drop_first());
        assert(emit_objs(frames) =~= emit_obj(frames[0]) + sep_objs(frames.drop_first()));
    }
}

proof fn lemma_emit_obj_first(f: FrameMeta)
    ensures
        emit_obj(f).len() >= 32,
        emit_obj(f)[0] == 123,
{
    lemma_dec_digits(f.position as int);
    lemma_dec_digits(f.length as int);
    lemma_dec_digits(f.order as int);
    assert(key_position_bytes().len() == 10);
    assert(key_length_bytes().len() == 8);
    assert(key_order_bytes().len() == 7);
    assert(emit_obj(f) == seq![123u8] + key_position_bytes() + seq![58u8] + dec_digits(
        f.position as int,
    ) + seq![44u8] + key_length_bytes() + seq![58u8] + dec_digits(f.length as int) + seq![44u8]
        + key_order_bytes() + seq![58u8] + dec_digits(f.order as int) + seq![125u8]);
}

/// The rest of a planted array parses to the remaining descriptors and
/// stops just after the closing bracket.
#[verifier::rlimit(100)]
proof fn lemma_parse_rest_planted(
    s: Seq<u8>,
    i: int,
    done: Seq<FrameMeta>,
    rest: Seq<FrameMeta>,
)
    requires
        0 <= i <= s.len(),
        s.subrange(i, s.len() as int) == sep_objs(rest) + seq![10u8, 93u8, 10u8],
    ensures
        parse_rest_at(s, i, done) == Some((done + rest, s.len() - 1)),
    decreases rest.len(),
{
    let suffix = sep_objs(rest) + seq![10u8, 93u8, 10u8];
    assert(s.len() - i == suffix.len());
    assert forall|k: int| 0 <= k < suffix.len() implies #[trigger] s[i + k] == suffix[k] by {
        assert(s.subrange(i, s.len() as int)[k] == s[i + k]);
    }
    if rest.len() == 0 {
        assert(suffix =~= seq![10u8, 93u8, 10u8]);
        assert(s[i + 0] == 10);
        assert(s[i + 1] == 93);
        assert(skip_ws_from(s, i + 1) == i + 1);
        assert(skip_ws_from(s, i) == i + 1);
        assert(done + rest =~= done);
        assert(i + 2 == s.len() - 1);
        assert(parse_rest_at(s, i, done) == Some((done, i + 2)));
    } else {
        let ob0 = emit_obj(rest[0]);
        let len0 = ob0.len() as int;
        lemma_emit_obj_first(rest[0]);
        assert(suffix =~= seq![44u8, 10u8] + ob0 + (sep_objs(rest.drop_first()) + seq![
            10u8,
            93u8,
            10u8,
        ]));
        assert(s[i + 0] == 44) by {
            assert(suffix[0] == 44);
        }
        assert(s[i + 1] == 10) by {
            assert(suffix[1] == 10);
        }
        assert(s[i + 2] == 123) by {
            assert(suffix[2] == ob0[0]);
        }
        assert(skip_ws_from(s, i) == i);
        assert(skip_ws_from(s, i + 2) == i + 2);
        assert(skip_ws_from(s, i + 1) == i + 2);
        assert(s.subrange(i + 2, i + 2 + len0) =~= ob0) by {
            assert forall|t: int| 0 <= t < len0 implies s.subrange(i + 2, i + 2 + len0)[t]
                == ob0[t] by {
                assert(s[i + (2 + t)] == suffix[2 + t]);
                assert(suffix[2 + t] == ob0[t]);
            }
        }
        lemma_parse_obj_planted(s, i + 2, rest[0]);
        assert(parse_obj_at(s, i + 2) == Some((rest[0], i + 2 + len0)));
        assert(s.subrange(i + 2 + len0, s.len() as int) =~= sep_objs(rest.drop_first()) + seq![
            10u8,
            93u8,
            10u8,
        ]) by {
            assert forall|t: int| 0 <= t < s.len() - (i + 2 + len0) implies s.subrange(
                i + 2 + len0,
                s.len() as int,
            )[t] == (sep_objs(rest.drop_first()) + seq![10u8, 93u8, 10u8])[t] by {
                assert(s[i + (2 + len0 + t)] == suffix[2 + len0 + t]);
                assert(suffix[2 + len0 + t] == (sep_objs(rest.drop_first()) + seq![
                    10u8,
                    93u8,
                    10u8,
                ])[t]);
            }
        }
        lemma_parse_rest_planted(s, i + 2 + len0, done.push(rest[0]), rest.drop_first());
        assert(done.push(rest[0]) + rest.drop_first() =~= done + rest);
        assert(parse_rest_at(s, i, done) == parse_rest_at(s, i + 2 + len0, done.push(rest[0])));
    }
}

/// The byte layout of a non-empty emitted document: opening bracket and
/// newline, the first record, then the separated rest and the closing
/// bracket.
#[verifier::rlimit(100)]
proof fn lemma_doc_layout(frames: Seq<FrameMeta>)
    requires
        frames.len() >= 1,
    ensures
        ({
            let s = emit_doc(frames);
            let ob0 = emit_obj(frames[0]);
            let tail = sep_objs(frames.drop_first()) + seq![10u8, 93u8, 10u8];
            &&& s.len() == 2 + ob0.len() + tail.len()
            &&& ob0.len() >= 32
            &&& s[0] == 91
            &&& s[1] == 10
            &&& s[2] == 123
            &&& s.subrange(2, 2 + ob0.len() as int) == ob0
            &&& s.subrange(2 + ob0.len() as int, s.len() as int) == tail
            &&& s[s.len() - 1] == 10
        }),
{
    let s = emit_doc(frames);
    lemma_emit_objs_front(frames);
    let ob0 = emit_obj(frames[0]);
    let len0 = ob0.len() as int;
    lemma_emit_obj_first(frames[0]);
    let tail = sep_objs(frames.drop_first()) + seq![10u8, 93u8, 10u8];
    assert(s =~= seq![91u8, 10u8] + ob0 + tail);
    assert(s.len() == 2 + len0 + tail.len());
    assert(s[0] == 91) by {
        assert((seq![91u8, 10u8] + ob0 + tail)[0] == 91);
    }
    assert(s[1] == 10) by {
        assert((seq![91u8, 10u8] + ob0 + tail)[1] == 10);
    }
    assert(s[2] == 123) by {
        assert((seq![91u8, 10u8] + ob0 + tail)[2] == ob0[0]);
    }
    assert(s.subrange(2, 2 + len0) =~= ob0) by {
        assert forall|t: int| 0 <= t < len0 implies s.subrange(2, 2 + len0)[t] == ob0[t] by {
            assert(s[2 + t] == (seq![91u8, 10u8] + ob0 + tail)[2 + t]);
            assert((seq![91u8, 10u8] + ob0 + tail)[2 + t] == ob0[t]);
        }
    }
    assert(s.subrange(2 + len0, s.len() as int) =~= tail) by {
        assert forall|t: int| 0 <= t < tail.len() implies s.subrange(2 + len0, s.len() as int)[t]
            == tail[t] by {
            assert(s[2 + len0 + t] == (seq![91u8, 10u8] + ob0 + tail)[2 + len0 + t]);
            assert((seq![91u8, 10u8] + ob0 + tail)[2 + len0 + t] == tail[t]);
        }
    }
    assert(s[s.len() - 1] == 10) by {
        assert((seq![91u8, 10u8] + ob0 + tail)[s.len() - 1] == tail[tail.len() - 1]);
        assert(tail[tail.len() - 1] == 10);
    }
}

/// Index round trip (law): loading the document the index emitter wrote
/// yields exactly the descriptors that were written.
#[verifier::rlimit(100)]
pub proof fn lemma_index_roundtrip(frames: Seq<FrameMeta>)
    ensures
        parse_index_doc(emit_doc(frames)) == Some(frames),
{
    let s = emit_doc(frames);
    if frames.len() == 0 {
        assert(emit_objs(frames) =~= Seq::<u8>::empty());
        assert(s =~= seq![91u8, 10u8, 10u8, 93u8, 10u8]);
        assert(s[0] == 91);
        assert(skip_ws_from(s, 0) == 0);
        assert(skip_ws_from(s, 3) == 3);
        assert(skip_ws_from(s, 2) == 3);
        assert(skip_ws_from(s, 1) == 3);
        assert(s[3] == 93);
        assert(skip_ws_from(s, 5) == 5);
        assert(skip_ws_from(s, 4) == 5);
        assert(frames =~= Seq::<FrameMeta>::empty());
    } else {
        lemma_doc_layout(frames);
        let ob0 = emit_obj(frames[0]);
        let len0 = ob0.len() as int;
        assert(skip_ws_from(s, 0) == 0);
        assert(skip_ws_from(s, 2) == 2);
        assert(skip_ws_from(s, 1) == 2);
        lemma_parse_obj_planted(s, 2, frames[0]);
        assert(parse_obj_at(s, 2) == Some((frames[0], 2 + len0)));
        lemma_parse_rest_planted(s, 2 + len0, seq![frames[0]], frames.drop_first());
        assert(seq![frames[0]] + frames.drop_first() =~= frames);
        assert(parse_rest_at(s, 2 + len0, seq![frames[0]]) == Some((frames, s.len() - 1)));
        assert(skip_ws_from(s, s.len() as int) == s.len());
        assert(skip_ws_from(s, s.len() - 1) == s.len());
    }
}

} // verus!
