//! The byte-level grammar of the export format.
//!
//! A record is a run of fields closed by a lone newline. A field is a name,
//! which holds neither `=` nor a newline, followed by its value in one of two
//! forms: `=`, the value without any newline, and a newline; or a newline, the
//! value's length as eight little-endian bytes, the value as it is, and a
//! newline.
//!
//! Every parser here works on the bytes that are at hand. Where they stop
//! before an element is whole, the parser answers [`ParseError::Incomplete`]
//! with the least number of further bytes that the element needs; the same
//! call on a longer buffer then goes on from the same place.

use vstd::prelude::*;
use vstd::slice::slice_subrange;

verus! {

/// Separates a name from a value in text form.
pub const EQUALS: u8 = 0x3D;

/// Ends a text value, introduces a binary value, and closes a record.
pub const NEWLINE: u8 = 0x0A;

/// Why a parser did not hand out an element.
#[derive(Debug, Clone, Copy, PartialEq, Eq, Structural)]
pub enum ParseError {
    /// The bytes at hand are the beginning of an element and end before it
    /// does. The number is how many more bytes the element needs at least.
    Incomplete(u64),
    /// A name of no bytes: `=` or a newline stands where a name must begin.
    EmptyName,
    /// A value begins with neither `=` nor a newline, or not with the one
    /// that the form asked for requires.
    UnknownEncoding,
    /// A binary value of the declared length is not followed by a newline.
    MissingTerminator,
}

/// A name and a value, as sequences of bytes.
pub type FieldBytes = (Seq<u8>, Seq<u8>);

/// Length of the longest prefix of `s` that holds neither `a` nor `b`.
pub open spec fn span_without(s: Seq<u8>, a: u8, b: u8) -> int
    decreases s.len(),
{
    if s.len() == 0 || s[0] == a || s[0] == b {
        0
    } else {
        1 + span_without(s.drop_first(), a, b)
    }
}

/// `k` bytes of `s` hold neither `a` nor `b`, and the next one, if there is
/// one, is `a` or `b`.
pub open spec fn is_span(s: Seq<u8>, a: u8, b: u8, k: int) -> bool {
    &&& 0 <= k <= s.len()
    &&& forall|i: int| 0 <= i < k ==> s[i] != a && s[i] != b
    &&& k < s.len() ==> s[k] == a || s[k] == b
}

/// The number that eight bytes spell, lowest byte first.
pub open spec fn le_u64(s: Seq<u8>) -> int
    recommends
        s.len() == 8,
{
    s[0] + 0x100 * s[1] + 0x1_0000 * s[2] + 0x100_0000 * s[3] + 0x1_0000_0000 * s[4]
        + 0x100_0000_0000 * s[5] + 0x1_0000_0000_0000 * s[6] + 0x100_0000_0000_0000 * s[7]
}

/// The name at the head of `s`: its length and its bytes.
pub open spec fn key_of(s: Seq<u8>) -> Result<(int, Seq<u8>), ParseError> {
    let k = span_without(s, EQUALS, NEWLINE);
    if k == s.len() {
        Err(ParseError::Incomplete(1))
    } else if k == 0 {
        Err(ParseError::EmptyName)
    } else {
        Ok((k, s.subrange(0, k)))
    }
}

/// The text value at the head of `s`, from its `=` to its newline: how many
/// bytes it takes, and the bytes between the two.
pub open spec fn value_string_of(s: Seq<u8>) -> Result<(int, Seq<u8>), ParseError> {
    if s.len() == 0 {
        Err(ParseError::Incomplete(1))
    } else if s[0] != EQUALS {
        Err(ParseError::UnknownEncoding)
    } else {
        let r = span_without(s.skip(1), NEWLINE, NEWLINE);
        if 1 + r == s.len() {
            Err(ParseError::Incomplete(1))
        } else {
            Ok((r + 2, s.subrange(1, 1 + r)))
        }
    }
}

/// The length-prefixed value at the head of `s`: eight bytes of length `n`,
/// lowest first, and then `n` bytes. Gives `8 + n` and those `n` bytes.
pub open spec fn value_binary_int_of(s: Seq<u8>) -> Result<(int, Seq<u8>), ParseError> {
    if s.len() < 8 {
        Err(ParseError::Incomplete((8 - s.len()) as u64))
    } else {
        let n = le_u64(s.subrange(0, 8));
        if s.len() - 8 < n {
            Err(ParseError::Incomplete((n - (s.len() - 8)) as u64))
        } else {
            Ok((8 + n, s.subrange(8, 8 + n)))
        }
    }
}

/// The binary value at the head of `s`: a newline, the length-prefixed
/// value, and a newline.
pub open spec fn value_binary_of(s: Seq<u8>) -> Result<(int, Seq<u8>), ParseError> {
    if s.len() == 0 {
        Err(ParseError::Incomplete(1))
    } else if s[0] != NEWLINE {
        Err(ParseError::UnknownEncoding)
    } else {
        match value_binary_int_of(s.skip(1)) {
            Err(e) => Err(e),
            Ok((m, value)) => if s.len() == 1 + m {
                Err(ParseError::Incomplete(1))
            } else if s[1 + m] != NEWLINE {
                Err(ParseError::MissingTerminator)
            } else {
                Ok((m + 2, value))
            },
        }
    }
}

/// The value at the head of `s`, in the form that its first byte announces.
pub open spec fn value_of(s: Seq<u8>) -> Result<(int, Seq<u8>), ParseError> {
    if s.len() == 0 {
        Err(ParseError::Incomplete(1))
    } else if s[0] == EQUALS {
        value_string_of(s)
    } else if s[0] == NEWLINE {
        value_binary_of(s)
    } else {
        Err(ParseError::UnknownEncoding)
    }
}

/// The field at the head of `s`: a name and then its value.
pub open spec fn key_value_of(s: Seq<u8>) -> Result<(int, FieldBytes), ParseError> {
    match key_of(s) {
        Err(e) => Err(e),
        Ok((k, name)) => match value_of(s.skip(k)) {
            Err(e) => Err(e),
            Ok((m, value)) => Ok((k + m, (name, value))),
        },
    }
}

/// What stands at the head of `s` inside a record: the newline that closes
/// the record (`None`), or one more field.
pub open spec fn end_of_msg_of(s: Seq<u8>) -> Result<(int, Option<FieldBytes>), ParseError> {
    if s.len() == 0 {
        Err(ParseError::Incomplete(1))
    } else if s[0] == NEWLINE {
        Ok((1, None))
    } else {
        match key_value_of(s) {
            Err(e) => Err(e),
            Ok((k, field)) => Ok((k, Some(field))),
        }
    }
}

/// `res` is `want` told in slices of `input`: the same error, or the same
/// output and, as the rest, `input` without the bytes taken.
pub open spec fn agrees(
    res: Result<(&[u8], &[u8]), ParseError>,
    input: Seq<u8>,
    want: Result<(int, Seq<u8>), ParseError>,
) -> bool {
    match (res, want) {
        (Ok((rest, out)), Ok((k, v))) => 0 <= k <= input.len() && rest@ == input.skip(k) && out@
            == v,
        (Err(e), Err(w)) => e == w,
        _ => false,
    }
}

/// As [`agrees`], for a parser that hands out a field.
pub open spec fn agrees_field(
    res: Result<(&[u8], (&[u8], &[u8])), ParseError>,
    input: Seq<u8>,
    want: Result<(int, FieldBytes), ParseError>,
) -> bool {
    match (res, want) {
        (Ok((rest, (name, value))), Ok((k, field))) => 0 <= k <= input.len() && rest@
            == input.skip(k) && name@ == field.0 && value@ == field.1,
        (Err(e), Err(w)) => e == w,
        _ => false,
    }
}

/// As [`agrees`], for a parser that hands out a field or the end of a record.
pub open spec fn agrees_item(
    res: Result<(&[u8], Option<(&[u8], &[u8])>), ParseError>,
    input: Seq<u8>,
    want: Result<(int, Option<FieldBytes>), ParseError>,
) -> bool {
    match (res, want) {
        (Ok((rest, None)), Ok((k, None))) => 0 <= k <= input.len() && rest@ == input.skip(k),
        (Ok((rest, Some((name, value)))), Ok((k, Some(field)))) => 0 <= k <= input.len() && rest@
            == input.skip(k) && name@ == field.0 && value@ == field.1,
        (Err(e), Err(w)) => e == w,
        _ => false,
    }
}

/// The span that [`span_without`] computes is a span in the sense of
/// [`is_span`].
pub proof fn lemma_span_is_span(s: Seq<u8>, a: u8, b: u8)
    ensures
        is_span(s, a, b, span_without(s, a, b)),
    decreases s.len(),
{
    if s.len() == 0 || s[0] == a || s[0] == b {
    } else {
        let t = s.drop_first();
        lemma_span_is_span(t, a, b);
        let k = span_without(t, a, b);
        assert forall|i: int| 0 <= i < k + 1 implies s[i] != a && s[i] != b by {
            if i > 0 {
                assert(s[i] == t[i - 1]);
            }
        }
        if k + 1 < s.len() {
            assert(s[k + 1] == t[k]);
        }
    }
}

/// There is one span only.
pub proof fn lemma_span_unique(s: Seq<u8>, a: u8, b: u8, k: int)
    requires
        is_span(s, a, b, k),
    ensures
        k == span_without(s, a, b),
{
    lemma_span_is_span(s, a, b);
    let m = span_without(s, a, b);
    if k < m {
        assert(s[k] != a && s[k] != b);
    } else if m < k {
        assert(s[m] != a && s[m] != b);
    }
}

/// A span that stops before the end of `s` stops at the same place however
/// `s` goes on.
pub proof fn lemma_span_stable(s: Seq<u8>, t: Seq<u8>, a: u8, b: u8)
    requires
        span_without(s, a, b) < s.len(),
    ensures
        span_without(s + t, a, b) == span_without(s, a, b),
{
    lemma_span_is_span(s, a, b);
    let k = span_without(s, a, b);
    assert forall|i: int| 0 <= i <= k implies (s + t)[i] == s[i] by {}
    lemma_span_unique(s + t, a, b, k);
}

/// A value that was taken is at least its two marks long and lies within
/// the bytes at hand.
pub proof fn lemma_value_within(s: Seq<u8>)
    ensures
        value_of(s) matches Ok((m, _)) ==> 2 <= m <= s.len(),
{
    if s.len() > 0 && s[0] == EQUALS {
        lemma_span_is_span(s.skip(1), NEWLINE, NEWLINE);
    }
}

/// What was taken from the head of a record is at least one byte long and
/// lies within the bytes at hand.
pub proof fn lemma_item_within(s: Seq<u8>)
    ensures
        end_of_msg_of(s) matches Ok((k, _)) ==> 0 < k <= s.len(),
{
    lemma_span_is_span(s, EQUALS, NEWLINE);
    if let Ok((k, _)) = key_of(s) {
        lemma_value_within(s.skip(k));
    }
}

/// A text value holds no newline.
pub proof fn lemma_text_value_has_no_newline(s: Seq<u8>)
    ensures
        value_string_of(s) matches Ok((_, value)) ==> forall|i: int|
            0 <= i < value.len() ==> value[i] != NEWLINE,
{
    if s.len() > 0 {
        lemma_span_is_span(s.skip(1), NEWLINE, NEWLINE);
    }
}

/// A binary value is as long as its length bytes declare, and holds the
/// bytes that follow them as they are, whatever they are.
pub proof fn lemma_binary_value_is_verbatim(s: Seq<u8>)
    ensures
        value_binary_of(s) matches Ok((m, value)) ==> {
            &&& value.len() == le_u64(s.subrange(1, 9))
            &&& m == value.len() + 10
            &&& m <= s.len()
            &&& forall|i: int| 0 <= i < value.len() ==> value[i] == s[9 + i]
        },
{
    if s.len() >= 9 {
        assert(s.skip(1).subrange(0, 8) == s.subrange(1, 9));
    }
}

/// The value of a field in text form holds no newline; the value of a
/// field in binary form is as long as its length bytes declare and holds
/// the bytes behind them as they are. The byte behind the name tells the
/// form.
pub proof fn lemma_field_value(s: Seq<u8>)
    ensures
        key_value_of(s) matches Ok((taken, field)) ==> {
            let k = field.0.len() as int;
            &&& 0 < k < s.len()
            &&& field.0 == s.subrange(0, k)
            &&& s[k] == EQUALS || s[k] == NEWLINE
            &&& s[k] == EQUALS ==> {
                &&& taken == k + 2 + field.1.len()
                &&& field.1 == s.subrange(k + 1, taken - 1)
                &&& forall|i: int| 0 <= i < field.1.len() ==> field.1[i] != NEWLINE
            }
            &&& s[k] == NEWLINE ==> {
                &&& taken == k + 10 + field.1.len()
                &&& field.1.len() == le_u64(s.subrange(k + 1, k + 9))
                &&& field.1 == s.subrange(k + 9, taken - 1)
            }
            &&& taken <= s.len()
            &&& s[taken - 1] == NEWLINE
        },
{
    lemma_span_is_span(s, EQUALS, NEWLINE);
    if let Ok((k, name)) = key_of(s) {
        let v = s.skip(k);
        assert(v[0] == s[k]);
        lemma_value_within(v);
        if v[0] == EQUALS {
            lemma_text_value_has_no_newline(v);
            lemma_span_is_span(v.skip(1), NEWLINE, NEWLINE);
            let r = span_without(v.skip(1), NEWLINE, NEWLINE);
            if 1 + r < v.len() {
                assert(v.subrange(1, 1 + r) == s.subrange(k + 1, k + 1 + r));
                assert(v.skip(1)[r] == s[k + 1 + r]);
            }
        } else {
            lemma_binary_value_is_verbatim(v);
            if let Ok((m, value)) = value_binary_of(v) {
                assert(v.subrange(1, 9) == s.subrange(k + 1, k + 9));
                assert(value == s.subrange(k + 9, k + m - 1));
                assert(v[m - 1] == s[k + m - 1]);
            }
        }
    }
}

/// A value that was taken, or that is malformed, is the same however the
/// bytes go on: only an incomplete value changes with more bytes.
pub proof fn lemma_value_stable(s: Seq<u8>, t: Seq<u8>)
    requires
        !(value_of(s) matches Err(ParseError::Incomplete(_))),
    ensures
        value_of(s + t) == value_of(s),
{
    let st = s + t;
    assert(st[0] == s[0]);
    if s[0] == EQUALS {
        let r = span_without(s.skip(1), NEWLINE, NEWLINE);
        lemma_span_is_span(s.skip(1), NEWLINE, NEWLINE);
        assert(st.skip(1) == s.skip(1) + t);
        lemma_span_stable(s.skip(1), t, NEWLINE, NEWLINE);
        assert(st.subrange(1, 1 + r) == s.subrange(1, 1 + r));
    } else if s[0] == NEWLINE {
        let body = s.skip(1);
        assert(st.skip(1) == body + t);
        assert((body + t).subrange(0, 8) == body.subrange(0, 8));
        let n = le_u64(body.subrange(0, 8));
        assert((body + t).subrange(8, 8 + n) == body.subrange(8, 8 + n));
        assert(st[9 + n] == s[9 + n]);
    }
}

/// What was taken from the head of a record, or is malformed there, is the
/// same however the bytes go on: only an incomplete element changes with
/// more bytes.
pub proof fn lemma_item_stable(s: Seq<u8>, t: Seq<u8>)
    requires
        !(end_of_msg_of(s) matches Err(ParseError::Incomplete(_))),
    ensures
        end_of_msg_of(s + t) == end_of_msg_of(s),
{
    let st = s + t;
    assert(st[0] == s[0]);
    if s[0] != NEWLINE {
        let k = span_without(s, EQUALS, NEWLINE);
        lemma_span_is_span(s, EQUALS, NEWLINE);
        lemma_span_stable(s, t, EQUALS, NEWLINE);
        if k > 0 {
            assert(st.subrange(0, k) == s.subrange(0, k));
            assert(st.skip(k) == s.skip(k) + t);
            lemma_value_stable(s.skip(k), t);
        }
    }
}

/// Counts the bytes at the head of `s` that are neither `a` nor `b`.
fn scan_span(s: &[u8], a: u8, b: u8) -> (k: usize)
    ensures
        k == span_without(s@, a, b),
        is_span(s@, a, b, k as int),
{
    let mut i: usize = 0;
    while i < s.len() && s[i] != a && s[i] != b
        invariant
            i <= s@.len(),
            forall|j: int| 0 <= j < i ==> s@[j] != a && s@[j] != b,
        decreases s@.len() - i,
    {
        i += 1;
    }
    proof {
        lemma_span_unique(s@, a, b, i as int);
    }
    i
}

/// Reads the number that the first eight bytes of `s` spell, lowest first.
fn read_le_u64(s: &[u8]) -> (n: u64)
    requires
        s@.len() >= 8,
    ensures
        n == le_u64(s@.subrange(0, 8)),
{
    let b0: u64 = s[0] as u64;
    let b1: u64 = s[1] as u64;
    let b2: u64 = s[2] as u64;
    let b3: u64 = s[3] as u64;
    let b4: u64 = s[4] as u64;
    let b5: u64 = s[5] as u64;
    let b6: u64 = s[6] as u64;
    let b7: u64 = s[7] as u64;
    b0 + 0x100 * b1 + 0x1_0000 * b2 + 0x100_0000 * b3 + 0x1_0000_0000 * b4 + 0x100_0000_0000 * b5
        + 0x1_0000_0000_0000 * b6 + 0x100_0000_0000_0000 * b7
}

/// Takes a name from the head of `s`: the longest run of bytes that are
/// neither `=` nor a newline. The name must have a byte, and the byte that
/// ends it must be at hand.
pub fn parse_key<'a>(s: &'a [u8]) -> (res: Result<(&'a [u8], &'a [u8]), ParseError>)
    ensures
        agrees(res, s@, key_of(s@)),
{
    let k = scan_span(s, EQUALS, NEWLINE);
    if k == s.len() {
        Err(ParseError::Incomplete(1))
    } else if k == 0 {
        Err(ParseError::EmptyName)
    } else {
        Ok((slice_subrange(s, k, s.len()), slice_subrange(s, 0, k)))
    }
}

/// Takes a text value from the head of `s`: `=`, the bytes up to the next
/// newline, and that newline. The value may be empty and holds no newline.
pub fn parse_value_string<'a>(s: &'a [u8]) -> (res: Result<(&'a [u8], &'a [u8]), ParseError>)
    ensures
        agrees(res, s@, value_string_of(s@)),
        res matches Ok((_, value)) ==> forall|i: int|
            0 <= i < value@.len() ==> value@[i] != NEWLINE,
{
    if s.len() == 0 {
        return Err(ParseError::Incomplete(1));
    }
    if s[0] != EQUALS {
        return Err(ParseError::UnknownEncoding);
    }
    let body = slice_subrange(s, 1, s.len());
    let r = scan_span(body, NEWLINE, NEWLINE);
    proof {
        lemma_span_is_span(body@, NEWLINE, NEWLINE);
        assert(body@ == s@.skip(1));
    }
    if r == body.len() {
        Err(ParseError::Incomplete(1))
    } else {
        let value = slice_subrange(s, 1, 1 + r);
        assert forall|i: int| 0 <= i < value@.len() implies value@[i] != NEWLINE by {
            assert(value@[i] == body@[i]);
        }
        Ok((slice_subrange(s, r + 2, s.len()), value))
    }
}

/// Takes a length-prefixed value from the head of `s`: eight bytes that
/// spell a length `n`, lowest byte first, and then `n` bytes as they are.
pub fn parse_value_binary_int<'a>(s: &'a [u8]) -> (res: Result<(&'a [u8], &'a [u8]), ParseError>)
    ensures
        agrees(res, s@, value_binary_int_of(s@)),
        res matches Ok((_, value)) ==> value@.len() == le_u64(s@.subrange(0, 8)) && value@
            == s@.subrange(8, 8 + value@.len() as int),
{
    if s.len() < 8 {
        return Err(ParseError::Incomplete((8 - s.len()) as u64));
    }
    let n = read_le_u64(s);
    let at_hand = (s.len() - 8) as u64;
    if at_hand < n {
        Err(ParseError::Incomplete(n - at_hand))
    } else {
        let end = 8 + n as usize;
        Ok((slice_subrange(s, end, s.len()), slice_subrange(s, 8, end)))
    }
}

/// Takes a binary value from the head of `s`: a newline, the length-prefixed
/// value, and a newline.
pub fn parse_value_binary<'a>(s: &'a [u8]) -> (res: Result<(&'a [u8], &'a [u8]), ParseError>)
    ensures
        agrees(res, s@, value_binary_of(s@)),
        res matches Ok((_, value)) ==> value@.len() == le_u64(s@.subrange(1, 9)) && value@
            == s@.subrange(9, 9 + value@.len() as int),
{
    if s.len() == 0 {
        return Err(ParseError::Incomplete(1));
    }
    if s[0] != NEWLINE {
        return Err(ParseError::UnknownEncoding);
    }
    let body = slice_subrange(s, 1, s.len());
    assert(body@ == s@.skip(1));
    match parse_value_binary_int(body) {
        Err(e) => Err(e),
        Ok((rest, value)) => {
            assert(body@.subrange(0, 8) == s@.subrange(1, 9));
            assert(body@.subrange(8, 8 + value@.len() as int) == s@.subrange(
                9,
                9 + value@.len() as int,
            ));
            if rest.len() == 0 {
                Err(ParseError::Incomplete(1))
            } else if rest[0] != NEWLINE {
                Err(ParseError::MissingTerminator)
            } else {
                let taken = s.len() - rest.len() + 1;
                Ok((slice_subrange(s, taken, s.len()), value))
            }
        },
    }
}

/// Takes a value from the head of `s`, in the form that its first byte
/// announces: `=` for a text value, a newline for a binary one.
pub fn parse_value<'a>(s: &'a [u8]) -> (res: Result<(&'a [u8], &'a [u8]), ParseError>)
    ensures
        agrees(res, s@, value_of(s@)),
{
    if s.len() == 0 {
        Err(ParseError::Incomplete(1))
    } else if s[0] == EQUALS {
        parse_value_string(s)
    } else if s[0] == NEWLINE {
        parse_value_binary(s)
    } else {
        Err(ParseError::UnknownEncoding)
    }
}

/// Takes a field from the head of `s`: a name and then its value.
pub fn parse_key_value<'a>(s: &'a [u8]) -> (res: Result<
    (&'a [u8], (&'a [u8], &'a [u8])),
    ParseError,
>)
    ensures
        agrees_field(res, s@, key_value_of(s@)),
{
    match parse_key(s) {
        Err(e) => Err(e),
        Ok((after_name, name)) => match parse_value(after_name) {
            Err(e) => Err(e),
            Ok((rest, value)) => {
                proof {
                    let k = key_of(s@).unwrap().0;
                    let m = value_of(s@.skip(k)).unwrap().0;
                    assert(s@.skip(k).skip(m) == s@.skip(k + m));
                }
                Ok((rest, (name, value)))
            },
        },
    }
}

/// Takes what stands at the head of `s` inside a record: the newline that
/// closes the record, for which the answer is `None`, or one more field.
pub fn parse_end_of_msg<'a>(s: &'a [u8]) -> (res: Result<
    (&'a [u8], Option<(&'a [u8], &'a [u8])>),
    ParseError,
>)
    ensures
        agrees_item(res, s@, end_of_msg_of(s@)),
{
    if s.len() == 0 {
        return Err(ParseError::Incomplete(1));
    }
    if s[0] == NEWLINE {
        return Ok((slice_subrange(s, 1, s.len()), None));
    }
    match parse_key_value(s) {
        Err(e) => Err(e),
        Ok((rest, field)) => Ok((rest, Some(field))),
    }
}

} // verus!
