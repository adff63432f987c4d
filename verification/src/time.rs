//! Instants: how a record's clock reading is read, ordered and written out.

use vstd::prelude::*;

verus! {

/// The first second that the calendar holds: the beginning of the year
/// -262143, counted from the beginning of 1970.
pub const FIRST_SECOND: i64 = -8_334_601_228_800;

/// The last second that the calendar holds: the end of the year 262142,
/// counted from the beginning of 1970.
pub const LAST_SECOND: i64 = 8_210_266_876_799;

/// An instant in universal time: whole seconds since the beginning of 1970,
/// and the nanoseconds since that second began.
#[derive(Debug, Clone, Copy, PartialEq, Eq, Structural)]
pub struct Timestamp {
    pub secs: i64,
    pub nanos: u32,
}

/// The calendar holds the instant: the second lies in its span, and the
/// nanoseconds stay below a second, or below two in the last second of a
/// minute, where a leap second is written so.
pub open spec fn in_calendar(secs: int, nanos: int) -> bool {
    &&& FIRST_SECOND <= secs <= LAST_SECOND
    &&& 0 <= nanos < 2_000_000_000
    &&& nanos >= 1_000_000_000 ==> secs % 60 == 59
}

/// The instant that lies `micros` microseconds after the beginning of 1970,
/// or before it where `micros` is below zero: the whole seconds are the count
/// divided by a million, rounded down, and what is left over, a count of
/// microseconds, makes the nanoseconds. A count whose second is outside the
/// calendar stands for no instant.
pub open spec fn stamp_of_micros(micros: i64) -> Option<Timestamp> {
    let secs = micros as int / 1_000_000;
    let rest = micros as int % 1_000_000;
    if FIRST_SECOND <= secs <= LAST_SECOND {
        Some(Timestamp { secs: secs as i64, nanos: (rest * 1000) as u32 })
    } else {
        None
    }
}

/// The character `0`.
pub const ZERO: u8 = 0x30;

/// The character `9`.
pub const NINE: u8 = 0x39;

/// The character `+`.
pub const PLUS: u8 = 0x2B;

/// The character `-`.
pub const MINUS: u8 = 0x2D;

/// Every byte of `s` is a decimal digit.
pub open spec fn all_digits(s: Seq<u8>) -> bool {
    forall|i: int| 0 <= i < s.len() ==> ZERO <= #[trigger] s[i] <= NINE
}

/// The number that the digits of `s` spell.
pub open spec fn digits_value(s: Seq<u8>) -> int
    decreases s.len(),
{
    if s.len() == 0 {
        0
    } else {
        10 * digits_value(s.drop_last()) + (s.last() - ZERO)
    }
}

/// The number that `s` spells in decimal: a sign or none, then one digit or
/// more and nothing else, and the number within the range of `i64`.
pub open spec fn decimal_i64(s: Seq<u8>) -> Option<i64> {
    let signed = s.len() > 0 && (s[0] == MINUS || s[0] == PLUS);
    let digits = if signed {
        s.skip(1)
    } else {
        s
    };
    let value = if signed && s[0] == MINUS {
        -digits_value(digits)
    } else {
        digits_value(digits)
    };
    if digits.len() > 0 && all_digits(digits) && i64::MIN <= value <= i64::MAX {
        Some(value as i64)
    } else {
        None
    }
}

/// Digits spell no less than the digits before the last of them.
proof fn lemma_digits_grow(s: Seq<u8>, i: int)
    requires
        all_digits(s),
        0 <= i <= s.len(),
    ensures
        0 <= digits_value(s.take(i)) <= digits_value(s),
    decreases s.len() - i,
{
    if i == s.len() {
        assert(s.take(i) == s);
        lemma_digits_grow_from_zero(s);
    } else {
        lemma_digits_grow(s, i + 1);
        let t = s.take(i + 1);
        assert(t.drop_last() == s.take(i));
        assert(t.last() == s[i]);
        lemma_digits_grow_from_zero(s.take(i));
    }
}

/// Digits spell no number below zero.
proof fn lemma_digits_grow_from_zero(s: Seq<u8>)
    requires
        all_digits(s),
    ensures
        0 <= digits_value(s),
    decreases s.len(),
{
    if s.len() > 0 {
        lemma_digits_grow_from_zero(s.drop_last());
    }
}

/// Reads `s` as a decimal number.
pub fn parse_decimal(s: &[u8]) -> (res: Option<i64>)
    ensures
        res == decimal_i64(s@),
{
    let negative = s.len() > 0 && s[0] == MINUS;
    let signed = s.len() > 0 && (s[0] == MINUS || s[0] == PLUS);
    let start: usize = if signed {
        1
    } else {
        0
    };
    let ghost digits = s@.skip(start as int);
    assert(s@.skip(0) == s@);
    if start == s.len() {
        return None;
    }
    let limit: u64 = if negative {
        0x8000_0000_0000_0000
    } else {
        0x7FFF_FFFF_FFFF_FFFF
    };
    let mut magnitude: u64 = 0;
    let mut i: usize = start;
    assert(digits.take(0).len() == 0);
    while i < s.len()
        invariant
            start <= i <= s@.len(),
            digits == s@.skip(start as int),
            all_digits(digits.take(i - start)),
            magnitude == digits_value(digits.take(i - start)),
            magnitude <= limit,
            0x7FFF_FFFF_FFFF_FFFF <= limit <= 0x8000_0000_0000_0000,
            all_digits(digits) ==> digits_value(digits) > limit ==> decimal_i64(s@) is None,
            !all_digits(digits) ==> decimal_i64(s@) is None,
        decreases s@.len() - i,
    {
        let byte = s[i];
        if byte < ZERO || byte > NINE {
            assert(digits[i - start] == byte);
            return None;
        }
        let digit: u64 = (byte - ZERO) as u64;
        proof {
            let t = digits.take(i - start + 1);
            assert(t.drop_last() == digits.take(i - start));
            assert(t.last() == byte);
            assert(digits_value(t) == 10 * magnitude + digit);
            assert forall|j: int| 0 <= j < t.len() implies ZERO <= #[trigger] t[j] <= NINE by {
                if j < i - start {
                    assert(t[j] == digits.take(i - start)[j]);
                }
            }
            if all_digits(digits) {
                lemma_digits_grow(digits, i - start + 1);
            }
        }
        if magnitude > (limit - digit) / 10 {
            return None;
        }
        magnitude = magnitude * 10 + digit;
        i += 1;
    }
    assert(digits.take(i - start) == digits);
    if negative {
        if magnitude == 0x8000_0000_0000_0000 {
            Some(i64::MIN)
        } else {
            Some(-(magnitude as i64))
        }
    } else {
        Some(magnitude as i64)
    }
}

/// The text that the calendar library writes for an instant of universal
/// time under its format `%+`: date and time of day after ISO 8601, with the
/// part below the second where it is not zero, and the offset `+00:00`.
pub uninterp spec fn utc_text(secs: int, nanos: int) -> Seq<char>;

/// `chrono::DateTime::from_timestamp`, and `format("%+")` on what it gives,
/// written to a string. The first answers for the instants that the calendar
/// holds and for no others; for those, the text depends on the instant alone.
#[verifier::external_body]
fn format_utc(secs: i64, nanos: u32) -> (res: Option<String>)
    ensures
        res is Some <==> in_calendar(secs as int, nanos as int),
        res matches Some(text) ==> text@ == utc_text(secs as int, nanos as int),
{
    match chrono::DateTime::from_timestamp(secs, nanos) {
        Some(instant) => Some(instant.format("%+").to_string()),
        None => None,
    }
}

impl Timestamp {
    /// The calendar holds this instant.
    pub open spec fn valid(self) -> bool {
        in_calendar(self.secs as int, self.nanos as int)
    }

    /// The instant as text.
    pub open spec fn text(self) -> Seq<char> {
        utc_text(self.secs as int, self.nanos as int)
    }

    /// Writes the instant out, where the calendar holds it.
    pub fn to_text(&self) -> (res: Option<String>)
        ensures
            res is Some <==> self.valid(),
            res matches Some(text) ==> text@ == self.text(),
    {
        format_utc(self.secs, self.nanos)
    }

    /// This instant comes before `other`.
    pub open spec fn earlier_than(self, other: Timestamp) -> bool {
        self.secs < other.secs || (self.secs == other.secs && self.nanos < other.nanos)
    }

    /// Whether this instant comes before `other`.
    pub fn is_before(&self, other: &Timestamp) -> (res: bool)
        ensures
            res == self.earlier_than(*other),
    {
        self.secs < other.secs || (self.secs == other.secs && self.nanos < other.nanos)
    }

    /// The instant that lies `micros` microseconds after the beginning of
    /// 1970.
    pub fn from_micros(micros: i64) -> (res: Option<Timestamp>)
        ensures
            res == stamp_of_micros(micros),
            res matches Some(stamp) ==> stamp.valid(),
    {
        if micros >= 0 {
            let secs = micros / 1_000_000;
            let rest = micros % 1_000_000;
            if secs <= LAST_SECOND {
                Some(Timestamp { secs, nanos: rest as u32 * 1000 })
            } else {
                None
            }
        } else {
            let below: i64 = -(micros + 1);
            let secs = -(below / 1_000_000) - 1;
            let rest = 999_999 - below % 1_000_000;
            if secs >= FIRST_SECOND {
                Some(Timestamp { secs, nanos: rest as u32 * 1000 })
            } else {
                None
            }
        }
    }
}

} // verus!
