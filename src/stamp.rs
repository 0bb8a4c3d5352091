//! Local wall-clock times, to the second, and their `YYYY-MM-DD HH:MM:SS` text.
use vstd::prelude::*;

use chrono::{Datelike, Timelike};

verus! {

/// Earliest year that chrono's calendar dates reach.
pub const MIN_YEAR: i32 = -262143;

/// Latest year that chrono's calendar dates reach.
pub const MAX_YEAR: i32 = 262142;

/// A local date and time of day, to the second (proleptic Gregorian calendar).
#[derive(Clone, Copy, Debug, PartialEq, Eq, Structural)]
pub struct Stamp {
    pub year: i32,
    pub month: u32,
    pub day: u32,
    pub hour: u32,
    pub minute: u32,
    pub second: u32,
}

pub open spec fn is_leap_year(y: int) -> bool {
    y % 4 == 0 && (y % 100 != 0 || y % 400 == 0)
}

pub open spec fn days_in_month(y: int, m: int) -> int {
    if m == 2 {
        if is_leap_year(y) {
            29
        } else {
            28
        }
    } else if m == 4 || m == 6 || m == 9 || m == 11 {
        30
    } else {
        31
    }
}

impl Stamp {
    /// A real calendar date within chrono's range, and a time of day without leap second.
    pub open spec fn wf(self) -> bool {
        &&& MIN_YEAR <= self.year <= MAX_YEAR
        &&& 1 <= self.month <= 12
        &&& 1 <= self.day <= days_in_month(self.year as int, self.month as int)
        &&& self.hour < 24
        &&& self.minute < 60
        &&& self.second < 60
    }

    /// The year is written with four digits and no sign.
    pub open spec fn has_plain_year(self) -> bool {
        0 <= self.year <= 9999
    }
}

/// The ASCII digit of `n`, for `0 <= n < 10`.
pub open spec fn digit(n: int) -> u8 {
    (48 + n) as u8
}

pub open spec fn four_digits(n: int) -> Seq<u8> {
    seq![digit(n / 1000), digit(n / 100 % 10), digit(n / 10 % 10), digit(n % 10)]
}

/// Decimal digits of `n`, most significant first, without leading zeros.
pub open spec fn decimal(n: nat) -> Seq<u8>
    decreases n,
{
    if n < 10 {
        seq![digit(n as int)]
    } else {
        decimal(n / 10).push(digit((n % 10) as int))
    }
}

/// `%Y`: four digits for years 0 to 9999; otherwise a sign and at least four digits.
pub open spec fn year_text(y: int) -> Seq<u8> {
    if 0 <= y <= 9999 {
        four_digits(y)
    } else {
        let d = decimal((if y < 0 { -y } else { y }) as nat);
        let body = if d.len() < 4 {
            Seq::new((4 - d.len()) as nat, |i: int| 48u8) + d
        } else {
            d
        };
        if y < 0 {
            seq![45u8] + body
        } else {
            seq![43u8] + body
        }
    }
}

/// `-%m-%d %H:%M:%S` of a stamp: what follows the year.
pub open spec fn tail_text(s: Stamp) -> Seq<u8> {
    let (mo, d, h, mi, se) = (
        s.month as int,
        s.day as int,
        s.hour as int,
        s.minute as int,
        s.second as int,
    );
    seq![
        45u8, digit(mo / 10), digit(mo % 10), 45u8, digit(d / 10), digit(d % 10),
        32u8, digit(h / 10), digit(h % 10), 58u8, digit(mi / 10), digit(mi % 10),
        58u8, digit(se / 10), digit(se % 10),
    ]
}

/// `%Y-%m-%d %H:%M:%S` of a stamp.
pub open spec fn stamp_text(s: Stamp) -> Seq<u8> {
    year_text(s.year as int) + tail_text(s)
}

/// Relies on chrono's `From<SystemTime> for DateTime<Local>`, read through `Datelike`
/// and `Timelike`. The conversion handles a clock before 1970 as a negative
/// timestamp, and its sub-second part stays below one second, so no leap second
/// arises: `second()` is below 60. A date that chrono holds is a real calendar date
/// within its year range.
/// chrono still panics where the clock reads beyond its year range, or where the
/// time zone database gives an offset of a day or more; nothing here can rule
/// either out.
#[verifier::external_body]
pub(crate) fn local_now() -> (r: Stamp)
    ensures
        r.wf(),
{
    let now = chrono::DateTime::<chrono::Local>::from(std::time::SystemTime::now());
    Stamp {
        year: now.year(),
        month: now.month(),
        day: now.day(),
        hour: now.hour(),
        minute: now.minute(),
        second: now.second(),
    }
}

/// Relies on chrono's `NaiveDateTime::format` with `%Y-%m-%d %H:%M:%S`: numeric fields
/// zero-padded to two digits, the year as `year_text` states. The date and time are
/// built with `NaiveDate::from_ymd_opt` and `and_hms_opt`, which accept every
/// well-formed stamp.
#[verifier::external_body]
pub(crate) fn format_stamp(s: &Stamp) -> (r: Vec<u8>)
    requires
        s.wf(),
    ensures
        r@ == stamp_text(*s),
{
    let date = chrono::NaiveDate::from_ymd_opt(s.year, s.month, s.day).unwrap();
    let at = date.and_hms_opt(s.hour, s.minute, s.second).unwrap();
    at.format("%Y-%m-%d %H:%M:%S").to_string().into_bytes()
}


pub open spec fn is_digit(b: u8) -> bool {
    48 <= b <= 57
}

pub open spec fn digit_value(b: u8) -> int {
    b - 48
}

/// The value of the two decimal digits at `t[i]`, `t[i + 1]`.
pub open spec fn pair_at(t: Seq<u8>, i: int) -> int {
    10 * digit_value(t[i]) + digit_value(t[i + 1])
}

/// Nineteen bytes shaped as `DDDD-DD-DD DD:DD:DD`, each `D` a decimal digit.
pub open spec fn stamp_layout(t: Seq<u8>) -> bool {
    &&& t.len() == 19
    &&& is_digit(t[0]) && is_digit(t[1]) && is_digit(t[2]) && is_digit(t[3])
    &&& t[4] == 45 && t[7] == 45 && t[10] == 32 && t[13] == 58 && t[16] == 58
    &&& is_digit(t[5]) && is_digit(t[6]) && is_digit(t[8]) && is_digit(t[9])
    &&& is_digit(t[11]) && is_digit(t[12]) && is_digit(t[14]) && is_digit(t[15])
    &&& is_digit(t[17]) && is_digit(t[18])
}

/// The fields that a text of `stamp_layout` spells.
pub open spec fn stamp_fields(t: Seq<u8>) -> Stamp {
    Stamp {
        year: (100 * pair_at(t, 0) + pair_at(t, 2)) as i32,
        month: pair_at(t, 5) as u32,
        day: pair_at(t, 8) as u32,
        hour: pair_at(t, 11) as u32,
        minute: pair_at(t, 14) as u32,
        second: pair_at(t, 17) as u32,
    }
}

/// The stamp that a timestamp text denotes, if it is one.
pub open spec fn decode_stamp(t: Seq<u8>) -> Option<Stamp> {
    if stamp_layout(t) && stamp_fields(t).wf() {
        Some(stamp_fields(t))
    } else {
        None
    }
}

fn digit_at(t: &[u8], i: usize) -> (r: Option<u32>)
    requires
        i < t@.len(),
    ensures
        r == (if is_digit(t@[i as int]) {
            Some(digit_value(t@[i as int]) as u32)
        } else {
            None::<u32>
        }),
{
    let b = t[i];
    if 48 <= b && b <= 57 {
        Some((b - 48) as u32)
    } else {
        None
    }
}

fn pair_value(t: &[u8], i: usize) -> (r: Option<u32>)
    requires
        t@.len() == 19,
        i < 18,
    ensures
        r == (if is_digit(t@[i as int]) && is_digit(t@[i + 1]) {
            Some(pair_at(t@, i as int) as u32)
        } else {
            None::<u32>
        }),
{
    match (digit_at(t, i), digit_at(t, i + 1)) {
        (Some(hi), Some(lo)) => Some(10 * hi + lo),
        _ => None,
    }
}

fn month_length(year: u32, month: u32) -> (r: u32)
    ensures
        r == days_in_month(year as int, month as int),
{
    if month == 2 {
        if year % 4 == 0 && (year % 100 != 0 || year % 400 == 0) {
            29
        } else {
            28
        }
    } else if month == 4 || month == 6 || month == 9 || month == 11 {
        30
    } else {
        31
    }
}

/// Reads a timestamp written as `YYYY-MM-DD HH:MM:SS`. A text that is not of that
/// shape, or that names no real date and time, gives `None`.
pub fn parse_stamp(text: &[u8]) -> (r: Option<Stamp>)
    ensures
        r == decode_stamp(text@),
{
    if text.len() != 19 || text[4] != 45 || text[7] != 45 || text[10] != 32 || text[13] != 58
        || text[16] != 58 {
        return None;
    }
    let fields = (
        pair_value(text, 0),
        pair_value(text, 2),
        pair_value(text, 5),
        pair_value(text, 8),
        pair_value(text, 11),
        pair_value(text, 14),
        pair_value(text, 17),
    );
    match fields {
        (Some(c), Some(y), Some(month), Some(day), Some(hour), Some(minute), Some(second)) => {
            let year = 100 * c + y;
            if 1 <= month && month <= 12 && 1 <= day && day <= month_length(year, month) && hour
                < 24 && minute < 60 && second < 60 {
                Some(Stamp { year: year as i32, month, day, hour, minute, second })
            } else {
                None
            }
        },
        _ => None,
    }
}

proof fn lemma_pair_of(t: Seq<u8>, i: int, n: int)
    requires
        0 <= n < 100,
        0 <= i && i + 1 < t.len(),
        t[i] == digit(n / 10),
        t[i + 1] == digit(n % 10),
    ensures
        is_digit(t[i]) && is_digit(t[i + 1]),
        pair_at(t, i) == n,
{
}

proof fn lemma_pair_digits(t: Seq<u8>, i: int)
    requires
        0 <= i && i + 1 < t.len(),
        is_digit(t[i]) && is_digit(t[i + 1]),
    ensures
        0 <= pair_at(t, i) < 100,
        digit(pair_at(t, i) / 10) == t[i],
        digit(pair_at(t, i) % 10) == t[i + 1],
{
}

proof fn lemma_year_pairs(y: int)
    requires
        0 <= y <= 9999,
    ensures
        100 * (y / 100) + y % 100 == y,
        0 <= y / 100 < 100,
        y / 100 / 10 == y / 1000,
        y % 100 / 10 == y / 10 % 10,
        y % 100 % 10 == y % 10,
{
}

/// Reading back the text of a stamp with a four-digit year gives that stamp.
pub proof fn lemma_stamp_round_trip(s: Stamp)
    requires
        s.wf(),
        s.has_plain_year(),
    ensures
        decode_stamp(stamp_text(s)) == Some(s),
{
    let t = stamp_text(s);
    let y = s.year as int;
    assert(t.len() == 19);
    lemma_year_pairs(y);
    lemma_pair_of(t, 0, y / 100);
    lemma_pair_of(t, 2, y % 100);
    lemma_pair_of(t, 5, s.month as int);
    lemma_pair_of(t, 8, s.day as int);
    lemma_pair_of(t, 11, s.hour as int);
    lemma_pair_of(t, 14, s.minute as int);
    lemma_pair_of(t, 17, s.second as int);
    assert(stamp_layout(t));
    assert(stamp_fields(t) == s);
}

proof fn lemma_decimal_digits(n: nat)
    ensures
        forall|i: int| 0 <= i < decimal(n).len() ==> is_digit(#[trigger] decimal(n)[i]),
    decreases n,
{
    if n >= 10 {
        lemma_decimal_digits(n / 10);
        let d = decimal(n / 10);
        assert forall|i: int| 0 <= i < decimal(n).len() implies is_digit(
            #[trigger] decimal(n)[i],
        ) by {
            if i < d.len() {
                assert(decimal(n)[i] == d[i]);
            }
        }
    }
}

/// Every byte of a stamp's text is a digit, a sign, `-`, ` ` or `:`: never a newline.
pub proof fn lemma_stamp_text_no_newline(s: Stamp)
    requires
        s.wf(),
    ensures
        forall|i: int| 0 <= i < stamp_text(s).len() ==> stamp_text(s)[i] != 10,
{
    let y = s.year as int;
    let yt = year_text(y);
    let tt = tail_text(s);
    assert forall|i: int| 0 <= i < yt.len() implies yt[i] != 10 by {
        if !(0 <= y <= 9999) {
            let d = decimal((if y < 0 { -y } else { y }) as nat);
            lemma_decimal_digits((if y < 0 { -y } else { y }) as nat);
            let body = if d.len() < 4 {
                Seq::new((4 - d.len()) as nat, |k: int| 48u8) + d
            } else {
                d
            };
            assert forall|k: int| 0 <= k < body.len() implies body[k] != 10 by {
                if d.len() < 4 && k >= 4 - d.len() {
                    assert(body[k] == d[k - (4 - d.len())]);
                }
            }
            if i > 0 {
                assert(yt[i] == body[i - 1]);
            }
        }
    }
    assert forall|i: int| 0 <= i < tt.len() implies tt[i] != 10 by {}
    assert forall|i: int| 0 <= i < stamp_text(s).len() implies stamp_text(s)[i] != 10 by {
        if i < yt.len() {
            assert(stamp_text(s)[i] == yt[i]);
        } else {
            assert(stamp_text(s)[i] == tt[i - yt.len()]);
        }
    }
}

proof fn lemma_split_hundreds(a: int, b: int)
    requires
        0 <= a < 100,
        0 <= b < 100,
    ensures
        (100 * a + b) / 100 == a,
        (100 * a + b) % 100 == b,
        (100 * a + b) / 1000 == a / 10,
        (100 * a + b) / 100 % 10 == a % 10,
        (100 * a + b) / 10 % 10 == b / 10,
        (100 * a + b) % 10 == b % 10,
{
}

/// A timestamp text is the text of the stamp it denotes: no other text reads as it.
pub proof fn lemma_stamp_unique(t: Seq<u8>)
    requires
        decode_stamp(t) is Some,
    ensures
        stamp_text(decode_stamp(t)->0) == t,
        decode_stamp(t)->0.has_plain_year(),
{
    let s = decode_stamp(t)->0;
    assert(stamp_layout(t));
    lemma_pair_digits(t, 0);
    lemma_pair_digits(t, 2);
    lemma_pair_digits(t, 5);
    lemma_pair_digits(t, 8);
    lemma_pair_digits(t, 11);
    lemma_pair_digits(t, 14);
    lemma_pair_digits(t, 17);
    lemma_split_hundreds(pair_at(t, 0), pair_at(t, 2));
    assert(year_text(s.year as int) =~= t.subrange(0, 4));
    assert(tail_text(s) =~= t.subrange(4, 19));
    assert(t =~= t.subrange(0, 4) + t.subrange(4, 19));
}

} // verus!
