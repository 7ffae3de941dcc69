//! Dates of the proleptic Gregorian calendar.

use crate::text::{chars_of, decimal, decimal_text};
use vstd::prelude::*;

verus! {

pub open spec fn is_leap(y: int) -> bool {
    y % 4 == 0 && (y % 100 != 0 || y % 400 == 0)
}

pub open spec fn days_in_month(y: int, m: int) -> int {
    if m == 2 {
        if is_leap(y) {
            29
        } else {
            28
        }
    } else if m == 4 || m == 6 || m == 9 || m == 11 {
        30
    } else {
        31
    }
}

/// Days of the year `y` before its month `m`.
pub open spec fn days_before_month(y: int, m: int) -> int
    decreases m,
{
    if m <= 1 {
        0
    } else {
        days_before_month(y, m - 1) + days_in_month(y, m - 1)
    }
}

/// Days from the first of January of the year 1 to that of the year `y`.
pub open spec fn days_before_year(y: int) -> int {
    365 * (y - 1) + (y - 1) / 4 - (y - 1) / 100 + (y - 1) / 400
}

pub open spec fn is_date(y: int, m: int, d: int) -> bool {
    1 <= m <= 12 && 1 <= d <= days_in_month(y, m)
}

/// Days from 1970-01-01 to the given date.
pub open spec fn day_number(y: int, m: int, d: int) -> int {
    days_before_year(y) + days_before_month(y, m) + d - 1 - 719_162
}

/// The date that lies `z` days behind 1970-01-01.
pub open spec fn civil(z: int) -> (int, int, int) {
    choose|t: (int, int, int)| is_date(t.0, t.1, t.2) && #[trigger] day_number(t.0, t.1, t.2) == z
}

proof fn lemma_months(y: int)
    ensures
        days_before_month(y, 1) == 0,
        days_before_month(y, 2) == 31,
        days_before_month(y, 3) == 59 + if is_leap(y) { 1int } else { 0 },
        days_before_month(y, 4) == days_before_month(y, 3) + 31,
        days_before_month(y, 5) == days_before_month(y, 3) + 61,
        days_before_month(y, 6) == days_before_month(y, 3) + 92,
        days_before_month(y, 7) == days_before_month(y, 3) + 122,
        days_before_month(y, 8) == days_before_month(y, 3) + 153,
        days_before_month(y, 9) == days_before_month(y, 3) + 184,
        days_before_month(y, 10) == days_before_month(y, 3) + 214,
        days_before_month(y, 11) == days_before_month(y, 3) + 245,
        days_before_month(y, 12) == days_before_month(y, 3) + 275,
{
    reveal_with_fuel(days_before_month, 13);
}

proof fn lemma_year_length(y: int)
    ensures
        days_before_year(y + 1) == days_before_year(y) + 365 + if is_leap(y) { 1int } else { 0 },
{
}

proof fn lemma_years_ascend(a: int, b: int)
    requires
        a <= b,
    ensures
        days_before_year(a) + 365 * (b - a) <= days_before_year(b),
    decreases b - a,
{
    if a < b {
        lemma_years_ascend(a, b - 1);
        lemma_year_length(b - 1);
    }
}

proof fn lemma_within_year(y: int, m: int, d: int)
    requires
        is_date(y, m, d),
    ensures
        days_before_year(y) <= day_number(y, m, d) + 719_162 < days_before_year(y + 1),
{
    lemma_months(y);
    lemma_year_length(y);
}

/// Two dates with the same day number are the same date.
pub proof fn day_numbers_are_distinct(
    y1: int,
    m1: int,
    d1: int,
    y2: int,
    m2: int,
    d2: int,
)
    requires
        is_date(y1, m1, d1),
        is_date(y2, m2, d2),
        day_number(y1, m1, d1) == day_number(y2, m2, d2),
    ensures
        y1 == y2 && m1 == m2 && d1 == d2,
{
    lemma_within_year(y1, m1, d1);
    lemma_within_year(y2, m2, d2);
    if y1 < y2 {
        lemma_years_ascend(y1 + 1, y2);
    }
    if y2 < y1 {
        lemma_years_ascend(y2 + 1, y1);
    }
    lemma_months(y1);
}

/// Which year of a 400-year era, beginning in March, a day falls into.
proof fn lemma_year_of_era(doe: int, yoe: int)
    requires
        0 <= doe < 146_097,
        yoe == (doe - doe / 1460 + doe / 36_524 - doe / 146_096) / 365,
    ensures
        0 <= yoe < 400,
        365 * yoe + yoe / 4 - yoe / 100 <= doe,
        doe < 365 * (yoe + 1) + (yoe + 1) / 4 - (yoe + 1) / 100 + (yoe + 1) / 400,
{
    let a = doe / 1460;
    let b = doe / 36_524;
    let c = doe / 146_096;
    assert(1460 * a <= doe < 1460 * a + 1460);
    assert(36_524 * b <= doe < 36_524 * b + 36_524);
    assert(0 <= b <= 4);
    assert(0 <= c <= 1);
    assert(365 * yoe <= doe - a + b - c < 365 * yoe + 365);
    assert(0 <= yoe < 400);
    let q = yoe / 4;
    let h = yoe / 100;
    assert(4 * q <= yoe < 4 * q + 4);
    assert(100 * h <= yoe < 100 * h + 100);
    let q1 = (yoe + 1) / 4;
    let h1 = (yoe + 1) / 100;
    assert(4 * q1 <= yoe + 1 < 4 * q1 + 4);
    assert(100 * h1 <= yoe + 1 < 100 * h1 + 100);
    if b == 0 {
        assert(h == 0);
    } else if b == 1 {
        assert(h == 1);
    } else if b == 2 {
        assert(h == 2);
    } else {
        assert(h == 3);
    }
}

/// Days since 1970-01-01 as year, month and day.
pub fn civil_from_days(z: i64) -> (r: (i64, u32, u32))
    requires
        z <= i64::MAX - 719_468,
    ensures
        is_date(r.0 as int, r.1 as int, r.2 as int),
        day_number(r.0 as int, r.1 as int, r.2 as int) == z,
        (r.0 as int, r.1 as int, r.2 as int) == civil(z as int),
{
    let shifted: i64 = z + 719_468;
    let (era, doe) = div_floor(shifted, 146_097);
    let yoe: i64 = (doe - doe / 1460 + doe / 36_524 - doe / 146_096) / 365;
    proof {
        lemma_year_of_era(doe as int, yoe as int);
    }
    let doy: i64 = doe - (365 * yoe + yoe / 4 - yoe / 100);
    let mp: i64 = (5 * doy + 2) / 153;
    let d: i64 = doy - (153 * mp + 2) / 5 + 1;
    let m: i64 = if mp < 10 {
        mp + 3
    } else {
        mp - 9
    };
    let y: i64 = yoe + era * 400 + if m <= 2 { 1 } else { 0 };
    proof {
        let march = yoe + era * 400;
        lemma_year_length(march);
        lemma_year_length(march + 1);
        lemma_months(y as int);
        assert(0 <= doy <= 365);
        assert(0 <= mp <= 11);
        assert(march / 4 == yoe / 4 + 100 * era);
        assert(march / 100 == yoe / 100 + 4 * era);
        assert(march / 400 == era);
        assert((march + 1) / 4 == (yoe + 1) / 4 + 100 * era);
        assert((march + 1) / 100 == (yoe + 1) / 100 + 4 * era);
        assert((march + 1) / 400 == (yoe + 1) / 400 + era);
        assert(days_before_year(march + 1) == 146_097 * era + 365 * yoe + yoe / 4 - yoe / 100);
        assert(day_number(y as int, m as int, d as int) == z);
        let t = civil(z as int);
        let t0 = (y as int, m as int, d as int);
        assert(is_date(t0.0, t0.1, t0.2) && day_number(t0.0, t0.1, t0.2) == z);
        day_numbers_are_distinct(t.0, t.1, t.2, t0.0, t0.1, t0.2);
    }
    (y, m as u32, d as u32)
}

/// Quotient and remainder of a division that rounds down.
pub fn div_floor(a: i64, b: i64) -> (r: (i64, i64))
    requires
        b > 1,
    ensures
        r.0 == a as int / b as int,
        r.1 == a as int % b as int,
        0 <= r.1 < b,
        a == r.0 * b + r.1,
{
    if a >= 0 {
        proof {
            vstd::arithmetic::div_mod::lemma_fundamental_div_mod(a as int, b as int);
            vstd::arithmetic::mul::lemma_mul_is_commutative(a as int / b as int, b as int);
        }
        (a / b, a % b)
    } else {
        let n: i64 = -(a + 1);
        let k: i64 = n / b;
        let s: i64 = n % b;
        proof {
            vstd::arithmetic::div_mod::lemma_fundamental_div_mod(n as int, b as int);
            assert((-k - 1) * b == -(b * k) - b) by (nonlinear_arith);
            vstd::arithmetic::div_mod::lemma_fundamental_div_mod_converse(
                a as int,
                b as int,
                -k - 1,
                b - 1 - s,
            );
            assert(0 <= k <= n) by (nonlinear_arith)
                requires
                    n == b * k + s,
                    b > 1,
                    s >= 0,
                    n >= 0,
                    s < b,
            ;
        }
        (-k - 1, b - 1 - s)
    }
}

/// `n` in decimal with zeros in front up to `width` characters.
pub open spec fn zero_padded(n: nat, width: nat) -> Seq<char> {
    let digits = decimal(n);
    if digits.len() >= width {
        digits
    } else {
        Seq::new((width - digits.len()) as nat, |i: int| '0') + digits
    }
}

/// The same for a number with a sign, which counts as a character.
pub open spec fn zero_padded_int(n: int, width: nat) -> Seq<char> {
    if n < 0 {
        seq!['-'] + zero_padded(
            (-n) as nat,
            if width > 0 {
                (width - 1) as nat
            } else {
                0
            },
        )
    } else {
        zero_padded(n as nat, width)
    }
}

/// Appends `n` with zeros in front up to `width` characters.
pub fn push_padded(out: &mut String, n: u64, width: usize)
    ensures
        final(out)@ == old(out)@ + zero_padded(n as nat, width as nat),
{
    let digits = decimal_text(n);
    let count = chars_of(digits.as_str()).len();
    let mut done: usize = count;
    while done < width
        invariant
            count <= done,
            count < width ==> done <= width,
            count >= width ==> done == count,
            out@ == old(out)@ + Seq::new((done - count) as nat, |i: int| '0'),
        decreases width - done,
    {
        let ghost before = out@;
        out.push('0');
        proof {
            assert(before.push('0') =~= old(out)@ + Seq::new(
                (done + 1 - count) as nat,
                |i: int| '0',
            ));
        }
        done = done + 1;
    }
    out.append(digits.as_str());
    proof {
        assert(out@ =~= old(out)@ + zero_padded(n as nat, width as nat));
    }
}

/// Appends a number with a sign, with zeros in front up to `width` characters.
pub fn push_padded_int(out: &mut String, n: i64, width: usize)
    requires
        n > i64::MIN,
        width > 0,
    ensures
        final(out)@ == old(out)@ + zero_padded_int(n as int, width as nat),
{
    if n < 0 {
        out.push('-');
        push_padded(out, (-n) as u64, width - 1);
        proof {
            assert(out@ =~= old(out)@ + zero_padded_int(n as int, width as nat));
        }
    } else {
        push_padded(out, n as u64, width);
    }
}

/// A moment as calendar date and time of day, in whole seconds.
pub ghost struct Moment {
    pub date: (int, int, int),
    pub hour: int,
    pub minute: int,
    pub second: int,
}

/// The moment `secs` seconds behind 1970-01-01T00:00:00.
pub open spec fn moment(secs: int) -> Moment {
    let of_day = secs % 86_400;
    Moment {
        date: civil(secs / 86_400),
        hour: of_day / 3600,
        minute: of_day / 60 % 60,
        second: of_day % 60,
    }
}

/// Microseconds since 1970 as ISO 8601 in UTC, to the millisecond.
pub open spec fn iso8601(unix_us: int) -> Seq<char> {
    let t = moment(unix_us / 1_000_000);
    zero_padded_int(t.date.0, 4) + "-"@ + zero_padded(t.date.1 as nat, 2) + "-"@ + zero_padded(
        t.date.2 as nat,
        2,
    ) + "T"@ + zero_padded(t.hour as nat, 2) + ":"@ + zero_padded(t.minute as nat, 2) + ":"@
        + zero_padded(t.second as nat, 2) + "."@ + zero_padded(
        (unix_us % 1_000_000 / 1000) as nat,
        3,
    ) + "Z"@
}

/// Microseconds since 1970 as ISO 8601 in UTC, to the millisecond.
pub fn format_iso8601_utc(unix_us: i64) -> (r: String)
    ensures
        r@ == iso8601(unix_us as int),
{
    let (secs, micros) = div_floor(unix_us, 1_000_000);
    let millis: i64 = micros / 1000;
    let (days, sod) = div_floor(secs, 86_400);
    proof {
        assert(-9_300_000_000_000 <= secs <= 9_300_000_000_000);
        assert(-110_000_000 <= days <= 110_000_000);
    }
    let (y, m, d) = civil_from_days(days);
    proof {
        lemma_year_bound(y as int, m as int, d as int);
    }
    let mut out = String::new();
    push_padded_int(&mut out, y, 4);
    out.append("-");
    push_padded(&mut out, m as u64, 2);
    out.append("-");
    push_padded(&mut out, d as u64, 2);
    out.append("T");
    push_padded(&mut out, (sod / 3600) as u64, 2);
    out.append(":");
    push_padded(&mut out, ((sod / 60) % 60) as u64, 2);
    out.append(":");
    push_padded(&mut out, (sod % 60) as u64, 2);
    out.append(".");
    push_padded(&mut out, millis as u64, 3);
    out.append("Z");
    proof {
        assert(out@ =~= iso8601(unix_us as int));
    }
    out
}

pub proof fn lemma_year_bound(y: int, m: int, d: int)
    requires
        is_date(y, m, d),
        day_number(y, m, d) >= -1_000_000_000_000,
    ensures
        y > i64::MIN,
{
    lemma_within_year(y, m, d);
}

} // verus!
