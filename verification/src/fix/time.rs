//! Calendar dates and FIX timestamps from counts of days and seconds.

use vstd::prelude::*;
use vstd::string::StringExecFns;

verus! {

/// The number of the day `y`-`m`-`d` of the proleptic Gregorian calendar,
/// counted from 1970-01-01.
pub open spec fn days_from_civil(y: int, m: int, d: int) -> int {
    let yy = if m <= 2 {
        y - 1
    } else {
        y
    };
    let era = if yy >= 0 {
        yy / 400
    } else {
        -((399 - yy) / 400)
    };
    let yoe = yy - era * 400;
    let mp = if m > 2 {
        m - 3
    } else {
        m + 9
    };
    let doy = (153 * mp + 2) / 5 + d - 1;
    let doe = yoe * 365 + yoe / 4 - yoe / 100 + doy;
    era * 146097 + doe - 719468
}

/// The number of days of the month `m` of the civil year `y`.
pub open spec fn month_length(y: int, m: int) -> int {
    if m == 2 {
        if (y % 4 == 0 && y % 100 != 0) || y % 400 == 0 {
            29
        } else {
            28
        }
    } else if m == 4 || m == 6 || m == 9 || m == 11 {
        30
    } else {
        31
    }
}

/// The period of 400 years that the day with the number `z`, counted from
/// 0000-03-01, falls in.
pub open spec fn era_of(z: int) -> int {
    if z >= 0 {
        z / 146097
    } else {
        -((146096 - z) / 146097)
    }
}

/// The year within its period of 400 years of the day with the number `z`.
pub open spec fn year_of_era(z: int) -> int {
    let doe = z - era_of(z) * 146097;
    (doe - doe / 1460 + doe / 36524 - doe / 146096) / 365
}

/// The day within its year, a year that starts in March, of the day with
/// the number `z`.
pub open spec fn day_of_year(z: int) -> int {
    let doe = z - era_of(z) * 146097;
    let yoe = year_of_era(z);
    doe - (365 * yoe + yoe / 4 - yoe / 100)
}

/// The month of the day with the number `z`: 1 to 12.
pub open spec fn month_of(z: int) -> int {
    let mp = (5 * day_of_year(z) + 2) / 153;
    if mp < 10 {
        mp + 3
    } else {
        mp - 9
    }
}

/// The day of the month of the day with the number `z`: 1 to 31.
pub open spec fn day_of_month(z: int) -> int {
    let mp = (5 * day_of_year(z) + 2) / 153;
    day_of_year(z) - (153 * mp + 2) / 5 + 1
}

/// The year that is reported for the day with the number `z`: the year in
/// which the twelve months from March that hold the day come to their
/// end. This is the civil year for a day of January or February, and one
/// more for a day of March to December.
pub open spec fn reported_year(z: int) -> int {
    year_of_era(z) + era_of(z) * 400 + 1
}

/// The date that is reported for a day is that day: month and day of
/// month, with the civil year that the reported year stands for, give the
/// number of the day again.
pub proof fn lemma_date_is_the_day(z: int)
    requires
        0 <= z <= 1_000_000_719_468,
    ensures
        1 <= month_of(z) <= 12,
        1 <= day_of_month(z) <= month_length(
            if month_of(z) > 2 {
                reported_year(z) - 1
            } else {
                reported_year(z)
            },
            month_of(z),
        ),
        days_from_civil(
            if month_of(z) > 2 {
                reported_year(z) - 1
            } else {
                reported_year(z)
            },
            month_of(z),
            day_of_month(z),
        ) == z - 719468,
{
    let era = era_of(z);
    let doe = z - era * 146097;
    let yoe = year_of_era(z);
    let doy = day_of_year(z);
    let mp = (5 * doy + 2) / 153;
    assert(0 <= doe < 146097);
    assert(0 <= yoe <= 399);
    assert(0 <= doy <= 365);
    assert(0 <= mp <= 11);
    let m = month_of(z);
    let d = day_of_month(z);
    let y = if m > 2 {
        reported_year(z) - 1
    } else {
        reported_year(z)
    };
    let yy = if m <= 2 {
        y - 1
    } else {
        y
    };
    assert(yy == yoe + era * 400);
    assert(yy / 400 == era);
    assert(yy - (yy / 400) * 400 == yoe);
    assert((if m > 2 { m - 3 } else { m + 9 }) == mp);
    assert((153 * mp + 2) / 5 + d - 1 == doy);
}

/// Year, month and day of the day with the number `days`, counted from
/// 1970-01-01, for days from 0000-03-01 on. Month and day are those of the
/// proleptic Gregorian calendar. The year is the year in which the twelve
/// months from March that hold the day come to their end: the civil year
/// for a day of January or February, one more for a day of March to
/// December. A year that does not fit in 32 bits is cut to its low 32 bits.
pub fn days_to_ymd(days: i64) -> (r: (u32, u32, u32))
    requires
        -719468 <= days <= 300_000_000_000_000,
    ensures
        r.0 == ((reported_year(days + 719468) - 1) as u32).wrapping_add(1),
        reported_year(days + 719468) <= u32::MAX ==> r.0 == reported_year(days + 719468),
        r.1 == month_of(days + 719468),
        r.2 == day_of_month(days + 719468),
        1 <= r.1 <= 12,
        1 <= r.2 <= 31,
{
    let z = days + 719468;
    let era = z / 146097;
    let doe = z - era * 146097;
    let yoe = (doe - doe / 1460 + doe / 36524 - doe / 146096) / 365;
    let y = (#[verifier::truncate] ((yoe + era * 400) as u32)).wrapping_add(1);
    let doy = doe - (365 * yoe + yoe / 4 - yoe / 100);
    let mp = (5 * doy + 2) / 153;
    let d = (doy - (153 * mp + 2) / 5 + 1) as u32;
    let m = if mp < 10 {
        (mp + 3) as u32
    } else {
        (mp - 9) as u32
    };
    (y, m, d)
}

/// The decimal digits of `n`, most significant first, as a text.
pub open spec fn digits_text(n: nat) -> Seq<char>
    decreases n,
{
    if n < 10 {
        seq![(48 + n) as char]
    } else {
        digits_text(n / 10).push((48 + n % 10) as char)
    }
}

/// The decimal digits of `n`, with zeros in front up to `width` digits.
pub open spec fn padded(n: nat, width: nat) -> Seq<char> {
    let digits = digits_text(n);
    if digits.len() >= width {
        digits
    } else {
        Seq::new((width - digits.len()) as nat, |i: int| '0') + digits
    }
}

/// The FIX timestamp of the second `secs` after 1970-01-01 00:00:00 UTC:
/// `YYYYMMDD-HH:MM:SS`, with the year as [`days_to_ymd`] reports it.
pub open spec fn timestamp_text(secs: u64) -> Seq<char> {
    let z = secs / 86400 + 719468;
    let t = secs % 86400;
    padded(((reported_year(z) - 1) as u32).wrapping_add(1) as nat, 4) + padded(month_of(z) as nat, 2)
        + padded(day_of_month(z) as nat, 2) + seq!['-'] + padded((t / 3600) as nat, 2) + seq![':']
        + padded(((t % 3600) / 60) as nat, 2) + seq![':'] + padded((t % 60) as nat, 2)
}

/// Calls `u64::to_string`: the number in decimal digits, without sign or
/// padding.
#[verifier::external_body]
pub(crate) fn number_text(n: u64) -> (r: String)
    ensures
        r@ == digits_text(n as nat),
{
    n.to_string()
}

/// Appends the decimal digits of `n`, with zeros in front up to `width`
/// digits.
fn append_padded(out: &mut String, n: u64, width: usize)
    ensures
        final(out)@ == old(out)@ + padded(n as nat, width as nat),
{
    let digits = number_text(n);
    let len = digits.as_str().unicode_len();
    let ghost before = out@;
    let mut i: usize = len;
    proof {
        assert(out@ =~= before + Seq::new(0nat, |k: int| '0'));
    }
    while i < width
        invariant
            len <= i,
            len == digits@.len(),
            i <= width || i == len,
            out@ == before + Seq::new((i - len) as nat, |k: int| '0'),
        decreases width - i,
    {
        let ghost here = out@;
        out.append("0");
        proof {
            reveal_strlit("0");
            assert("0"@ =~= seq!['0']);
            assert(out@ =~= before + Seq::new((i + 1 - len) as nat, |k: int| '0'));
        }
        i += 1;
    }
    let ghost zeros = out@;
    out.append(digits.as_str());
    proof {
        if len >= width {
            assert(zeros =~= before);
        }
        assert(out@ =~= before + padded(n as nat, width as nat));
    }
}

/// The FIX timestamp `YYYYMMDD-HH:MM:SS` of the second `ts` after
/// 1970-01-01 00:00:00 UTC, or of `now` where `ts` is zero.
pub fn format_utc_timestamp(ts: u64, now: u64) -> (r: String)
    ensures
        r@ == timestamp_text(
            if ts == 0 {
                now
            } else {
                ts
            },
        ),
{
    let secs = if ts == 0 {
        now
    } else {
        ts
    };
    let days = (secs / 86400) as i64;
    let t = secs % 86400;
    let (y, m, d) = days_to_ymd(days);
    let mut out = String::new();
    append_padded(&mut out, y as u64, 4);
    append_padded(&mut out, m as u64, 2);
    append_padded(&mut out, d as u64, 2);
    out.append("-");
    append_padded(&mut out, t / 3600, 2);
    out.append(":");
    append_padded(&mut out, (t % 3600) / 60, 2);
    out.append(":");
    append_padded(&mut out, t % 60, 2);
    proof {
        reveal_strlit("-");
        reveal_strlit(":");
        assert("-"@ =~= seq!['-']);
        assert(":"@ =~= seq![':']);
        assert(out@ =~= timestamp_text(secs));
    }
    out
}

} // verus!
