//! How old a sensor reading is, from its RFC 3339 timestamp, and whether it
//! counts as stale.

use vstd::prelude::*;
use crate::text::{
    chars_of, digits_upto, digits_value, find_char, find_first, is_digit, slice_vec, split_chars,
    split_on, trim, trim_bounds, views,
};
use crate::trusted::unix_now;
use vstd::arithmetic::div_mod::{lemma_fundamental_div_mod, lemma_fundamental_div_mod_converse, lemma_mod_bound};

verus! {

/// Readings older than this many seconds are stale.
pub const STALE_AFTER_SECS: u64 = 1800;

/// `s` without any `Z`s at its end.
pub open spec fn strip_z(s: Seq<char>) -> Seq<char>
    decreases s.len(),
{
    if s.len() > 0 && s.last() == 'Z' {
        strip_z(s.drop_last())
    } else {
        s
    }
}

/// Digits, all of them.
pub open spec fn all_digits(d: Seq<char>) -> bool {
    d.len() > 0 && forall|i: int| 0 <= i < d.len() ==> is_digit(#[trigger] d[i])
}

/// `str::parse::<u64>`.
pub open spec fn parse_u64(s: Seq<char>) -> Option<int> {
    let d = if s.len() > 0 && s[0] == '+' {
        s.drop_first()
    } else {
        s
    };
    if all_digits(d) && digits_value(d) <= u64::MAX {
        Some(digits_value(d) as int)
    } else {
        None
    }
}

/// `str::parse::<i64>`.
pub open spec fn parse_i64(s: Seq<char>) -> Option<int> {
    if s.len() > 0 && s[0] == '-' {
        let d = s.drop_first();
        if all_digits(d) && digits_value(d) <= 0x8000_0000_0000_0000 {
            Some(-(digits_value(d) as int))
        } else {
            None
        }
    } else {
        let d = if s.len() > 0 && s[0] == '+' {
            s.drop_first()
        } else {
            s
        };
        if all_digits(d) && digits_value(d) <= i64::MAX {
            Some(digits_value(d) as int)
        } else {
            None
        }
    }
}

/// A time-of-day field's end: the first `+`, `-` or `.`.
pub open spec fn time_stop(c: char) -> bool {
    c == '+' || c == '-' || c == '.'
}

/// The index of the first zone or fraction mark in `t`.
pub open spec fn first_stop(t: Seq<char>) -> Option<int>
    decreases t.len(),
{
    if t.len() == 0 {
        None
    } else if time_stop(t[0]) {
        Some(0)
    } else {
        match first_stop(t.drop_first()) {
            Some(i) => Some(i + 1),
            None => None,
        }
    }
}

/// `time.split(['+', '-', '.']).next()`: the time before any zone or fraction.
pub open spec fn time_head(t: Seq<char>) -> Seq<char> {
    match first_stop(t) {
        Some(i) => t.take(i),
        None => t,
    }
}

proof fn lemma_first_stop(t: Seq<char>, i: int)
    requires
        0 <= i <= t.len(),
        forall|j: int| 0 <= j < i ==> !time_stop(#[trigger] t[j]),
    ensures
        i < t.len() && time_stop(t[i]) ==> first_stop(t) == Some(i),
        i == t.len() ==> first_stop(t) is None,
    decreases i,
{
    if i > 0 {
        let u = t.drop_first();
        assert forall|j: int| 0 <= j < i - 1 implies !time_stop(#[trigger] u[j]) by {
            assert(u[j] == t[j + 1]);
        }
        if i < t.len() {
            assert(u[i - 1] == t[i]);
        }
        lemma_first_stop(u, i - 1);
    }
}

proof fn lemma_strip_z(s: Seq<char>, k: int)
    requires
        0 <= k <= s.len(),
        forall|j: int| k <= j < s.len() ==> #[trigger] s[j] == 'Z',
        k == 0 || s[k - 1] != 'Z',
    ensures
        strip_z(s) == s.take(k),
    decreases s.len() - k,
{
    if k == s.len() {
        assert(s.take(k) =~= s);
    } else {
        let d = s.drop_last();
        assert forall|j: int| k <= j < d.len() implies #[trigger] d[j] == 'Z' by {
            assert(d[j] == s[j]);
        }
        if k > 0 {
            assert(d[k - 1] == s[k - 1]);
        }
        lemma_strip_z(d, k);
        assert(d.take(k) =~= s.take(k));
    }
}

/// The fields of an RFC 3339 timestamp (`YYYY-MM-DDTHH:MM:SS`, with anything
/// after the seconds ignored): year, month, day, hour, minute, second.
pub open spec fn recorded_fields(s: Seq<char>) -> Option<(int, int, int, int, int, int)> {
    let t = strip_z(trim(s));
    match find_first(t, 'T') {
        None => None,
        Some(k) => {
            let dp = split_on(t.take(k), '-');
            let tp = split_on(time_head(t.skip(k + 1)), ':');
            if dp.len() < 3 || tp.len() < 3 {
                None
            } else {
                match (
                    parse_i64(dp[0]),
                    parse_u64(dp[1]),
                    parse_u64(dp[2]),
                    parse_u64(tp[0]),
                    parse_u64(tp[1]),
                    parse_u64(tp[2]),
                ) {
                    (Some(y), Some(mo), Some(d), Some(h), Some(mi), Some(se)) => Some(
                        (y, mo, d, h, mi, se),
                    ),
                    _ => None,
                }
            }
        },
    }
}

/// Fits in `i64`.
pub open spec fn in_i64(x: int) -> bool {
    i64::MIN <= x <= i64::MAX
}

/// Fits in `u64`.
pub open spec fn in_u64(x: int) -> bool {
    0 <= x <= u64::MAX
}

/// The `i64` whose bits are those of the `u64` value `x` (`x as i64`).
pub open spec fn u64_bits_as_i64(x: int) -> int {
    if x <= i64::MAX {
        x
    } else {
        x - 0x1_0000_0000_0000_0000
    }
}

/// Seconds since 1970 of a UTC civil date and time, by the days-from-civil
/// count (eras of 400 years, March-based years), computed in the types the
/// timestamp's fields come in: `None` when a step leaves its type (where
/// plain Rust arithmetic would panic).
pub open spec fn civil_unix(year: int, month: int, day: int, hour: int, minute: int, second: int) -> Option<int> {
    let y = if month <= 2 {
        year - 1
    } else {
        year
    };
    let era = y / 400;
    let yoe = y % 400;
    let mp = if month > 2 {
        month - 3
    } else {
        month + 9
    };
    let t1 = 153 * mp;
    let t2 = t1 + 2;
    let s1 = yoe * 365 + yoe / 4 - yoe / 100 + t2 / 5 + day;
    let doe = s1 - 1;
    let e = era * 146097;
    let d1 = e + u64_bits_as_i64(doe);
    let days = d1 - 719468;
    let a = days * 86400;
    let b = u64_bits_as_i64(hour) * 3600;
    let c = u64_bits_as_i64(minute) * 60;
    let u1 = a + b;
    let u2 = u1 + c;
    let u3 = u2 + u64_bits_as_i64(second);
    if in_i64(y) && in_u64(t1) && in_u64(t2) && in_u64(s1) && in_u64(doe) && in_i64(e) && in_i64(
        d1,
    ) && in_i64(days) && in_i64(a) && in_i64(b) && in_i64(c) && in_i64(u1) && in_i64(u2)
        && in_i64(u3) {
        Some(u3)
    } else {
        None
    }
}

/// A Gregorian leap year.
pub open spec fn leap_year(y: int) -> bool {
    y % 4 == 0 && (y % 100 != 0 || y % 400 == 0)
}

/// The number of days in month `m` (1 to 12) of year `y`.
pub open spec fn days_in_month(y: int, m: int) -> int {
    if m == 2 {
        if leap_year(y) {
            29
        } else {
            28
        }
    } else if m == 4 || m == 6 || m == 9 || m == 11 {
        30
    } else {
        31
    }
}

/// A calendar date with a time of day, within the span the calendar laws
/// cover: years within a hundred million of year 0, and hours, minutes and
/// seconds each at most a billion.
pub open spec fn civil_in_range(y: int, m: int, d: int, h: int, mi: int, s: int) -> bool {
    &&& -100000000 <= y <= 100000000
    &&& 1 <= m <= 12
    &&& 1 <= d <= days_in_month(y, m)
    &&& 0 <= h <= 1000000000
    &&& 0 <= mi <= 1000000000
    &&& 0 <= s <= 1000000000
}

/// Days from 0000-03-01 to March 1st of year `y` (era count).
spec fn march_days(y: int) -> int {
    let r = y % 400;
    (y / 400) * 146097 + r * 365 + r / 4 - r / 100
}

/// Days of a March-based year before month `mp` (March is 0).
spec fn month_days(mp: int) -> int {
    (153 * mp + 2) / 5
}

/// The days-from-civil count of a date.
spec fn civil_days(y: int, m: int, d: int) -> int {
    if m <= 2 {
        march_days(y - 1) + month_days(m + 9) + d - 1 - 719468
    } else {
        march_days(y) + month_days(m - 3) + d - 1 - 719468
    }
}

proof fn lemma_civil_value(y: int, m: int, d: int, h: int, mi: int, s: int)
    requires
        civil_in_range(y, m, d, h, mi, s),
    ensures
        civil_unix(y, m, d, h, mi, s) == Some(civil_days(y, m, d) * 86400 + h * 3600 + mi * 60 + s),
        -40000000000 <= civil_days(y, m, d) <= 40000000000,
{
    let yy = if m <= 2 { y - 1 } else { y };
    let mp = if m > 2 { m - 3 } else { m + 9 };
    assert(0 <= mp <= 11);
    assert(0 <= yy % 400 < 400);
    assert(-250001 <= yy / 400 <= 250000);
    assert(0 <= month_days(mp) <= 337) by {
        assert(0 <= 153 * mp + 2 <= 1685);
    }
}

/// The year-to-year step of the era count: a year has 365 days, 366 when it
/// is a leap year (counted from March, so the leap day of `y` falls in the
/// step from `y - 1` to `y`).
proof fn lemma_march_year(y: int)
    ensures
        march_days(y) - march_days(y - 1) == if leap_year(y) { 366int } else { 365int },
{
    let e = (y - 1) / 400;
    let r = (y - 1) % 400;
    lemma_fundamental_div_mod(y - 1, 400);
    lemma_mod_bound(y - 1, 400);
    if r < 399 {
        lemma_fundamental_div_mod_converse(y, 400, e, r + 1);
        lemma_div_step(r, 4);
        lemma_div_step(r, 100);
        lemma_fundamental_div_mod(r + 1, 4);
        lemma_mod_bound(r + 1, 4);
        lemma_fundamental_div_mod_converse(y, 4, e * 100 + (r + 1) / 4, (r + 1) % 4);
        lemma_fundamental_div_mod(r + 1, 100);
        lemma_mod_bound(r + 1, 100);
        lemma_fundamental_div_mod_converse(y, 100, e * 4 + (r + 1) / 100, (r + 1) % 100);
        assert(march_days(y - 1) == e * 146097 + r * 365 + r / 4 - r / 100);
        assert(march_days(y) == e * 146097 + (r + 1) * 365 + (r + 1) / 4 - (r + 1) / 100);
    } else {
        lemma_fundamental_div_mod_converse(y, 400, e + 1, 0);
        lemma_fundamental_div_mod_converse(y, 4, (e + 1) * 100, 0);
        lemma_fundamental_div_mod_converse(y, 100, (e + 1) * 4, 0);
        assert(399int / 4 == 99 && 399int / 100 == 3);
        assert(march_days(y - 1) == e * 146097 + 399 * 365 + 99 - 3);
        assert(march_days(y) == (e + 1) * 146097);
    }
}

/// One step up in `r` raises `r / k` by one exactly when `r + 1` is a
/// multiple of `k`.
proof fn lemma_div_step(r: int, k: int)
    requires
        0 <= r,
        0 < k,
    ensures
        (r + 1) / k - r / k == if (r + 1) % k == 0 { 1int } else { 0int },
{
    lemma_fundamental_div_mod(r, k);
    lemma_mod_bound(r, k);
    let q = r / k;
    let m = r % k;
    assert(q * k == k * q && (q + 1) * k == k * q + k) by (nonlinear_arith);
    if m + 1 < k {
        lemma_fundamental_div_mod_converse(r + 1, k, q, m + 1);
    } else {
        lemma_fundamental_div_mod_converse(r + 1, k, q + 1, 0);
    }
}

/// The epoch: 1970-01-01 00:00:00 is second 0.
pub proof fn lemma_civil_epoch()
    ensures
        civil_unix(1970, 1, 1, 0, 0, 0) == Some(0int),
{
    lemma_civil_value(1970, 1, 1, 0, 0, 0);
    assert(1969int / 400 == 4 && 1969int % 400 == 369);
    assert(month_days(10) == 306);
}

/// Within the covered span every calendar date and time has a count of
/// seconds, and the time of day adds its hours, minutes and seconds to the
/// count of midnight.
pub proof fn lemma_civil_time_of_day(y: int, m: int, d: int, h: int, mi: int, s: int)
    requires
        civil_in_range(y, m, d, h, mi, s),
    ensures
        civil_unix(y, m, d, h, mi, s) is Some,
        civil_unix(y, m, d, 0, 0, 0) is Some,
        civil_unix(y, m, d, h, mi, s)->0 == civil_unix(y, m, d, 0, 0, 0)->0 + 3600 * h + 60 * mi + s,
{
    lemma_civil_value(y, m, d, h, mi, s);
    lemma_civil_value(y, m, d, 0, 0, 0);
}

/// The next day of the same month is exactly 86400 seconds later.
pub proof fn lemma_civil_next_day(y: int, m: int, d: int, h: int, mi: int, s: int)
    requires
        civil_in_range(y, m, d, h, mi, s),
        d < days_in_month(y, m),
    ensures
        civil_unix(y, m, d + 1, h, mi, s) is Some,
        civil_unix(y, m, d + 1, h, mi, s)->0 == civil_unix(y, m, d, h, mi, s)->0 + 86400,
{
    lemma_civil_value(y, m, d, h, mi, s);
    lemma_civil_value(y, m, d + 1, h, mi, s);
}

/// The first of the next month lies as many days after the first of a month
/// as that month has (28 or 29 for February by the leap-year rule).
pub proof fn lemma_civil_next_month(y: int, m: int, h: int, mi: int, s: int)
    requires
        civil_in_range(y, m, 1, h, mi, s),
        m < 12,
    ensures
        civil_unix(y, m + 1, 1, h, mi, s) is Some,
        civil_unix(y, m + 1, 1, h, mi, s)->0 == civil_unix(y, m, 1, h, mi, s)->0 + 86400
            * days_in_month(y, m),
{
    lemma_civil_value(y, m, 1, h, mi, s);
    lemma_civil_value(y, m + 1, 1, h, mi, s);
    assert(month_days(0) == 0 && month_days(1) == 31 && month_days(2) == 61 && month_days(3)
        == 92 && month_days(4) == 122 && month_days(5) == 153 && month_days(6) == 184
        && month_days(7) == 214 && month_days(8) == 245 && month_days(9) == 275 && month_days(10)
        == 306 && month_days(11) == 337);
    if m == 2 {
        lemma_march_year(y);
    }
}

/// January 1st of the next year lies 31 days after December 1st.
pub proof fn lemma_civil_next_year(y: int, h: int, mi: int, s: int)
    requires
        civil_in_range(y, 12, 1, h, mi, s),
        y < 100000000,
    ensures
        civil_unix(y + 1, 1, 1, h, mi, s) is Some,
        civil_unix(y + 1, 1, 1, h, mi, s)->0 == civil_unix(y, 12, 1, h, mi, s)->0 + 86400 * 31,
{
    lemma_civil_value(y, 12, 1, h, mi, s);
    lemma_civil_value(y + 1, 1, 1, h, mi, s);
    assert(month_days(9) == 275 && month_days(10) == 306);
}

/// The timestamp parses, but its arithmetic leaves its types.
pub open spec fn recorded_overflows(s: Seq<char>) -> bool {
    match recorded_fields(s) {
        Some((y, mo, d, h, mi, se)) => civil_unix(y, mo, d, h, mi, se) is None,
        None => false,
    }
}

/// The age in seconds of a reading taken at `s`, when the clock reads `now`
/// seconds since 1970 (`None` for a clock before 1970): `None` when `s` does
/// not parse or lies in the future. Times before 1970 count as 1970.
pub open spec fn age_at(s: Seq<char>, now: Option<u64>) -> Option<int> {
    match recorded_fields(s) {
        None => None,
        Some((y, mo, d, h, mi, se)) => match civil_unix(y, mo, d, h, mi, se) {
            None => None,
            Some(u) => {
                let then = if u < 0 {
                    0
                } else {
                    u
                };
                match now {
                    Some(n) => if n >= then {
                        Some(n - then)
                    } else {
                        None
                    },
                    None => None,
                }
            },
        },
    }
}

/// Whether a reading taken at `recorded_at` is stale when the clock reads
/// `now`: no timestamp is stale, an unreadable or future one is not.
pub open spec fn stale_at(recorded_at: Option<Seq<char>>, now: Option<u64>) -> bool {
    match recorded_at {
        None => true,
        Some(s) => match age_at(s, now) {
            Some(a) => a > STALE_AFTER_SECS,
            None => false,
        },
    }
}

/// Once a reading is stale it stays stale as the clock moves on.
pub proof fn lemma_stale_stays_stale(recorded_at: Option<Seq<char>>, earlier: u64, later: u64)
    requires
        earlier <= later,
        stale_at(recorded_at, Some(earlier)),
    ensures
        stale_at(recorded_at, Some(later)),
{
}

/// A reading's age grows second for second with the clock.
pub proof fn lemma_age_tracks_clock(s: Seq<char>, now: u64, later: u64)
    requires
        now <= later,
        age_at(s, Some(now)) is Some,
    ensures
        age_at(s, Some(later)) == Some(age_at(s, Some(now))->0 + (later - now)),
{
}

fn parse_u64_chars(s: &Vec<char>) -> (r: Option<u64>)
    ensures
        match r {
            Some(v) => parse_u64(s@) == Some(v as int),
            None => parse_u64(s@) is None,
        },
{
    let start: usize = if s.len() > 0 && s[0] == '+' {
        1
    } else {
        0
    };
    let d = slice_vec(s, start, s.len());
    proof {
        if start == 1 {
            assert(d@ =~= s@.drop_first());
        } else {
            assert(d@ =~= s@);
        }
    }
    match digits_upto(&d, u64::MAX as u128) {
        Some(v) => Some(v as u64),
        None => None,
    }
}

fn parse_i64_chars(s: &Vec<char>) -> (r: Option<i64>)
    ensures
        match r {
            Some(v) => parse_i64(s@) == Some(v as int),
            None => parse_i64(s@) is None,
        },
{
    if s.len() > 0 && s[0] == '-' {
        let d = slice_vec(s, 1, s.len());
        assert(d@ =~= s@.drop_first());
        match digits_upto(&d, 0x8000_0000_0000_0000u128) {
            Some(v) => Some((0i128 - v as i128) as i64),
            None => None,
        }
    } else {
        let start: usize = if s.len() > 0 && s[0] == '+' {
            1
        } else {
            0
        };
        let d = slice_vec(s, start, s.len());
        proof {
            if start == 1 {
                assert(d@ =~= s@.drop_first());
            } else {
                assert(d@ =~= s@);
            }
        }
        match digits_upto(&d, i64::MAX as u128) {
            Some(v) => Some(v as i64),
            None => None,
        }
    }
}

fn parse_recorded(recorded_at: &str) -> (r: Option<(i64, u64, u64, u64, u64, u64)>)
    ensures
        match r {
            Some((y, mo, d, h, mi, se)) => recorded_fields(recorded_at@) == Some(
                (y as int, mo as int, d as int, h as int, mi as int, se as int),
            ),
            None => recorded_fields(recorded_at@) is None,
        },
{
    let chars = chars_of(recorded_at);
    let (a, b) = trim_bounds(&chars);
    let tr = slice_vec(&chars, a, b);
    let mut k = tr.len();
    while k > 0 && tr[k - 1] == 'Z'
        invariant
            k <= tr.len(),
            forall|j: int| k <= j < tr@.len() ==> #[trigger] tr@[j] == 'Z',
        decreases k,
    {
        k = k - 1;
    }
    proof {
        lemma_strip_z(tr@, k as int);
    }
    let t = slice_vec(&tr, 0, k);
    assert(t@ =~= strip_z(trim(recorded_at@)));
    let pos = match find_char(&t, 'T') {
        Some(p) => p,
        None => {
            return None;
        },
    };
    let date = slice_vec(&t, 0, pos);
    let time = slice_vec(&t, pos + 1, t.len());
    assert(date@ =~= t@.take(pos as int));
    assert(time@ =~= t@.skip(pos + 1));
    let mut j: usize = 0;
    while j < time.len() && !(time[j] == '+' || time[j] == '-' || time[j] == '.')
        invariant
            j <= time.len(),
            forall|q: int| 0 <= q < j ==> !time_stop(#[trigger] time@[q]),
        decreases time.len() - j,
    {
        j = j + 1;
    }
    proof {
        lemma_first_stop(time@, j as int);
    }
    let head = slice_vec(&time, 0, j);
    proof {
        if j == time.len() {
            assert(head@ =~= time@);
        } else {
            assert(head@ =~= time@.take(j as int));
        }
        assert(head@ == time_head(time@));
    }
    let dp = split_chars(&date, '-');
    let tp = split_chars(&head, ':');
    if dp.len() < 3 || tp.len() < 3 {
        return None;
    }
    assert(views(dp@)[0] == dp@[0]@ && views(dp@)[1] == dp@[1]@ && views(dp@)[2] == dp@[2]@);
    assert(views(tp@)[0] == tp@[0]@ && views(tp@)[1] == tp@[1]@ && views(tp@)[2] == tp@[2]@);
    let y = parse_i64_chars(&dp[0]);
    let mo = parse_u64_chars(&dp[1]);
    let d = parse_u64_chars(&dp[2]);
    let h = parse_u64_chars(&tp[0]);
    let mi = parse_u64_chars(&tp[1]);
    let se = parse_u64_chars(&tp[2]);
    match (y, mo, d, h, mi, se) {
        (Some(y), Some(mo), Some(d), Some(h), Some(mi), Some(se)) => Some((y, mo, d, h, mi, se)),
        _ => None,
    }
}

fn bits_i64(x: i128) -> (r: i128)
    requires
        in_u64(x as int),
    ensures
        r == u64_bits_as_i64(x as int),
        in_i64(r as int),
{
    if x <= i64::MAX as i128 {
        x
    } else {
        x - 0x1_0000_0000_0000_0000i128
    }
}

fn fits_i64(x: i128) -> (b: bool)
    ensures
        b == in_i64(x as int),
{
    i64::MIN as i128 <= x && x <= i64::MAX as i128
}

fn fits_u64(x: i128) -> (b: bool)
    ensures
        b == in_u64(x as int),
{
    0 <= x && x <= u64::MAX as i128
}

fn civil_unix_exec(year: i64, month: u64, day: u64, hour: u64, minute: u64, second: u64) -> (r: Option<i64>)
    ensures
        match r {
            Some(v) => civil_unix(
                year as int,
                month as int,
                day as int,
                hour as int,
                minute as int,
                second as int,
            ) == Some(v as int),
            None => civil_unix(
                year as int,
                month as int,
                day as int,
                hour as int,
                minute as int,
                second as int,
            ) is None,
        },
{
    let y: i128 = if month <= 2 {
        year as i128 - 1
    } else {
        year as i128
    };
    if !fits_i64(y) {
        return None;
    }
    let era: i128;
    let yoe: i128;
    if y >= 0 {
        era = (y as u128 / 400) as i128;
        yoe = (y as u128 % 400) as i128;
    } else {
        let q: u128 = ((0 - y) as u128 + 399) / 400;
        era = 0 - q as i128;
        yoe = y + 400 * q as i128;
        assert(era == y / 400 && yoe == y % 400) by (nonlinear_arith)
            requires
                y < 0,
                y >= i64::MIN,
                q == (-y + 399) / 400,
                era == -q,
                yoe == y + 400 * q,
        ;
    }
    assert(0 <= yoe < 400);
    let mp: i128 = if month > 2 {
        month as i128 - 3
    } else {
        month as i128 + 9
    };
    let t1 = 153 * mp;
    if !fits_u64(t1) {
        return None;
    }
    let t2 = t1 + 2;
    if !fits_u64(t2) {
        return None;
    }
    let s1 = yoe * 365 + (yoe as u128 / 4) as i128 - (yoe as u128 / 100) as i128 + (t2 as u128
        / 5) as i128 + day as i128;
    if !fits_u64(s1) {
        return None;
    }
    let doe = s1 - 1;
    if !fits_u64(doe) {
        return None;
    }
    let e = era * 146097;
    if !fits_i64(e) {
        return None;
    }
    let d1 = e + bits_i64(doe);
    if !fits_i64(d1) {
        return None;
    }
    let days = d1 - 719468;
    if !fits_i64(days) {
        return None;
    }
    let a = days * 86400;
    if !fits_i64(a) {
        return None;
    }
    let b = bits_i64(hour as i128) * 3600;
    if !fits_i64(b) {
        return None;
    }
    let c = bits_i64(minute as i128) * 60;
    if !fits_i64(c) {
        return None;
    }
    let u1 = a + b;
    if !fits_i64(u1) {
        return None;
    }
    let u2 = u1 + c;
    if !fits_i64(u2) {
        return None;
    }
    let u3 = u2 + bits_i64(second as i128);
    if !fits_i64(u3) {
        return None;
    }
    Some(u3 as i64)
}

/// Whether the arithmetic on this timestamp leaves its types (where plain
/// Rust arithmetic panics); `recorded_age_secs` does not take such input.
pub fn recorded_at_overflows(recorded_at: &str) -> (b: bool)
    ensures
        b == recorded_overflows(recorded_at@),
{
    match parse_recorded(recorded_at) {
        Some((y, mo, d, h, mi, se)) => civil_unix_exec(y, mo, d, h, mi, se).is_none(),
        None => false,
    }
}

/// The age in seconds of a reading taken at `recorded_at`, with the clock
/// reading `now` (see `age_at`).
pub fn recorded_age_at(recorded_at: &str, now: Option<u64>) -> (r: Option<u64>)
    requires
        !recorded_overflows(recorded_at@),
    ensures
        match r {
            Some(a) => age_at(recorded_at@, now) == Some(a as int),
            None => age_at(recorded_at@, now) is None,
        },
{
    let (y, mo, d, h, mi, se) = match parse_recorded(recorded_at) {
        Some(f) => f,
        None => {
            return None;
        },
    };
    let u = match civil_unix_exec(y, mo, d, h, mi, se) {
        Some(u) => u,
        None => {
            return None;
        },
    };
    let then: u64 = if u < 0 {
        0
    } else {
        u as u64
    };
    match now {
        Some(n) => {
            if n >= then {
                Some(n - then)
            } else {
                None
            }
        },
        None => None,
    }
}

/// The age in seconds of a reading taken at `recorded_at`, by the system
/// clock: `None` when the timestamp does not parse or lies in the future.
pub fn recorded_age_secs(recorded_at: &str) -> (r: Option<u64>)
    requires
        !recorded_overflows(recorded_at@),
    ensures
        exists|now: Option<u64>|
            match r {
                Some(a) => age_at(recorded_at@, now) == Some(a as int),
                None => age_at(recorded_at@, now) is None,
            },
{
    let now = unix_now();
    let r = recorded_age_at(recorded_at, now);
    assert(match r {
        Some(a) => age_at(recorded_at@, now) == Some(a as int),
        None => age_at(recorded_at@, now) is None,
    });
    r
}

/// The optional characters of an optional string slice.
pub open spec fn opt_chars(o: Option<&str>) -> Option<Seq<char>> {
    match o {
        Some(s) => Some(s@),
        None => None,
    }
}

/// Timestamps that `is_stale` can take.
pub open spec fn stale_input_ok(recorded_at: Option<&str>) -> bool {
    match recorded_at {
        Some(s) => !recorded_overflows(s@),
        None => true,
    }
}

/// Whether a reading taken at `recorded_at` is stale with the clock reading
/// `now` (see `stale_at`).
pub fn is_stale_at(recorded_at: Option<&str>, now: Option<u64>) -> (b: bool)
    requires
        stale_input_ok(recorded_at),
    ensures
        b == stale_at(opt_chars(recorded_at), now),
{
    match recorded_at {
        Some(raw) => match recorded_age_at(raw, now) {
            Some(age) => age > STALE_AFTER_SECS,
            None => false,
        },
        None => true,
    }
}

/// Whether a reading is stale by the system clock: more than 30 minutes old.
/// A reading without a timestamp is stale; one whose timestamp does not parse
/// or lies in the future is not.
pub fn is_stale(recorded_at: Option<&str>) -> (b: bool)
    requires
        stale_input_ok(recorded_at),
    ensures
        recorded_at is None ==> b,
        exists|now: Option<u64>| b == stale_at(opt_chars(recorded_at), now),
{
    let now = unix_now();
    let b = is_stale_at(recorded_at, now);
    assert(b == stale_at(opt_chars(recorded_at), now));
    b
}

} // verus!
