//! The time of day, written down, with no dependency to carry into an
//! initramfs.

use vstd::prelude::*;

use crate::names;
use crate::text;

verus! {

// ---------------------------------------------------------------- calendar
/// Whether a year has a 29th of February.
pub open spec fn leap(y: int) -> bool {
    (y % 4 == 0 && y % 100 != 0) || y % 400 == 0
}

/// How many days a year has.
pub open spec fn year_len(y: int) -> int {
    if leap(y) {
        366
    } else {
        365
    }
}

/// How many days a month has, January being the first.
pub open spec fn month_len(y: int, m: int) -> int {
    if m == 2 {
        if leap(y) {
            29
        } else {
            28
        }
    } else if m == 4 || m == 6 || m == 9 || m == 11 {
        30
    } else {
        31
    }
}

/// How many days lie between the beginning of 1970 and the beginning of a
/// year.
pub open spec fn days_before_year(y: int) -> int
    decreases y - 1970,
{
    if y <= 1970 {
        0
    } else {
        days_before_year(y - 1) + year_len(y - 1)
    }
}

/// How many days of a year lie before a month.
pub open spec fn days_before_month(y: int, m: int) -> int
    decreases m,
{
    if m <= 1 {
        0
    } else {
        days_before_month(y, m - 1) + month_len(y, m - 1)
    }
}

/// Whether the day that begins `days` days after the beginning of 1970 is the
/// `d`th of the `m`th month of the year `y`.
pub open spec fn is_date(days: int, y: int, m: int, d: int) -> bool {
    &&& 1970 <= y
    &&& 1 <= m <= 12
    &&& 1 <= d <= month_len(y, m)
    &&& days == days_before_year(y) + days_before_month(y, m) + d - 1
}

/// The date of a day: the year, the month and the day of the month.
pub open spec fn date_of(days: int) -> (int, int, int) {
    choose|y: int, m: int, d: int| is_date(days, y, m, d)
}

proof fn lemma_year_is_its_months(y: int)
    ensures
        days_before_month(y, 13) == year_len(y),
{
    reveal_with_fuel(days_before_month, 14);
}

proof fn lemma_later_month(y: int, m: int, n: int)
    requires
        1 <= m < n,
    ensures
        days_before_month(y, m) + month_len(y, m) <= days_before_month(y, n),
    decreases n,
{
    if m < n - 1 {
        lemma_later_month(y, m, n - 1);
    }
}

proof fn lemma_later_year(y: int, z: int)
    requires
        1970 <= y < z,
    ensures
        days_before_year(y) + year_len(y) <= days_before_year(z),
    decreases z,
{
    if y < z - 1 {
        lemma_later_year(y, z - 1);
    }
}

/// A day has one date.
pub proof fn law_a_day_has_one_date(
    days: int,
    y: int,
    m: int,
    d: int,
    y2: int,
    m2: int,
    d2: int,
)
    requires
        is_date(days, y, m, d),
        is_date(days, y2, m2, d2),
    ensures
        y == y2 && m == m2 && d == d2,
{
    lemma_year_is_its_months(y);
    lemma_year_is_its_months(y2);
    lemma_later_month(y, m, 13);
    lemma_later_month(y2, m2, 13);
    if y < y2 {
        lemma_later_year(y, y2);
        lemma_first_month(y2, m2);
    } else if y2 < y {
        lemma_later_year(y2, y);
        lemma_first_month(y, m);
    } else if m < m2 {
        lemma_later_month(y, m, m2);
    } else if m2 < m {
        lemma_later_month(y, m2, m);
    }
}

proof fn lemma_first_month(y: int, m: int)
    ensures
        0 <= days_before_month(y, m),
    decreases m,
{
    if m > 1 {
        lemma_first_month(y, m - 1);
    }
}

/// Every day from the beginning of 1970 on has a date.
pub proof fn law_every_day_has_a_date(days: int)
    requires
        0 <= days,
    ensures
        is_date(days, date_of(days).0, date_of(days).1, date_of(days).2),
    decreases days,
{
    if days == 0 {
        assert(is_date(0, 1970, 1, 1));
    } else {
        law_every_day_has_a_date(days - 1);
        let (y, m, d) = date_of(days - 1);
        lemma_year_is_its_months(y);
        if d < month_len(y, m) {
            assert(is_date(days, y, m, d + 1));
        } else if m < 12 {
            assert(days_before_month(y, m + 1) == days_before_month(y, m) + month_len(y, m));
            assert(is_date(days, y, m + 1, 1));
        } else {
            assert(days_before_year(y + 1) == days_before_year(y) + year_len(y));
            assert(is_date(days, y + 1, 1, 1));
        }
    }
}

// ---------------------------------------------------------------- RFC 3339
/// `n` zeros.
pub open spec fn zeros(n: int) -> Seq<char> {
    Seq::new(if n > 0 { n as nat } else { 0 }, |i: int| '0')
}

/// A number with zeros before it, up to a width.
pub open spec fn padded(n: int, width: int) -> Seq<char> {
    zeros(width - text::decimal(n as nat).len()) + text::decimal(n as nat)
}

/// A date and a time of day, as RFC 3339 writes them.
pub open spec fn stamp(y: int, m: int, d: int, rem: int) -> Seq<char> {
    padded(y, 4) + "-"@ + padded(m, 2) + "-"@ + padded(d, 2) + "T"@ + padded(rem / 3600, 2) + ":"@
        + padded((rem % 3600) / 60, 2) + ":"@ + padded(rem % 60, 2) + "Z"@
}

/// The time that is `secs` seconds after the beginning of 1970, as RFC 3339
/// writes it: the date of its day and the time of day.
pub open spec fn stamp_at(secs: u64) -> Seq<char> {
    let (y, m, d) = date_of((secs / 86400) as int);
    stamp(y, m, d, (secs % 86400) as int)
}

proof fn lemma_stamp_at(secs: u64, y: int, m: int, d: int)
    requires
        is_date((secs / 86400) as int, y, m, d),
    ensures
        stamp_at(secs) == stamp(y, m, d, (secs % 86400) as int),
{
    let days = (secs / 86400) as int;
    let (y2, m2, d2) = date_of(days);
    law_a_day_has_one_date(days, y, m, d, y2, m2, d2);
}

fn push_padded(s: &mut String, n: u64, width: usize)
    ensures
        final(s)@ == old(s)@ + padded(n as int, width as int),
{
    let mut number = String::new();
    text::push_decimal(&mut number, n);
    assert(number@ == text::decimal(n as nat));
    let len: usize = text::chars_of(number.as_str()).len();
    let mut i: usize = len;
    while i < width
        invariant
            len <= i,
            i <= width || i == len,
            s@ == old(s)@ + zeros(i - len),
        decreases width - i,
    {
        s.push('0');
        assert(zeros(i + 1 - len) == zeros(i - len).push('0'));
        i = i + 1;
    }
    if len >= width {
        assert(zeros(width - len) == zeros(0));
    }
    s.append(number.as_str());
    assert(s@ == old(s)@ + padded(n as int, width as int));
}

fn is_leap(y: u64) -> (r: bool)
    ensures
        r == leap(y as int),
{
    (y % 4 == 0 && y % 100 != 0) || y % 400 == 0
}

fn len_of_year(y: u64) -> (r: u64)
    ensures
        r == year_len(y as int),
{
    if is_leap(y) {
        366
    } else {
        365
    }
}

fn len_of_month(y: u64, m: u64) -> (r: u64)
    ensures
        r == month_len(y as int, m as int),
{
    if m == 2 {
        if is_leap(y) {
            29
        } else {
            28
        }
    } else if m == 4 || m == 6 || m == 9 || m == 11 {
        30
    } else {
        31
    }
}

/// The date of the day that begins `days` days after the beginning of 1970:
/// the year, the month and the day of the month.
fn date(days: u64) -> (r: (u64, u64, u64))
    requires
        days <= u64::MAX - 1970,
    ensures
        is_date(days as int, r.0 as int, r.1 as int, r.2 as int),
{
    let mut y: u64 = 1970;
    let mut d: u64 = days;
    while d >= len_of_year(y)
        invariant
            1970 <= y,
            y - 1970 + d <= days,
            days <= u64::MAX - 1970,
            days == days_before_year(y as int) + d,
        decreases d,
    {
        assert(days_before_year(y + 1) == days_before_year(y as int) + year_len(y as int));
        d = d - len_of_year(y);
        y = y + 1;
    }
    let mut m: u64 = 1;
    proof {
        lemma_year_is_its_months(y as int);
    }
    let ghost into = d as int;
    while d >= len_of_month(y, m)
        invariant
            1 <= m <= 12,
            into == days_before_month(y as int, m as int) + d,
            into < year_len(y as int),
            days_before_month(y as int, 13) == year_len(y as int),
        decreases d,
    {
        assert(days_before_month(y as int, m + 1) == days_before_month(y as int, m as int)
            + month_len(y as int, m as int));
        d = d - len_of_month(y, m);
        m = m + 1;
    }
    (y, m, d + 1)
}

/// A time, given in seconds since the beginning of 1970, as RFC 3339 writes
/// it.
pub fn rfc3339(secs: u64) -> (r: String)
    ensures
        r@ == stamp_at(secs),
        exists|y: int, m: int, d: int|
            is_date((secs / 86400) as int, y, m, d) && r@ == #[trigger] stamp(
                y,
                m,
                d,
                (secs % 86400) as int,
            ),
{
    let days: u64 = secs / 86400;
    let rem: u64 = secs % 86400;
    let (y, m, d) = date(days);
    let mut s = String::new();
    push_padded(&mut s, y, 4);
    s.append("-");
    push_padded(&mut s, m, 2);
    s.append("-");
    push_padded(&mut s, d, 2);
    s.append("T");
    push_padded(&mut s, rem / 3600, 2);
    s.append(":");
    push_padded(&mut s, (rem % 3600) / 60, 2);
    s.append(":");
    push_padded(&mut s, rem % 60, 2);
    s.append("Z");
    assert(s@ == stamp(y as int, m as int, d as int, rem as int));
    proof {
        lemma_stamp_at(secs, y as int, m as int, d as int);
    }
    s
}

// ------------------------------------------------------------------- order
/// Whether a text has the form `YYYY-MM-DDThh:mm:ssZ`.
pub open spec fn stamp_form(s: Seq<char>) -> bool {
    &&& s.len() == 20
    &&& s[4] == '-' && s[7] == '-' && s[10] == 'T' && s[13] == ':' && s[16] == ':' && s[19] == 'Z'
    &&& forall|i: int|
        0 <= i < 19 && i != 4 && i != 7 && i != 10 && i != 13 && i != 16 ==> '0' <= #[trigger] s[i]
            <= '9'
}

/// The last second of the year 9999.
pub const LAST_OF_9999: u64 = 253_402_300_799;

proof fn lemma_two_digits(n: int)
    requires
        0 <= n < 100,
    ensures
        padded(n, 2) == seq![text::digit((n / 10) as nat), text::digit((n % 10) as nat)],
{
    reveal_with_fuel(text::decimal, 3);
    let s = text::decimal(n as nat);
    assert(padded(n, 2) == zeros(2 - s.len()) + s);
}

/// A number of four digits is written as two of two digits.
proof fn lemma_four_digits(n: int)
    requires
        1000 <= n < 10000,
    ensures
        padded(n, 4) == padded(n / 100, 2) + padded(n % 100, 2),
{
    let h = n / 100;
    let k = n % 100;
    lemma_two_digits(k);
    lemma_two_digits(h);
    assert(n / 10 / 10 == h);
    assert((n / 10) % 10 == k / 10);
    assert(n % 10 == k % 10);
    let tens = text::decimal((n / 10) as nat);
    assert(text::decimal(n as nat) == tens.push(text::digit((n % 10) as nat)));
    assert(tens == text::decimal(h as nat).push(text::digit(((n / 10) % 10) as nat)));
    assert(text::decimal(h as nat) == text::decimal((h / 10) as nat).push(
        text::digit((h % 10) as nat),
    ));
    assert(text::decimal((h / 10) as nat) == seq![text::digit((h / 10) as nat)]);
    assert(padded(n, 4) == zeros(0) + text::decimal(n as nat));
    assert(padded(n, 4) == padded(h, 2) + padded(k, 2));
}

/// Of two numbers of two digits the smaller comes first, whatever follows; and
/// what follows decides where they are the same.
proof fn lemma_two_in_order(a: int, u: Seq<char>, b: int, v: Seq<char>)
    requires
        0 <= a < 100,
        0 <= b < 100,
    ensures
        a < b ==> names::precedes(padded(a, 2) + u, padded(b, 2) + v),
        a == b && names::precedes(u, v) ==> names::precedes(padded(a, 2) + u, padded(b, 2) + v),
{
    lemma_two_digits(a);
    lemma_two_digits(b);
    let p = padded(a, 2);
    let q = padded(b, 2);
    if a < b {
        reveal_with_fuel(names::precedes, 3);
        assert(p.drop_first()[0] == p[1] && q.drop_first()[0] == q[1]);
        assert(names::precedes(p, q));
    }
    names::lemma_precedes_front(p, u, q, v);
}

proof fn lemma_four_in_order(a: int, u: Seq<char>, b: int, v: Seq<char>)
    requires
        1000 <= a < 10000,
        1000 <= b < 10000,
    ensures
        a < b ==> names::precedes(padded(a, 4) + u, padded(b, 4) + v),
        a == b && names::precedes(u, v) ==> names::precedes(padded(a, 4) + u, padded(b, 4) + v),
{
    lemma_four_digits(a);
    lemma_four_digits(b);
    assert(padded(a, 4) + u == padded(a / 100, 2) + (padded(a % 100, 2) + u));
    assert(padded(b, 4) + v == padded(b / 100, 2) + (padded(b % 100, 2) + v));
    lemma_two_in_order(a % 100, u, b % 100, v);
    lemma_two_in_order(a / 100, padded(a % 100, 2) + u, b / 100, padded(b % 100, 2) + v);
}

/// The same text in front changes nothing.
proof fn lemma_after_same(w: Seq<char>, u: Seq<char>, v: Seq<char>)
    ensures
        names::precedes(u, v) ==> names::precedes(w + u, w + v),
{
    names::lemma_precedes_front(w, u, w, v);
}

/// A time of day, as RFC 3339 writes it.
spec fn time_text(rem: int) -> Seq<char> {
    padded(rem / 3600, 2) + (":"@ + (padded((rem % 3600) / 60, 2) + (":"@ + (padded(rem % 60, 2)
        + "Z"@))))
}

proof fn lemma_grouped(a: Seq<char>, b: Seq<char>, c: Seq<char>)
    ensures
        a + b + c == a + (b + c),
{
    assert(a + b + c == a + (b + c));
}

proof fn lemma_stamp_parts(y: int, m: int, d: int, rem: int)
    ensures
        stamp(y, m, d, rem) == padded(y, 4) + ("-"@ + (padded(m, 2) + ("-"@ + (padded(d, 2) + (
        "T"@ + time_text(rem)))))),
{
    let hour = padded(rem / 3600, 2);
    let minute = padded((rem % 3600) / 60, 2);
    let second = padded(rem % 60, 2);
    let p1 = padded(y, 4);
    let p2 = p1 + "-"@;
    let p3 = p2 + padded(m, 2);
    let p4 = p3 + "-"@;
    let p5 = p4 + padded(d, 2);
    let p6 = p5 + "T"@;
    let p7 = p6 + hour;
    let p8 = p7 + ":"@;
    let p9 = p8 + minute;
    let p10 = p9 + ":"@;
    let s11 = second + "Z"@;
    let s10 = ":"@ + s11;
    let s9 = minute + s10;
    let s8 = ":"@ + s9;
    let s7 = hour + s8;
    let s6 = "T"@ + s7;
    let s5 = padded(d, 2) + s6;
    let s4 = "-"@ + s5;
    let s3 = padded(m, 2) + s4;
    lemma_grouped(p10, second, "Z"@);
    lemma_grouped(p9, ":"@, s11);
    lemma_grouped(p8, minute, s10);
    lemma_grouped(p7, ":"@, s9);
    lemma_grouped(p6, hour, s8);
    lemma_grouped(p5, "T"@, s7);
    lemma_grouped(p4, padded(d, 2), s6);
    lemma_grouped(p3, "-"@, s5);
    lemma_grouped(p2, padded(m, 2), s4);
    lemma_grouped(p1, "-"@, s3);
}

proof fn lemma_times_in_order(a: int, b: int)
    requires
        0 <= a < b < 86400,
    ensures
        names::precedes(time_text(a), time_text(b)),
{
    let a3 = padded(a % 60, 2) + "Z"@;
    let b3 = padded(b % 60, 2) + "Z"@;
    let a2 = padded((a % 3600) / 60, 2) + (":"@ + a3);
    let b2 = padded((b % 3600) / 60, 2) + (":"@ + b3);
    lemma_two_in_order(a % 60, "Z"@, b % 60, "Z"@);
    lemma_after_same(":"@, a3, b3);
    lemma_two_in_order((a % 3600) / 60, ":"@ + a3, (b % 3600) / 60, ":"@ + b3);
    lemma_after_same(":"@, a2, b2);
    lemma_two_in_order(a / 3600, ":"@ + a2, b / 3600, ":"@ + b2);
    assert(a / 3600 <= b / 3600);
    assert(a / 3600 == b / 3600 ==> (a % 3600) / 60 <= (b % 3600) / 60);
    assert(a / 3600 == b / 3600 && (a % 3600) / 60 == (b % 3600) / 60 ==> a % 60 < b % 60);
}

/// Of two dates, and of two times of one date, the earlier is written first.
proof fn lemma_stamps_in_order(
    y: int,
    m: int,
    d: int,
    rem: int,
    y2: int,
    m2: int,
    d2: int,
    rem2: int,
)
    requires
        1970 <= y <= y2 <= 9999,
        1 <= m <= 12,
        1 <= m2 <= 12,
        1 <= d <= 31,
        1 <= d2 <= 31,
        0 <= rem < 86400,
        0 <= rem2 < 86400,
        y == y2 ==> m <= m2,
        y == y2 && m == m2 ==> d <= d2,
        y == y2 && m == m2 && d == d2 ==> rem < rem2,
    ensures
        names::precedes(stamp(y, m, d, rem), stamp(y2, m2, d2, rem2)),
{
    lemma_stamp_parts(y, m, d, rem);
    lemma_stamp_parts(y2, m2, d2, rem2);
    let t = "T"@ + time_text(rem);
    let t2 = "T"@ + time_text(rem2);
    let b = "-"@ + (padded(d, 2) + t);
    let b2 = "-"@ + (padded(d2, 2) + t2);
    let c = "-"@ + (padded(m, 2) + b);
    let c2 = "-"@ + (padded(m2, 2) + b2);
    if rem < rem2 {
        lemma_times_in_order(rem, rem2);
    }
    lemma_after_same("T"@, time_text(rem), time_text(rem2));
    lemma_two_in_order(d, t, d2, t2);
    lemma_after_same("-"@, padded(d, 2) + t, padded(d2, 2) + t2);
    lemma_two_in_order(m, b, m2, b2);
    lemma_after_same("-"@, padded(m, 2) + b, padded(m2, 2) + b2);
    lemma_four_in_order(y, c, y2, c2);
}

/// How many days lie before a year, without counting through the years.
proof fn lemma_days_before_year(y: int)
    requires
        1970 <= y,
    ensures
        days_before_year(y) == 365 * (y - 1970) + (y - 1) / 4 - (y - 1) / 100 + (y - 1) / 400 - 477,
    decreases y,
{
    if y > 1970 {
        let z = y - 1;
        lemma_days_before_year(z);
        lemma_one_more(z, 4);
        lemma_one_more(z, 100);
        lemma_one_more(z, 400);
        assert(z % 400 == 0 ==> z % 100 == 0);
        assert(z % 100 == 0 ==> z % 4 == 0);
    }
}

/// Going on by one, a quotient goes on by one where the number is a multiple.
proof fn lemma_one_more(z: int, k: int)
    requires
        z > 0,
        k == 4 || k == 100 || k == 400,
    ensures
        z / k == (z - 1) / k + (if z % k == 0 {
            1int
        } else {
            0
        }),
{
}

/// The date of a time up to the end of the year 9999.
proof fn lemma_date_until_9999(secs: u64) -> (r: (int, int, int))
    requires
        secs <= LAST_OF_9999,
    ensures
        is_date((secs / 86400) as int, r.0, r.1, r.2),
        r.0 <= 9999,
        r.2 <= 31,
        stamp_at(secs) == stamp(r.0, r.1, r.2, (secs % 86400) as int),
{
    let days = (secs / 86400) as int;
    law_every_day_has_a_date(days);
    let (y, m, d) = date_of(days);
    lemma_first_month(y, m);
    lemma_days_before_year(y);
    (y, m, d)
}

/// Where each part of a stamp stands, when each has two characters.
proof fn lemma_twenty(
    a: Seq<char>,
    b: Seq<char>,
    m: Seq<char>,
    d: Seq<char>,
    h: Seq<char>,
    n: Seq<char>,
    s: Seq<char>,
) -> (r: Seq<char>)
    requires
        a.len() == 2 && b.len() == 2 && m.len() == 2 && d.len() == 2,
        h.len() == 2 && n.len() == 2 && s.len() == 2,
    ensures
        r == (a + b) + "-"@ + m + "-"@ + d + "T"@ + h + ":"@ + n + ":"@ + s + "Z"@,
        r.len() == 20,
        r[0] == a[0] && r[1] == a[1],
        r[2] == b[0] && r[3] == b[1],
        r[5] == m[0] && r[6] == m[1],
        r[8] == d[0] && r[9] == d[1],
        r[11] == h[0] && r[12] == h[1],
        r[14] == n[0] && r[15] == n[1],
        r[17] == s[0] && r[18] == s[1],
        r[4] == '-' && r[7] == '-' && r[10] == 'T' && r[13] == ':' && r[16] == ':' && r[19] == 'Z',
{
    reveal_strlit("-");
    reveal_strlit("T");
    reveal_strlit(":");
    reveal_strlit("Z");
    (a + b) + "-"@ + m + "-"@ + d + "T"@ + h + ":"@ + n + ":"@ + s + "Z"@
}

/// Whether a text is that of a date and a time of day, digit for digit.
spec fn digits_stand(s: Seq<char>, y: int, m: int, d: int, rem: int) -> bool {
    &&& s.len() == 20
    &&& s[4] == '-' && s[7] == '-' && s[10] == 'T'
    &&& s[13] == ':' && s[16] == ':' && s[19] == 'Z'
    &&& two_stand_at(s, 0, y / 100)
    &&& two_stand_at(s, 2, y % 100)
    &&& two_stand_at(s, 5, m)
    &&& two_stand_at(s, 8, d)
    &&& two_stand_at(s, 11, rem / 3600)
    &&& two_stand_at(s, 14, (rem % 3600) / 60)
    &&& two_stand_at(s, 17, rem % 60)
}

/// Whether a number of two digits stands at a place.
spec fn two_stand_at(s: Seq<char>, i: int, n: int) -> bool {
    s[i] == text::digit((n / 10) as nat) && s[i + 1] == text::digit((n % 10) as nat)
}

proof fn lemma_stamp_digits(y: int, m: int, d: int, rem: int)
    requires
        1970 <= y <= 9999,
        1 <= m <= 12,
        1 <= d <= 31,
        0 <= rem < 86400,
    ensures
        digits_stand(stamp(y, m, d, rem), y, m, d, rem),
{
    lemma_four_digits(y);
    lemma_two_digits(y / 100);
    lemma_two_digits(y % 100);
    lemma_two_digits(m);
    lemma_two_digits(d);
    lemma_two_digits(rem / 3600);
    lemma_two_digits((rem % 3600) / 60);
    lemma_two_digits(rem % 60);
    let r = lemma_twenty(
        padded(y / 100, 2),
        padded(y % 100, 2),
        padded(m, 2),
        padded(d, 2),
        padded(rem / 3600, 2),
        padded((rem % 3600) / 60, 2),
        padded(rem % 60, 2),
    );
    assert(r == stamp(y, m, d, rem));
}

/// Two digits that stand at a place spell their number.
proof fn lemma_two_at(s: Seq<char>, i: int, n: int)
    requires
        0 <= n < 100,
        two_stand_at(s, i, n),
    ensures
        two_at(s, i) == n,
        '0' <= s[i] <= '9',
        '0' <= s[i + 1] <= '9',
{
    assert(n == (n / 10) * 10 + n % 10);
}

/// The number that two digits at a place spell.
pub open spec fn two_at(s: Seq<char>, i: int) -> int {
    (s[i] as int - 48) * 10 + (s[i + 1] as int - 48)
}

/// Whether a text has the form of a stamp and its digits spell a date and a time
/// of day.
spec fn spells(s: Seq<char>, y: int, m: int, d: int, rem: int) -> bool {
    &&& stamp_form(s)
    &&& two_at(s, 0) == y / 100
    &&& two_at(s, 2) == y % 100
    &&& two_at(s, 5) == m
    &&& two_at(s, 8) == d
    &&& two_at(s, 11) == rem / 3600
    &&& two_at(s, 14) == (rem % 3600) / 60
    &&& two_at(s, 17) == rem % 60
}

proof fn lemma_spells(s: Seq<char>, y: int, m: int, d: int, rem: int)
    requires
        1970 <= y <= 9999,
        1 <= m <= 12,
        1 <= d <= 31,
        0 <= rem < 86400,
        digits_stand(s, y, m, d, rem),
    ensures
        spells(s, y, m, d, rem),
{
    lemma_two_at(s, 0, y / 100);
    lemma_two_at(s, 2, y % 100);
    lemma_two_at(s, 5, m);
    lemma_two_at(s, 8, d);
    lemma_two_at(s, 11, rem / 3600);
    lemma_two_at(s, 14, (rem % 3600) / 60);
    lemma_two_at(s, 17, rem % 60);
}

proof fn lemma_stamp_form(y: int, m: int, d: int, rem: int)
    requires
        1970 <= y <= 9999,
        1 <= m <= 12,
        1 <= d <= 31,
        0 <= rem < 86400,
    ensures
        spells(stamp(y, m, d, rem), y, m, d, rem),
{
    lemma_stamp_digits(y, m, d, rem);
    lemma_spells(stamp(y, m, d, rem), y, m, d, rem);
}

/// Stamps sort as times do: up to the end of the year 9999 each is a text of 20
/// characters of one form, the earlier of two times comes first, and two are the
/// same only for the same time. So claims can be read in order.
pub proof fn law_stamps_sort_as_times_do(a: u64, b: u64)
    requires
        a <= b <= LAST_OF_9999,
    ensures
        stamp_form(stamp_at(a)),
        stamp_form(stamp_at(b)),
        a < b ==> names::precedes(stamp_at(a), stamp_at(b)),
        !names::precedes(stamp_at(b), stamp_at(a)),
        stamp_at(a) == stamp_at(b) <==> a == b,
{
    let (y, m, d) = lemma_date_until_9999(a);
    let (y2, m2, d2) = lemma_date_until_9999(b);
    lemma_stamp_form(y, m, d, (a % 86400) as int);
    lemma_stamp_form(y2, m2, d2, (b % 86400) as int);
    if a < b {
        lemma_dates_in_order((a / 86400) as int, y, m, d, (b / 86400) as int, y2, m2, d2);
        lemma_stamps_in_order(
            y,
            m,
            d,
            (a % 86400) as int,
            y2,
            m2,
            d2,
            (b % 86400) as int,
        );
    }
    if names::precedes(stamp_at(b), stamp_at(a)) {
        names::lemma_precedes_one_way(stamp_at(b), stamp_at(a));
    }
}

/// The later of two days has the later date.
proof fn lemma_dates_in_order(
    days: int,
    y: int,
    m: int,
    d: int,
    days2: int,
    y2: int,
    m2: int,
    d2: int,
)
    requires
        is_date(days, y, m, d),
        is_date(days2, y2, m2, d2),
        days <= days2,
    ensures
        y <= y2,
        y == y2 ==> m <= m2,
        y == y2 && m == m2 ==> d <= d2,
        y == y2 && m == m2 && d == d2 ==> days == days2,
{
    lemma_year_is_its_months(y2);
    lemma_later_month(y2, m2, 13);
    lemma_first_month(y, m);
    if y2 < y {
        lemma_later_year(y2, y);
    } else if y == y2 && m2 < m {
        lemma_later_month(y, m2, m);
    }
}

/// The days go on one after the other from the first of January 1970, each month
/// with as many as it has, February with a 29th in every fourth year, but for
/// those of a century that is not the fourth.
pub proof fn law_the_days_go_on_one_after_the_other(days: int)
    requires
        0 <= days,
    ensures
        date_of(0) == (1970int, 1int, 1int),
        ({
            let (y, m, d) = date_of(days);
            let last = if m == 2 {
                if y % 400 == 0 || (y % 4 == 0 && y % 100 != 0) {
                    29int
                } else {
                    28
                }
            } else if m == 4 || m == 6 || m == 9 || m == 11 {
                30
            } else {
                31
            };
            &&& 1 <= m <= 12
            &&& 1 <= d <= last
            &&& d < last ==> date_of(days + 1) == (y, m, d + 1)
            &&& d == last && m < 12 ==> date_of(days + 1) == (y, m + 1, 1int)
            &&& d == last && m == 12 ==> date_of(days + 1) == (y + 1, 1int, 1int)
        }),
{
    law_every_day_has_a_date(0);
    assert(is_date(0, 1970, 1, 1));
    let (a, b, c) = date_of(0);
    law_a_day_has_one_date(0, a, b, c, 1970, 1, 1);
    law_every_day_has_a_date(days);
    law_every_day_has_a_date(days + 1);
    let (y, m, d) = date_of(days);
    let (y2, m2, d2) = date_of(days + 1);
    lemma_year_is_its_months(y);
    let (y3, m3, d3) = if d < month_len(y, m) {
        (y, m, d + 1)
    } else if m < 12 {
        (y, m + 1, 1int)
    } else {
        (y + 1, 1int, 1int)
    };
    assert(days_before_month(y, m + 1) == days_before_month(y, m) + month_len(y, m));
    assert(days_before_year(y + 1) == days_before_year(y) + year_len(y));
    assert(is_date(days + 1, y3, m3, d3));
    law_a_day_has_one_date(days + 1, y2, m2, d2, y3, m3, d3);
}

/// A stamp tells the date of the day and the time of day, in digits that can be
/// read back: the year, the month and the day, and then hours, minutes and
/// seconds that add up to the seconds of the day.
pub proof fn law_a_stamp_tells_the_time(secs: u64)
    requires
        secs <= 253_402_300_799,
    ensures
        ({
            let s = stamp_at(secs);
            let (y, m, d) = date_of((secs / 86400) as int);
            &&& stamp_form(s)
            &&& two_at(s, 0) * 100 + two_at(s, 2) == y
            &&& two_at(s, 5) == m
            &&& two_at(s, 8) == d
            &&& two_at(s, 11) * 3600 + two_at(s, 14) * 60 + two_at(s, 17) == secs % 86400
            &&& two_at(s, 14) < 60
            &&& two_at(s, 17) < 60
        }),
{
    let (y, m, d) = lemma_date_until_9999(secs);
    let days = (secs / 86400) as int;
    let (y2, m2, d2) = date_of(days);
    law_every_day_has_a_date(days);
    law_a_day_has_one_date(days, y, m, d, y2, m2, d2);
    let rem = (secs % 86400) as int;
    lemma_stamp_form(y, m, d, rem);
}

} // verus!
