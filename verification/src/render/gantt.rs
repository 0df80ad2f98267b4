//! Integer parts of the gantt renderer: date labels, tick spacing, bar colors.

use vstd::prelude::*;
use crate::ir::charts::TaskStatus;
use crate::ir::style::ComponentRole;
use crate::render::theme::{role_hue, Theme};
use crate::text::{
    all_digits, dec, dec_of, digit_char, digits_val, find, find_from, is_digit, parse_i64,
    parse_unsigned, split_by,
};
use crate::parser::gantt::{date_fields, days_from_civil, parse_date_spec};

verus! {

/// (year, month, day) of the civil date `days` after 1970-01-01.
pub open spec fn civil_from_days(days: int) -> (int, int, int) {
    let z = days + 719468;
    let era = z / 146097;
    let doe = z - era * 146097;
    let yoe = (doe - doe / 1460 + doe / 36524 - doe / 146096) / 365;
    let doy = doe - (365 * yoe + yoe / 4 - yoe / 100);
    let mp = (5 * doy + 2) / 153;
    let d = doy - (153 * mp + 2) / 5 + 1;
    let m = if mp < 10 {
        mp + 3
    } else {
        mp - 9
    };
    let y = yoe + era * 400 + if m <= 2 {
        1int
    } else {
        0int
    };
    (y, m, d)
}

/// Two-digit zero-padded decimal (`{:02}`) of a value below 100.
pub open spec fn pad2(n: nat) -> Seq<char> {
    if n < 10 {
        seq!['0'] + dec(n)
    } else {
        dec(n)
    }
}

/// `MM-DD` of the civil date `days` after 1970-01-01.
pub open spec fn date_label(days: int) -> Seq<char> {
    let (_, m, d) = civil_from_days(days);
    pad2(m as nat) + "-"@ + pad2(d as nat)
}

proof fn lemma_civil_ranges(days: int)
    ensures
        1 <= civil_from_days(days).1 <= 12,
        1 <= civil_from_days(days).2 <= 31,
{
    let z = days + 719468;
    let era = z / 146097;
    let doe = z - era * 146097;
    assert(0 <= doe < 146097);
    let yoe = (doe - doe / 1460 + doe / 36524 - doe / 146096) / 365;
    assert(0 <= yoe <= 399) by (nonlinear_arith)
        requires
            0 <= doe < 146097,
            yoe == (doe - doe / 1460 + doe / 36524 - doe / 146096) / 365,
    ;
    let doy = doe - (365 * yoe + yoe / 4 - yoe / 100);
    assert(0 <= doy <= 365) by (nonlinear_arith)
        requires
            0 <= doe < 146097,
            yoe == (doe - doe / 1460 + doe / 36524 - doe / 146096) / 365,
            doy == doe - (365 * yoe + yoe / 4 - yoe / 100),
    ;
    let mp = (5 * doy + 2) / 153;
    assert(0 <= mp <= 11);
    let d = doy - (153 * mp + 2) / 5 + 1;
    assert(1 <= d <= 31) by (nonlinear_arith)
        requires
            0 <= doy <= 365,
            mp == (5 * doy + 2) / 153,
            d == doy - (153 * mp + 2) / 5 + 1,
    ;
}

fn pad2_of(n: i64) -> (r: Vec<char>)
    requires
        0 <= n < 100,
    ensures
        r@ == pad2(n as nat),
{
    if n < 10 {
        let mut v = vec!['0'];
        let d = dec_of(n as u64);
        crate::render::append(&mut v, &d);
        assert(v@ == seq!['0'] + dec(n as nat));
        v
    } else {
        dec_of(n as u64)
    }
}

/// Civil days since 1970-01-01 as `MM-DD` (the year is left out to keep
/// axis ticks compact).
pub fn format_date(days: i64) -> (r: String)
    requires
        days <= i64::MAX - 719468,
    ensures
        r@ == date_label(days as int),
{
    proof {
        reveal_strlit("-");
        lemma_civil_ranges(days as int);
    }
    let z: i128 = days as i128 + 719468;
    let era: i128 = if z >= 0 {
        z / 146097
    } else {
        -((-z + 146096) / 146097)
    };
    assert(era == z / 146097) by (nonlinear_arith)
        requires
            era == (if z >= 0 {
                z / 146097
            } else {
                -((-z + 146096) / 146097)
            }),
    ;
    let doe = z - era * 146097;
    assert(0 <= doe < 146097);
    let yoe = (doe - doe / 1460 + doe / 36524 - doe / 146096) / 365;
    let doy = doe - (365 * yoe + yoe / 4 - yoe / 100);
    let mp = (5 * doy + 2) / 153;
    let d = doy - (153 * mp + 2) / 5 + 1;
    let m = if mp < 10 {
        mp + 3
    } else {
        mp - 9
    };
    let mut v = pad2_of(m as i64);
    crate::render::put(&mut v, "-");
    let dd = pad2_of(d as i64);
    crate::render::append(&mut v, &dd);
    crate::text::string_of(&v)
}

/// Tick interval in days: the first of 1, 2, 7, 14, 30, 90, 180, 365 that
/// gives at most ten intervals over `span_days`, else 365.
pub open spec fn tick_days(span_days: int) -> int {
    if span_days / 1 <= 10 {
        1
    } else if span_days / 2 <= 10 {
        2
    } else if span_days / 7 <= 10 {
        7
    } else if span_days / 14 <= 10 {
        14
    } else if span_days / 30 <= 10 {
        30
    } else if span_days / 90 <= 10 {
        90
    } else if span_days / 180 <= 10 {
        180
    } else {
        365
    }
}

/// Tick interval giving roughly six to ten gridlines over `span_days` (at
/// least one day).
pub fn pick_tick(span_days: i64) -> (r: i64)
    requires
        span_days >= 1,
    ensures
        r == tick_days(span_days as int),
{
    let cands: [i64; 8] = [1, 2, 7, 14, 30, 90, 180, 365];
    let mut i: usize = 0;
    while i < 8
        invariant
            i <= 8,
            span_days >= 1,
            cands@ == seq![1i64, 2, 7, 14, 30, 90, 180, 365],
            forall|k: int| 0 <= k < i ==> span_days / cands@[k] > 10,
        decreases 8 - i,
    {
        if span_days / cands[i] <= 10 {
            return cands[i];
        }
        i += 1;
    }
    365
}

/// Bar color of a task status, taken from the role hues.
pub open spec fn status_hue(s: TaskStatus) -> Seq<char> {
    match s {
        TaskStatus::Planned => role_hue(ComponentRole::Service),
        TaskStatus::Active => role_hue(ComponentRole::Client),
        TaskStatus::Done => role_hue(ComponentRole::External),
        TaskStatus::Critical => role_hue(ComponentRole::Cache),
    }
}

pub fn status_color(status: TaskStatus, theme: &Theme) -> (r: &'static str)
    ensures
        r@ == status_hue(status),
{
    match status {
        TaskStatus::Planned => theme.role_color(ComponentRole::Service),
        TaskStatus::Active => theme.role_color(ComponentRole::Client),
        TaskStatus::Done => theme.role_color(ComponentRole::External),
        TaskStatus::Critical => theme.role_color(ComponentRole::Cache),
    }
}

/// Day of the (March-based) era of year `yoe` of the era and day `doy` of
/// that year.
spec fn era_day(yoe: int, doy: int) -> int {
    365 * yoe + yoe / 4 - yoe / 100 + doy
}

/// The year-of-era formula of `civil_from_days` inverts `era_day` on every
/// day that exists: day 365 of a March-based year is Feb 29 of the next
/// calendar year, which exists only when that year is a leap year.
proof fn lemma_year_of_era(yoe: int, doy: int)
    requires
        0 <= yoe < 400,
        0 <= doy <= 365,
        doy <= 364 || ((yoe + 1) % 4 == 0 && ((yoe + 1) % 100 != 0 || yoe == 399)),
    ensures
        0 <= era_day(yoe, doy) < 146097,
        ({
            let doe = era_day(yoe, doy);
            (doe - doe / 1460 + doe / 36524 - doe / 146096) / 365
        }) == yoe,
{
    let c = yoe / 100;
    let t = yoe % 100;
    let k = t / 4;
    let r = t % 4;
    assert(yoe == 100 * c + 4 * k + r);
    assert(0 <= c <= 3 && 0 <= k <= 24 && 0 <= r <= 3);
    assert(yoe / 4 == 25 * c + k);
    let doe = era_day(yoe, doy);
    assert(doe == 36524 * c + 1461 * k + 365 * r + doy);
    let big = 24 * c + k + 365 * r + doy;
    assert(doe == 1460 * (25 * c + k) + big);
    let d1 = if big >= 1460 { 25 * c + k + 1 } else { 25 * c + k };
    assert(doe / 1460 == d1);
    let d2 = if doe == 146096 { 4 } else { c };
    assert(doe / 36524 == d2);
    let d3 = if doe == 146096 { 1int } else { 0int };
    assert(doe / 146096 == d3);
    let e = doe - d1 + d2 - d3;
    assert(e == 365 * yoe + doy - (d1 - 25 * c - k) - (c - d2) - d3);
    assert(365 * yoe <= e < 365 * yoe + 365);
}

/// Gregorian leap years.
pub open spec fn is_leap(y: int) -> bool {
    y % 4 == 0 && (y % 100 != 0 || y % 400 == 0)
}

/// Days in month `m` (1-12) of year `y`.
pub open spec fn days_in_month(y: int, m: int) -> int {
    if m == 2 {
        if is_leap(y) {
            29
        } else {
            28
        }
    } else if m == 4 || m == 6 || m == 9 || m == 11 {
        30
    } else {
        31
    }
}

/// Days in the month `mp` months after March (0 = March, 11 = February).
spec fn march_month_len(mp: int, leap: bool) -> int {
    if mp == 11 {
        if leap {
            29
        } else {
            28
        }
    } else if mp == 1 || mp == 3 || mp == 6 || mp == 8 {
        30
    } else {
        31
    }
}

/// The month and day formulas of `civil_from_days` invert the day-of-year
/// formula of `days_from_civil`.
proof fn lemma_month_of_day(mp: int, d: int, leap: bool)
    requires
        0 <= mp <= 11,
        1 <= d <= march_month_len(mp, leap),
    ensures
        ({
            let doy = (153 * mp + 2) / 5 + d - 1;
            &&& 0 <= doy <= 365
            &&& doy == 365 ==> mp == 11 && d == 29
            &&& (5 * doy + 2) / 153 == mp
            &&& doy - (153 * ((5 * doy + 2) / 153) + 2) / 5 + 1 == d
        }),
{
    if mp == 0 {
    } else if mp == 1 {
    } else if mp == 2 {
    } else if mp == 3 {
    } else if mp == 4 {
    } else if mp == 5 {
    } else if mp == 6 {
    } else if mp == 7 {
    } else if mp == 8 {
    } else if mp == 9 {
    } else if mp == 10 {
    } else {
    }
}

/// A date the Gantt parser reads comes back unchanged from the day count it
/// becomes: `civil_from_days` undoes `days_from_civil` on every calendar
/// date, so the axis prints the month and day that were written.
pub proof fn law_date_roundtrip(y: int, m: int, d: int)
    requires
        1 <= m <= 12,
        1 <= d <= days_in_month(y, m),
    ensures
        civil_from_days(days_from_civil(y, m, d)) == (y, m, d),
{
    let y2 = if m <= 2 {
        y - 1
    } else {
        y
    };
    let era = y2 / 400;
    let yoe = y2 - era * 400;
    assert(0 <= yoe < 400);
    let mp = (m + 9) % 12;
    assert(mp == if m <= 2 { m + 9 } else { m - 3 });
    let leap = is_leap(y2 + 1);
    assert(y2 + 1 == 400 * era + yoe + 1);
    assert((y2 + 1) % 4 == (yoe + 1) % 4);
    assert((y2 + 1) % 100 == (yoe + 1) % 100);
    assert(((y2 + 1) % 400 == 0) == (yoe == 399));
    assert(1 <= d <= march_month_len(mp, leap));
    lemma_month_of_day(mp, d, leap);
    let doy = (153 * mp + 2) / 5 + d - 1;
    lemma_year_of_era(yoe, doy);
    let doe = era_day(yoe, doy);
    assert(days_from_civil(y, m, d) == era * 146097 + doe - 719468);
    let z = era * 146097 + doe;
    assert(z / 146097 == era);
    assert(z - (z / 146097) * 146097 == doe);
}

/// A `YYYY-MM-DD` date that names a real calendar day and that `parse_date`
/// accepts is printed on the axis by `format_date` as its own `MM-DD`.
pub proof fn law_axis_prints_parsed_date(s: Seq<char>)
    requires
        date_fields(s) matches Some((y, m, d)) && d <= days_in_month(y, m),
        parse_date_spec(s).0 is Some,
    ensures
        date_fields(s) matches Some((y, m, d)) && date_label(parse_date_spec(s).0->0) == pad2(
            m as nat,
        ) + "-"@ + pad2(d as nat),
{
    let (y, m, d) = date_fields(s)->0;
    law_date_roundtrip(y, m, d);
}

/// Four-digit zero-padded decimal (`{:04}`) of a value below 10000.
pub open spec fn pad4(n: nat) -> Seq<char> {
    seq![
        digit_char((n / 1000) as int),
        digit_char((n / 100 % 10) as int),
        digit_char((n / 10 % 10) as int),
        digit_char((n % 10) as int),
    ]
}

proof fn lemma_pad2_digits(n: nat)
    requires
        n < 100,
    ensures
        pad2(n) == seq![digit_char((n / 10) as int), digit_char((n % 10) as int)],
{
    if n < 10 {
        assert(digit_char(0) as u32 == '0' as u32);
        assert(dec(n) == seq![digit_char(n as int)]);
        assert(seq!['0'] + dec(n) =~= seq![digit_char(0), digit_char(n as int)]);
    } else {
        assert(dec(n / 10) == seq![digit_char((n / 10) as int)]);
        assert(dec(n) == dec(n / 10).push(digit_char((n % 10) as int)));
        assert(dec(n) =~= seq![digit_char((n / 10) as int), digit_char((n % 10) as int)]);
    }
}

/// A run of digit characters holds no `-` and no `+`.
spec fn digit_run(s: Seq<char>) -> bool {
    forall|i: int| 0 <= i < s.len() ==> 48 <= (#[trigger] s[i]) as u32 <= 57
}

proof fn lemma_find_dash_none(t: Seq<char>, i: int)
    requires
        0 <= i,
        digit_run(t),
    ensures
        find_from(t, seq!['-'], i) is None,
    decreases t.len() + 1 - i,
{
    if i + 1 <= t.len() {
        assert(t.subrange(i, i + 1)[0] == t[i]);
        assert(t[i] as u32 >= 48);
        lemma_find_dash_none(t, i + 1);
    }
}

proof fn lemma_find_dash_at(t: Seq<char>, i: int, k: int)
    requires
        0 <= i <= k < t.len(),
        t[k] == '-',
        forall|j: int| i <= j < k ==> 48 <= (#[trigger] t[j]) as u32 <= 57,
    ensures
        find_from(t, seq!['-'], i) == Some(k),
    decreases k - i,
{
    assert(t.subrange(i, i + 1)[0] == t[i]);
    if i < k {
        assert(t[i] as u32 >= 48);
        lemma_find_dash_at(t, i + 1, k);
    } else {
        assert(t.subrange(i, i + 1) =~= seq!['-']);
    }
}

/// Splitting `a-rest` at `-`, where `a` holds no `-`, gives `a` and then
/// the pieces of `rest`.
proof fn lemma_split_dash(a: Seq<char>, rest: Seq<char>)
    requires
        digit_run(a),
    ensures
        split_by(a + seq!['-'] + rest, seq!['-']) == seq![a] + split_by(rest, seq!['-']),
        split_by(a, seq!['-']) == seq![a],
{
    let t = a + seq!['-'] + rest;
    assert forall|j: int| 0 <= j < a.len() implies 48 <= (#[trigger] t[j]) as u32 <= 57 by {
        assert(t[j] == a[j]);
    }
    lemma_find_dash_at(t, 0, a.len() as int);
    assert(t.take(a.len() as int) =~= a);
    assert(t.skip(a.len() as int + 1) =~= rest);
    lemma_find_dash_none(a, 0);
}

proof fn lemma_digit_char_facts(k: int)
    requires
        0 <= k <= 9,
    ensures
        digit_char(k) as u32 == 48 + k,
        is_digit(digit_char(k)),
        (digit_char(k) as u32) - ('0' as u32) == k,
{
}

proof fn lemma_pad4_parse(y: nat)
    requires
        y < 10000,
    ensures
        digit_run(pad4(y)),
        parse_i64(pad4(y)) == Some(y as int),
{
    let s = pad4(y);
    let a = (y / 1000) as int;
    let b = (y / 100 % 10) as int;
    let c = (y / 10 % 10) as int;
    let e = (y % 10) as int;
    lemma_digit_char_facts(a);
    lemma_digit_char_facts(b);
    lemma_digit_char_facts(c);
    lemma_digit_char_facts(e);
    assert(all_digits(s));
    assert(s.drop_last() =~= seq![digit_char(a), digit_char(b), digit_char(c)]);
    assert(s.drop_last().drop_last() =~= seq![digit_char(a), digit_char(b)]);
    assert(s.drop_last().drop_last().drop_last() =~= seq![digit_char(a)]);
    assert(s.drop_last().drop_last().drop_last().drop_last() =~= Seq::<char>::empty());
    assert(digits_val(seq![digit_char(a)]) == a) by {
        assert(seq![digit_char(a)].drop_last() =~= Seq::<char>::empty());
        assert(digits_val(Seq::<char>::empty()) == 0);
        assert(seq![digit_char(a)].last() == digit_char(a));
        assert(crate::text::digit_val(digit_char(a)) == a);
    }
    assert(digits_val(seq![digit_char(a), digit_char(b)]) == a * 10 + b) by {
        assert(seq![digit_char(a), digit_char(b)].drop_last() =~= seq![digit_char(a)]);
    }
    assert(digits_val(seq![digit_char(a), digit_char(b), digit_char(c)]) == (a * 10 + b) * 10 + c)
        by {
        assert(seq![digit_char(a), digit_char(b), digit_char(c)].drop_last() =~= seq![
            digit_char(a),
            digit_char(b),
        ]);
    }
    assert(digits_val(s) == ((a * 10 + b) * 10 + c) * 10 + e);
    assert(((a * 10 + b) * 10 + c) * 10 + e == y);
    assert(s[0] != '-' && s[0] != '+');
}

proof fn lemma_pad2_parse(n: nat)
    requires
        n < 100,
    ensures
        digit_run(pad2(n)),
        parse_unsigned(pad2(n), 0xffff_ffff) == Some(n as int),
{
    lemma_pad2_digits(n);
    let s = pad2(n);
    let a = (n / 10) as int;
    let e = (n % 10) as int;
    lemma_digit_char_facts(a);
    lemma_digit_char_facts(e);
    assert(all_digits(s));
    assert(s.drop_last() =~= seq![digit_char(a)]);
    assert(s.drop_last().drop_last() =~= Seq::<char>::empty());
    assert(digits_val(seq![digit_char(a)]) == a) by {
        assert(seq![digit_char(a)].drop_last() =~= Seq::<char>::empty());
        assert(digits_val(Seq::<char>::empty()) == 0);
        assert(seq![digit_char(a)].last() == digit_char(a));
        assert(crate::text::digit_val(digit_char(a)) == a);
    }
    assert(digits_val(s) == a * 10 + e);
    assert(s[0] != '+');
}

/// Every calendar date of the years 1 to 9999, written `YYYY-MM-DD` with
/// zero padding, is read by the Gantt parser and printed on the axis as
/// its own `MM-DD`.
pub proof fn law_padded_date_roundtrip(y: int, m: int, d: int)
    requires
        1 <= y <= 9999,
        1 <= m <= 12,
        1 <= d <= days_in_month(y, m),
    ensures
        parse_date_spec(pad4(y as nat) + "-"@ + pad2(m as nat) + "-"@ + pad2(d as nat)) == (
            Some(days_from_civil(y, m, d)),
            false,
        ),
        date_label(days_from_civil(y, m, d)) == pad2(m as nat) + "-"@ + pad2(d as nat),
{
    reveal_strlit("-");
    assert("-"@ =~= seq!['-']);
    let a = pad4(y as nat);
    let b = pad2(m as nat);
    let c = pad2(d as nat);
    lemma_pad4_parse(y as nat);
    lemma_pad2_parse(m as nat);
    assert(d <= 31);
    lemma_pad2_parse(d as nat);
    let t = a + "-"@ + b + "-"@ + c;
    assert(t =~= a + seq!['-'] + (b + seq!['-'] + c));
    lemma_split_dash(a, b + seq!['-'] + c);
    lemma_split_dash(b, c);
    lemma_split_dash(c, Seq::<char>::empty());
    assert(split_by(t, "-"@) =~= seq![a, b, c]);
    assert(date_fields(t) == Some((y, m, d)));
    let y2 = if m <= 2 { y - 1 } else { y };
    let era = y2 / 400;
    let yoe = y2 - era * 400;
    let mp = (m + 9) % 12;
    let doy = (153 * mp + 2) / 5 + d - 1;
    let doe = yoe * 365 + yoe / 4 - yoe / 100 + doy;
    assert(0 <= era <= 24);
    assert(0 <= yoe < 400);
    assert(0 <= doy <= 400);
    assert(0 <= doe <= 400 * 366) by (nonlinear_arith)
        requires
            0 <= yoe < 400,
            0 <= doy <= 400,
            doe == yoe * 365 + yoe / 4 - yoe / 100 + doy,
    ;
    assert(days_from_civil(y, m, d) == era * 146097 + doe - 719468);
    law_date_roundtrip(y, m, d);
}

} // verus!
